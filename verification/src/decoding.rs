//! What a pass of a decoder computes, in numbers.

use crate::attention::{Attention, CacheKind, KvCache};
use crate::computes::{enters, handed_fits};
use crate::config::Gemma4TextConfig;
use crate::fitting::kv_fits;
use crate::formulas::{
    law_norm_forgets_scale, lemma_head_places, lemma_norm3, lemma_norm4, lemma_project_numbers,
    lemma_within3, lemma_within4,
};
use crate::layer::{DecoderLayer, Layered};
use crate::mask::{attention_mask, blocks, law_mask_entries};
use crate::model::{cleared_layers, layers_of, TextModel};
use crate::norm::{internal_dtype, lemma_rms_norm_dims, rms_norm};
use crate::numbers::{
    aligned, along, entries, entry, lemma_applied, lemma_combined, lemma_reshaped_entry, lemma_rms,
    lemma_linear, Numbers,
};
use crate::pass::{own_input, used_up_to, Progress};
use crate::refusal::Refusal;
use crate::sharing::{lemma_layer_of, lemma_pass_prefix, lemma_pass_rank, lemma_step};
use crate::sound::{
    law_embeddings_become_logits, lemma_inputs_fit, lemma_layer_sound, lemma_mask_fits,
    lemma_own_input_fits, lemma_pass_fits, runs_well,
};
use crate::term::{
    Binary, DType, Dim, Module, Projection, Scalar, Term, Unary, VarPath,
};
use vstd::prelude::*;

verus! {

/// A mask holds nothing but zeros where it does not hide.
proof fn lemma_mask_zeros(
    m: Numbers,
    b_size: usize,
    tgt_len: usize,
    offset: usize,
    window: Option<usize>,
    dtype: DType,
    at: Seq<int>,
)
    ensures
        (m.cast)(dtype, 0 as real) == 0 as real ==> entry(
            m,
            attention_mask(b_size, tgt_len, offset, window, dtype),
            at,
        ) == 0 as real,
{
    let square = Term::Mask {
        size: tgt_len,
        blocked: crate::mask::hidden_rows(tgt_len, window),
    };
    assert(forall|i: Seq<int>| #[trigger] entry(m, square, i) == 0 as real) by {
        reveal(entries);
    }
    let zeros = Term::Zeros(seq![Dim::Fixed(tgt_len), Dim::Fixed(offset)]);
    assert(forall|i: Seq<int>| #[trigger] entry(m, zeros, i) == 0 as real) by {
        reveal(entries);
    }
    let wide = if offset > 0 {
        zeros.combine(Binary::CatLast, square)
    } else {
        square
    };
    assert forall|i: Seq<int>| #[trigger] entry(m, wide, i) == 0 as real by {
        if offset > 0 {
            lemma_combined(m, zeros, Binary::CatLast, square, i);
            assert(entry(m, zeros, i) == 0 as real);
            let from = i.last() - m.s.size(zeros.dims().last());
            assert(entry(m, square, along(i, from)) == 0 as real);
        }
    }
    let d = seq![
        Dim::Fixed(b_size),
        Dim::Fixed(1),
        Dim::Fixed(tgt_len),
        Dim::Fixed((tgt_len + offset) as usize),
    ];
    let expanded = Term::Expand(Box::new(wide), d);
    lemma_applied(m, expanded, Unary::Cast(dtype), at);
    assert(entry(m, expanded, at) == entry(m, wide, aligned(wide.dims(), at))) by {
        reveal(entries);
    }
}

/// The embeddings of tokens are rows of the table at `embed_tokens`, times the root of the
/// hidden size.
pub proof fn law_embeddings_are_scaled_rows(
    m: Numbers,
    model: TextModel,
    cfg: Gemma4TextConfig,
    dims: Seq<Dim>,
    b: int,
    t: int,
    c: int,
)
    requires
        model.belongs_to(cfg, m.s.weights),
    ensures
        m.of3(model.embedded(m.s.weights, Term::TokenIds(dims)), b, t, c) == (m.weight)(
            VarPath { layer: None, block: None, module: Some(Module::EmbedTokens) },
            seq![(m.token)(seq![b, t]), c],
        ) * (m.sqrt)(cfg.hidden_size as real),
{
    let ids = Term::TokenIds(dims);
    let found = Term::Lookup(model.embed_tokens, m.s.weights, Box::new(ids));
    let at = seq![b, t, c];
    lemma_applied(m, found, Unary::MulScalar(Scalar::Sqrt(model.hidden_size)), at);
    assert(at.drop_last() =~= seq![b, t]);
    assert(entry(m, found, at) == (m.weight)(
        model.embed_tokens.path,
        seq![(m.token)(seq![b, t]), c],
    )) by {
        reveal(entries);
    }
}

/// What the layers' own inputs have of a token is its row of the table at
/// `embed_tokens_per_layer`, one stretch per layer, times the root of the width; without
/// such inputs there is nothing.
pub proof fn law_token_inputs_are_scaled_rows(
    m: Numbers,
    model: TextModel,
    cfg: Gemma4TextConfig,
    b_size: usize,
    seq_len: usize,
)
    requires
        model.belongs_to(cfg, m.s.weights),
        cfg.sound(),
    ensures
        ({
            let ids = Term::TokenIds(seq![Dim::Fixed(b_size), Dim::Fixed(seq_len)]);
            let width = cfg.hidden_size_per_layer_input;
            model.token_inputs(m.s.weights, ids) matches Ok(r) && if width == 0 {
                r is None
            } else {
                &&& r matches Some(y) && forall|b: int, t: int, i: int, k: int|
                    0 <= b < b_size && 0 <= t < seq_len && 0 <= i < cfg.num_hidden_layers && 0 <= k
                        < width ==> #[trigger] m.of4(y, b, t, i, k) == (m.weight)(
                        VarPath {
                            layer: None,
                            block: None,
                            module: Some(Module::EmbedTokensPerLayer),
                        },
                        seq![(m.token)(seq![b, t]), i * width + k],
                    ) * (m.sqrt)(width as real)
            }
        }),
{
    let (bd, td) = (Dim::Fixed(b_size), Dim::Fixed(seq_len));
    let ids = Term::TokenIds(seq![bd, td]);
    let w = m.s.weights;
    let (n, width) = (cfg.num_hidden_layers, cfg.hidden_size_per_layer_input);
    assert(cleared_layers(model.layers@).len() == model.layers@.len());
    assert(layers_of(cfg).len() == n);
    if width > 0 {
        let table = model.per_layer_embed_tokens->0;
        let found = Term::Lookup(table, w, Box::new(ids));
        let scale = Unary::MulScalar(Scalar::Sqrt(width));
        let scaled = found.apply(scale);
        let four = seq![bd, td, Dim::Fixed(n), Dim::Fixed(width)];
        let y = scaled.reshape(four);
        assert(model.token_inputs(w, ids) == Ok::<Option<Term>, Refusal>(Some(y)));
        assert(found.dims() =~= seq![bd, td, Dim::Fixed((n * width) as usize)]);
        assert(scaled.dims() == found.dims());
        assert forall|b: int, t: int, i: int, k: int|
            0 <= b < b_size && 0 <= t < seq_len && 0 <= i < n && 0 <= k
                < width implies #[trigger] m.of4(y, b, t, i, k) == (m.weight)(
            table.path,
            seq![(m.token)(seq![b, t]), i * width + k],
        ) * (m.sqrt)(width as real) by {
            let at = seq![b, t, i, k];
            lemma_within4(m, four, b, t, i, k);
            lemma_head_places(m, bd, td, n, width, at);
            let from = seq![b, t, i * width + k];
            assert(seq![at[0], at[1], at[2] * width + at[3]] =~= from);
            lemma_reshaped_entry(m, scaled, four, at, from);
            lemma_applied(m, found, scale, from);
            assert(from.drop_last() =~= seq![b, t]);
            assert(entry(m, found, from) == (m.weight)(
                table.path,
                seq![(m.token)(seq![b, t]), i * width + k],
            )) by {
                reveal(entries);
            }
        }
    }
}

/// The layers' own inputs: for each layer, its stretch of the embedding through the linear
/// layer at `per_layer_model_projection`, divided by the root of the hidden size, divided
/// by its root mean square and scaled by the weight at `per_layer_projection_norm`; where
/// tokens are known, what rests on them is added, and the sum divided by the root of two.
pub proof fn law_own_inputs_compute(
    m: Numbers,
    model: TextModel,
    cfg: Gemma4TextConfig,
    xs: Term,
    token_inputs: Option<Term>,
    b_size: usize,
    seq_len: usize,
) -> (projected: Term)
    requires
        model.belongs_to(cfg, m.s.weights),
        cfg.sound(),
        xs.has(
            m.s,
            seq![Dim::Fixed(b_size), Dim::Fixed(seq_len), Dim::Fixed(cfg.hidden_size)],
            m.s.weights,
        ),
    ensures
        ({
            let n = cfg.num_hidden_layers as int;
            let width = cfg.hidden_size_per_layer_input as int;
            let wide = match m.s.weights {
                DType::F16 | DType::BF16 => DType::F32,
                d => d,
            };
            let root = |module: Module| VarPath { layer: None, block: None, module: Some(module) };
            &&& model.per_layer_inputs(m.s.weights, xs, token_inputs) matches Ok(r) && if width
                == 0 {
                r is None
            } else {
                &&& forall|b: int, t: int, i: int, k: int|
                    0 <= b < b_size && 0 <= t < seq_len && 0 <= i < n && 0 <= k
                        < width ==> #[trigger] m.of4(projected, b, t, i, k) == m.linear(
                        root(Module::PerLayerModelProjection),
                        false,
                        cfg.hidden_size as int,
                        |c: int| m.of3(xs, b, t, c),
                        i * width + k,
                    ) * ((1 as real) / (m.sqrt)(cfg.hidden_size as real))
                &&& r matches Some(y) && forall|b: int, t: int, i: int, k: int|
                    0 <= b < b_size && 0 <= t < seq_len && 0 <= i < n && 0 <= k
                        < width ==> #[trigger] m.of4(y, b, t, i, k) == ({
                        let normed = (m.cast)(
                            m.s.weights,
                            (m.cast)(wide, m.of4(projected, b, t, i, k)) / m.rms(
                                width,
                                |j: int| (m.cast)(wide, m.of4(projected, b, t, i, j)),
                                (m.given)(cfg.rms_norm_eps),
                            ),
                        ) * (m.weight)(root(Module::PerLayerProjectionNorm), seq![k]);
                        match token_inputs {
                            Some(x) => (normed + m.of4(x, b, t, i, k)) * ((1 as real) / (m.sqrt)(
                                2 as real,
                            )),
                            None => normed,
                        }
                    })
            }
        }),
{
    let (bd, td) = (Dim::Fixed(b_size), Dim::Fixed(seq_len));
    let w = m.s.weights;
    let (n, width) = (cfg.num_hidden_layers, cfg.hidden_size_per_layer_input);
    assert(cleared_layers(model.layers@).len() == model.layers@.len());
    assert(layers_of(cfg).len() == n);
    if width == 0 {
        xs
    } else {
        let (projection, norm) = (
            model.per_layer_model_projection->0,
            model.per_layer_projection_norm->0,
        );
        let p = Projection::Own(projection);
        let flat = xs.project(p);
        let scale = Unary::MulScalar(Scalar::RecipSqrt(cfg.hidden_size));
        let scaled = flat.apply(scale);
        let four = seq![bd, td, Dim::Fixed(n), Dim::Fixed(width)];
        let shaped = scaled.reshape(four);
        let wide = internal_dtype(w);
        let normed = rms_norm(norm, w, shaped);
        assert(flat.dims() =~= seq![bd, td, Dim::Fixed((n * width) as usize)]);
        assert(scaled.dims() == flat.dims());
        assert(shaped.dims() == four);
        assert(flat.dtype() == w);
        assert(scaled.dtype() == w);
        assert(shaped.dtype() == w);
        assert forall|b: int, t: int, i: int, k: int|
            0 <= b < b_size && 0 <= t < seq_len && 0 <= i < n && 0 <= k
                < width implies #[trigger] m.of4(shaped, b, t, i, k) == m.linear(
            projection.path,
            false,
            cfg.hidden_size as int,
            |c: int| m.of3(xs, b, t, c),
            i * width + k,
        ) * ((1 as real) / (m.sqrt)(cfg.hidden_size as real)) by {
            let at = seq![b, t, i, k];
            lemma_within4(m, four, b, t, i, k);
            lemma_head_places(m, bd, td, n, width, at);
            let from = seq![b, t, i * width + k];
            assert(seq![at[0], at[1], at[2] * width + at[3]] =~= from);
            lemma_reshaped_entry(m, scaled, four, at, from);
            lemma_applied(m, flat, scale, from);
            lemma_project_numbers(m, p, xs, b, t, i * width + k);
        }
        let y = model.per_layer_inputs(w, xs, token_inputs)->Ok_0->0;
        assert forall|b: int, t: int, i: int, k: int|
            0 <= b < b_size && 0 <= t < seq_len && 0 <= i < n && 0 <= k
                < width implies #[trigger] m.of4(y, b, t, i, k) == ({
            let normed = (m.cast)(
                m.s.weights,
                (m.cast)(wide, m.of4(shaped, b, t, i, k)) / m.rms(
                    width as int,
                    |j: int| (m.cast)(wide, m.of4(shaped, b, t, i, j)),
                    (m.given)(cfg.rms_norm_eps),
                ),
            ) * (m.weight)(norm.weight.path, seq![k]);
            match token_inputs {
                Some(x) => (normed + m.of4(x, b, t, i, k)) * ((1 as real) / (m.sqrt)(2 as real)),
                None => normed,
            }
        }) by {
            let at = seq![b, t, i, k];
            lemma_norm4(m, norm, w, shaped, b, t, i, k);
            if let Some(x) = token_inputs {
                let sum = normed.combine(Binary::Add, x);
                let halve = Unary::MulScalar(Scalar::RecipSqrt(2));
                assert(y == sum.apply(halve));
                lemma_applied(m, sum, halve, at);
                lemma_combined(m, normed, Binary::Add, x, at);
            } else {
                assert(y == normed);
            }
        }
        shaped
    }
}

/// What a layer is handed in a pass.
pub struct Handed {
    /// Its own input, where there is one.
    pub own: Option<Term>,
    /// Keys and values stored by an earlier layer.
    pub shared: Option<(Term, Term)>,
    /// Its mask.
    pub mask: Option<Term>,
    /// What it makes of all that.
    pub layered: Layered,
}

/// Whether a decoder runs well over embeddings, with caches that hand back all positions,
/// and zero is an element of the type of its weights.
pub open spec fn decodes(
    m: Numbers,
    model: TextModel,
    cfg: Gemma4TextConfig,
    xs: Term,
    token_inputs: Option<Term>,
    offset: usize,
    b_size: usize,
    seq_len: usize,
) -> bool {
    &&& runs_well(m.s, model, cfg, xs, token_inputs, offset, b_size, seq_len)
    &&& (m.cast)(m.s.weights, 0 as real) == 0 as real
    &&& forall|l: usize| #[trigger] (m.s.cached)(l) == offset + seq_len
}

/// What each layer is handed in a pass. Its input are the hidden states behind the layer
/// before, and at first the embeddings. Of the layers' own inputs it gets those with its
/// own index and no others. Its mask hides from each token those that come later, and in
/// sliding layers those further back among the tokens at hand than the window reaches, and
/// no others. A layer that shares keys and values gets those that the last layer of its
/// kind with keys and values of its own has met, which are kept for it. The hidden states
/// behind the layer are what it makes of that, and its append comes behind those of the
/// layers before.
#[verifier::rlimit(60)]
pub proof fn law_layers_follow_each_other(
    m: Numbers,
    model: TextModel,
    cfg: Gemma4TextConfig,
    xs: Term,
    token_inputs: Option<Term>,
    offset: usize,
    b_size: usize,
    seq_len: usize,
    i: int,
) -> (n: Handed)
    requires
        decodes(m, model, cfg, xs, token_inputs, offset, b_size, seq_len),
        0 <= i < cfg.num_hidden_layers,
    ensures
        ({
            let w = m.s.weights;
            let per_layer = model.per_layer_inputs(w, xs, token_inputs)->Ok_0;
            let inputs = model.inputs(w, xs, per_layer, offset, b_size, seq_len);
            let first = model.pass(inputs, 0)->Ok_0;
            let p = model.pass(inputs, i as nat)->Ok_0;
            let q = model.pass(inputs, (i + 1) as nat)->Ok_0;
            let width = cfg.hidden_size_per_layer_input;
            let sliding = cfg.sliding@[i];
            let ends = cfg.num_hidden_layers - cfg.num_kv_shared_layers;
            let own = i < ends || cfg.num_kv_shared_layers == 0;
            let stores = own && forall|j: int|
                i < j < ends ==> #[trigger] cfg.layer_types@[j]@ != cfg.layer_types@[i]@;
            &&& model.pass(inputs, i as nat) is Ok
            &&& model.pass(inputs, (i + 1) as nat) is Ok
            &&& first.xs == xs && first.sliding_kv is None && first.full_kv is None
            &&& first.actions.len() == 0
            &&& enters(m, model, cfg, i, p.xs, n.mask, offset, b_size, seq_len)
            &&& handed_fits(m, model, i, n.shared, b_size)
            &&& model.layers@[i].run(
                w,
                model.layers@[i].self_attn.tables(model.rotary_emb_global, model.rotary_emb_local),
                p.xs,
                n.own,
                n.shared,
                n.mask,
                offset,
            ) == Ok::<Layered, Refusal>(n.layered)
            &&& (n.own is Some) == (width > 0)
            &&& n.own matches Some(x) ==> {
                &&& x.has(
                    m.s,
                    seq![Dim::Fixed(b_size), Dim::Fixed(seq_len), Dim::Fixed(width)],
                    w,
                )
                &&& forall|b: int, t: int, k: int| #[trigger]
                    m.of3(x, b, t, k) == m.of4(per_layer->0, b, t, i, k)
            }
            &&& n.shared == if sliding {
                p.sliding_kv
            } else {
                p.full_kv
            }
            &&& (n.mask is Some) == (seq_len > 1)
            &&& match n.mask {
                Some(x) => forall|t: int, j: int|
                    0 <= t < seq_len && 0 <= j < offset + seq_len ==> #[trigger] blocks(x, t, j)
                        == (j > offset + t || (sliding && j >= offset && j - offset
                        + cfg.sliding_window < t)),
                None => seq_len == 1,
            }
            &&& q.xs == n.layered.out
            &&& (n.layered.stored is Some) == stores
            &&& q.sliding_kv == if sliding && stores {
                n.layered.stored
            } else {
                p.sliding_kv
            }
            &&& q.full_kv == if !sliding && stores {
                n.layered.stored
            } else {
                p.full_kv
            }
            &&& (n.layered.action is Some) == own
            &&& q.actions == if own {
                p.actions.push(n.layered.action->0)
            } else {
                p.actions
            }
        }),
{
    let w = m.s.weights;
    let (bd, td) = (Dim::Fixed(b_size), Dim::Fixed(seq_len));
    let nl = cfg.num_hidden_layers as nat;
    lemma_inputs_fit(m.s, model, cfg, xs, token_inputs, offset, b_size, seq_len);
    let per_layer = model.per_layer_inputs(w, xs, token_inputs)->Ok_0;
    let inputs = model.inputs(w, xs, per_layer, offset, b_size, seq_len);
    lemma_pass_prefix(model, inputs, i as nat, nl);
    lemma_pass_prefix(model, inputs, (i + 1) as nat, nl);
    lemma_pass_fits(m.s, model, cfg, inputs, bd, td, i as nat);
    lemma_pass_rank(model, inputs, i as nat);
    lemma_layer_of(model, cfg, w, i);
    lemma_layer_sound(model, cfg, w, i);
    let p = model.pass(inputs, i as nat)->Ok_0;
    lemma_step(model, inputs, p, i);
    let sliding = cfg.sliding@[i];
    let l = model.step(inputs, p, i)->Ok_0;
    let window = if sliding {
        Some(cfg.sliding_window)
    } else {
        None
    };
    let mask = if seq_len > 1 {
        Some(attention_mask(b_size, seq_len, offset, window, w))
    } else {
        None
    };
    assert(mask == if sliding {
        inputs.sliding_mask
    } else {
        inputs.full_mask
    });
    if seq_len > 1 {
        lemma_mask_fits(m.s, b_size, seq_len, offset, window);
        assert forall|at: Seq<int>| #[trigger] entry(m, mask->0, at) == 0 as real by {
            lemma_mask_zeros(m, b_size, seq_len, offset, window, w, at);
        }
    }
    if let Some(x) = mask {
        assert forall|t: int, j: int|
            0 <= t < seq_len && 0 <= j < offset + seq_len implies #[trigger] blocks(x, t, j) == (j
            > offset + t || (sliding && j >= offset && j - offset + cfg.sliding_window < t)) by {
            law_mask_entries(b_size, seq_len, offset, window, w, t, j);
        }
    }
    let own = own_input(per_layer, i as usize);
    lemma_own_slice(m, model, cfg, per_layer, xs, token_inputs, b_size, seq_len, i);
    let shared = p.kv(sliding);
    assert(handed_fits(m, model, i, shared, b_size)) by {
        if let Some(kv) = shared {
            let source = choose|source: usize| #[trigger]
                kv_fits(
                    m.s,
                    kv,
                    bd,
                    cfg.kind_kv_heads(sliding),
                    source,
                    cfg.kind_head_dim(sliding),
                );
            assert(kv_fits(
                m.s,
                kv,
                bd,
                model.layers@[i].self_attn.num_kv_heads,
                source,
                model.layers@[i].self_attn.head_dim,
            ));
        }
    }
    lemma_stores(cfg, i);
    Handed { own, shared, mask, layered: l }
}

/// Which layers store keys and values for others.
proof fn lemma_stores(cfg: Gemma4TextConfig, i: int)
    requires
        cfg.sound(),
        0 <= i < cfg.num_hidden_layers,
    ensures
        ({
            let ends = cfg.num_hidden_layers - cfg.num_kv_shared_layers;
            let own = i < ends || cfg.num_kv_shared_layers == 0;
            &&& cfg.shares_kv(i) == !own
            &&& cfg.stores_kv(i) == (own && forall|j: int|
                i < j < ends ==> #[trigger] cfg.layer_types@[j]@ != cfg.layer_types@[i]@)
        }),
{
    let ends = cfg.num_hidden_layers - cfg.num_kv_shared_layers;
    if cfg.stores_kv(i) {
        assert forall|j: int| i < j < ends implies #[trigger] cfg.layer_types@[j]@
            != cfg.layer_types@[i]@ by {
            assert(!cfg.same_type(i, j));
        }
    }
}

/// A layer's own input holds the numbers with its index.
proof fn lemma_own_slice(
    m: Numbers,
    model: TextModel,
    cfg: Gemma4TextConfig,
    per_layer: Option<Term>,
    xs: Term,
    token_inputs: Option<Term>,
    b_size: usize,
    seq_len: usize,
    i: int,
)
    requires
        model.belongs_to(cfg, m.s.weights),
        cfg.sound(),
        0 <= i < cfg.num_hidden_layers,
        model.per_layer_inputs(m.s.weights, xs, token_inputs) == Ok::<Option<Term>, Refusal>(
            per_layer,
        ),
        per_layer matches Some(y) ==> y.has(
            m.s,
            seq![
                Dim::Fixed(b_size),
                Dim::Fixed(seq_len),
                Dim::Fixed(cfg.num_hidden_layers),
                Dim::Fixed(cfg.hidden_size_per_layer_input),
            ],
            m.s.weights,
        ),
    ensures
        ({
            let own = own_input(per_layer, i as usize);
            &&& (own is Some) == (cfg.hidden_size_per_layer_input > 0)
            &&& own matches Some(x) ==> {
                &&& x.has(
                    m.s,
                    seq![
                        Dim::Fixed(b_size),
                        Dim::Fixed(seq_len),
                        Dim::Fixed(cfg.hidden_size_per_layer_input),
                    ],
                    m.s.weights,
                )
                &&& forall|b: int, t: int, k: int| #[trigger]
                    m.of3(x, b, t, k) == m.of4(per_layer->0, b, t, i, k)
            }
        }),
{
    if let Some(y) = per_layer {
        lemma_own_input_fits(
            m.s,
            y,
            Dim::Fixed(b_size),
            Dim::Fixed(seq_len),
            cfg.num_hidden_layers,
            cfg.hidden_size_per_layer_input,
            i as usize,
        );
        let narrow = Unary::Narrow { axis: 2, start: i as usize, len: Dim::Fixed(1) };
        let one = y.apply(narrow);
        let x = one.apply(Unary::Squeeze(2));
        assert(own_input(per_layer, i as usize) == Some(x));
        assert forall|b: int, t: int, k: int| #[trigger]
            m.of3(x, b, t, k) == m.of4(y, b, t, i, k) by {
            let at = seq![b, t, k];
            lemma_applied(m, one, Unary::Squeeze(2), at);
            let four = at.insert(2, 0);
            assert(four =~= seq![b, t, 0, k]);
            lemma_applied(m, y, narrow, four);
            assert(four.update(2, four[2] + (i as usize)) =~= seq![b, t, i, k]);
        }
    }
}

/// The logits of a pass: the last token's hidden state behind the last layer, divided by
/// its root mean square and scaled by the weight at `norm`, through the head, which is the
/// table of embeddings where it is tied, and capped where the configuration says so. There
/// is one score for each entry of the vocabulary.
pub proof fn law_logits_compute(
    m: Numbers,
    model: TextModel,
    cfg: Gemma4TextConfig,
    xs: Term,
    token_inputs: Option<Term>,
    offset: usize,
    b_size: usize,
    seq_len: usize,
)
    requires
        decodes(m, model, cfg, xs, token_inputs, offset, b_size, seq_len),
    ensures
        ({
            let w = m.s.weights;
            let per_layer = model.per_layer_inputs(w, xs, token_inputs)->Ok_0;
            let inputs = model.inputs(w, xs, per_layer, offset, b_size, seq_len);
            let p = model.pass(inputs, cfg.num_hidden_layers as nat)->Ok_0;
            let outcome = model.outcome(w, xs, token_inputs, offset, b_size, seq_len);
            let hidden = cfg.hidden_size as int;
            let wide = match m.s.weights {
                DType::F16 | DType::BF16 => DType::F32,
                d => d,
            };
            let root = |module: Module| VarPath { layer: None, block: None, module: Some(module) };
            let x = |b: int, c: int| m.of3(p.xs, b, seq_len - 1, c);
            &&& model.pass(inputs, cfg.num_hidden_layers as nat) is Ok
            &&& outcome.actions == p.actions
            &&& outcome.result matches Ok(logits) && logits.dims() == seq![
                Dim::Fixed(b_size),
                Dim::Fixed(1),
                Dim::Fixed(cfg.vocab_size),
            ] && forall|b: int, v: int|
                0 <= b < b_size && 0 <= v < cfg.vocab_size ==> #[trigger] m.of3(logits, b, 0, v)
                    == ({
                    let plain = m.linear(
                        root(
                            if cfg.tie_word_embeddings {
                                Module::EmbedTokens
                            } else {
                                Module::LmHead
                            },
                        ),
                        false,
                        hidden,
                        |c: int|
                            (m.cast)(
                                m.s.weights,
                                (m.cast)(wide, x(b, c)) / m.rms(
                                    hidden,
                                    |j: int| (m.cast)(wide, x(b, j)),
                                    (m.given)(cfg.rms_norm_eps),
                                ),
                            )
                                * (m.weight)(root(Module::Norm), seq![c]),
                        v,
                    );
                    match cfg.final_logit_softcapping {
                        Some(cap) => (m.tanh)(plain / (m.given)(cap)) * (m.given)(cap),
                        None => plain,
                    }
                })
        }),
{
    let w = m.s.weights;
    let (bd, td) = (Dim::Fixed(b_size), Dim::Fixed(seq_len));
    let nl = cfg.num_hidden_layers as nat;
    lemma_inputs_fit(m.s, model, cfg, xs, token_inputs, offset, b_size, seq_len);
    law_embeddings_become_logits(m.s, model, cfg, xs, token_inputs, offset, b_size, seq_len);
    let per_layer = model.per_layer_inputs(w, xs, token_inputs)->Ok_0;
    let inputs = model.inputs(w, xs, per_layer, offset, b_size, seq_len);
    lemma_pass_fits(m.s, model, cfg, inputs, bd, td, nl);
    let p = model.pass(inputs, nl)->Ok_0;
    let outcome = model.outcome(w, xs, token_inputs, offset, b_size, seq_len);
    let logits = outcome.result->Ok_0;
    assert(logits == model.logits(w, p.xs, seq_len)->Ok_0);
    assert(model.reached(inputs, model.layers@.len()) == nl);
    let wide = internal_dtype(w);
    let hidden = cfg.hidden_size as int;
    let x = |b: int, c: int| m.of3(p.xs, b, seq_len - 1, c);
    let start = (seq_len - 1) as usize;
    let narrow = Unary::Narrow { axis: 1, start, len: Dim::Fixed(1) };
    let last = p.xs.apply(narrow);
    assert(last.dims() =~= seq![bd, Dim::Fixed(1), Dim::Fixed(cfg.hidden_size)]);
    let normed = rms_norm(model.norm, w, last);
    lemma_rms_norm_dims(model.norm, w, last);
    let plain = normed.project(model.lm_head);
    let norm_path = VarPath { layer: None, block: None, module: Some(Module::Norm) };
    let head = VarPath {
        layer: None,
        block: None,
        module: Some(
            if cfg.tie_word_embeddings {
                Module::EmbedTokens
            } else {
                Module::LmHead
            },
        ),
    };
    assert forall|b: int, v: int|
        0 <= b < b_size && 0 <= v < cfg.vocab_size implies #[trigger] m.of3(logits, b, 0, v) == ({
        let plain = m.linear(
            head,
            false,
            hidden,
            |c: int|
                (m.cast)(
                    m.s.weights,
                    (m.cast)(wide, x(b, c)) / m.rms(
                        hidden,
                        |j: int| (m.cast)(wide, x(b, j)),
                        (m.given)(cfg.rms_norm_eps),
                    ),
                )
                    * (m.weight)(norm_path, seq![c]),
            v,
        );
        match cfg.final_logit_softcapping {
            Some(cap) => (m.tanh)(plain / (m.given)(cap)) * (m.given)(cap),
            None => plain,
        }
    }) by {
        lemma_project_numbers(m, model.lm_head, normed, b, 0, v);
        let f = |c: int| m.of3(normed, b, 0, c);
        let g = |c: int|
            (m.cast)(
                m.s.weights,
                (m.cast)(wide, x(b, c)) / m.rms(
                    hidden,
                    |j: int| (m.cast)(wide, x(b, j)),
                    (m.given)(cfg.rms_norm_eps),
                ),
            )
                * (m.weight)(norm_path, seq![c]);
        assert forall|c: int| 0 <= c < hidden implies #[trigger] f(c) == g(c) by {
            lemma_norm3(m, model.norm, w, last, b, 0, c);
            let y = |j: int| (m.cast)(wide, m.of3(last, b, 0, j));
            let z = |j: int| (m.cast)(wide, x(b, j));
            assert forall|j: int| 0 <= j < hidden implies #[trigger] y(j) == z(j) by {
                let at = seq![b, 0, j];
                lemma_applied(m, p.xs, narrow, at);
                assert(at.update(1, at[1] + start) =~= seq![b, seq_len - 1, j]);
            }
            lemma_rms(m, hidden, y, z, (m.given)(cfg.rms_norm_eps));
            assert(y(c) == z(c));
            assert(last.dtype() == w);
        }
        lemma_linear(m, head, false, hidden, f, g, v);
        let at = seq![b, 0, v];
        if let Some(cap) = model.final_logit_softcapping {
            let div = Unary::DivScalar(Scalar::Given(cap));
            let scaled = plain.apply(div);
            let capped = scaled.apply(Unary::Tanh);
            lemma_applied(m, plain, div, at);
            lemma_applied(m, scaled, Unary::Tanh, at);
            lemma_applied(m, capped, Unary::MulScalar(Scalar::Given(cap)), at);
        }
    }
}

/// Logits do not rest on how large the last hidden state is, only on its direction: times a
/// positive number it has the same logits, where nothing is added to mean squares and
/// arithmetic is exact.
pub proof fn law_logits_forget_scale(
    m: Numbers,
    model: TextModel,
    cfg: Gemma4TextConfig,
    y: Term,
    z: Term,
    b_size: usize,
    seq_len: usize,
    b: int,
    v: int,
    factor: real,
)
    requires
        model.belongs_to(cfg, m.s.weights),
        y.dims() == seq![Dim::Fixed(b_size), Dim::Fixed(seq_len), Dim::Fixed(cfg.hidden_size)],
        z.dims() == y.dims(),
        z.dtype() == y.dtype(),
        0 < seq_len,
        0 <= b < b_size,
        factor > 0 as real,
        forall|i: Seq<int>| #[trigger] entry(m, z, i) == factor * entry(m, y, i),
        exists|j: int|
            0 <= j < cfg.hidden_size && #[trigger] m.of3(y, b, seq_len - 1, j) != 0 as real,
        (m.given)(cfg.rms_norm_eps) == 0 as real,
        forall|d: DType, r: real| #[trigger] (m.cast)(d, r) == r,
        forall|r: real|
            r >= 0 as real ==> (#[trigger] (m.sqrt)(r)) >= 0 as real && (m.sqrt)(r) * (m.sqrt)(r)
                == r,
    ensures
        model.logits(m.s.weights, y, seq_len) matches Ok(plain) && model.logits(
            m.s.weights,
            z,
            seq_len,
        ) matches Ok(scaled) && m.of3(plain, b, 0, v) == m.of3(scaled, b, 0, v),
{
    let w = m.s.weights;
    let start = (seq_len - 1) as usize;
    let narrow = Unary::Narrow { axis: 1, start, len: Dim::Fixed(1) };
    let (last_y, last_z) = (y.apply(narrow), z.apply(narrow));
    let d = seq![Dim::Fixed(b_size), Dim::Fixed(1), Dim::Fixed(cfg.hidden_size)];
    assert(last_y.dims() =~= d);
    assert(last_z.dims() =~= d);
    assert forall|i: Seq<int>| #[trigger] entry(m, last_z, i) == factor * entry(m, last_y, i) by {
        lemma_applied(m, y, narrow, i);
        lemma_applied(m, z, narrow, i);
        let from = i.update(1, i[1] + start);
        assert(entry(m, z, from) == factor * entry(m, y, from));
    }
    let (of_y, of_z) = (rms_norm(model.norm, w, last_y), rms_norm(model.norm, w, last_z));
    lemma_rms_norm_dims(model.norm, w, last_y);
    lemma_rms_norm_dims(model.norm, w, last_z);
    let norm_path = VarPath { layer: None, block: None, module: Some(Module::Norm) };
    let (f, g) = (|c: int| m.of3(of_y, b, 0, c), |c: int| m.of3(of_z, b, 0, c));
    let hidden = cfg.hidden_size as int;
    assert forall|c: int| 0 <= c < hidden implies #[trigger] f(c) == g(c) by {
        let at = seq![b, 0, c];
        lemma_within3(m, d, b, 0, c);
        let j = choose|j: int|
            0 <= j < hidden && #[trigger] m.of3(y, b, seq_len - 1, j) != 0 as real;
        let from = at.update(at.len() - 1, j);
        lemma_applied(m, y, narrow, from);
        assert(from.update(1, from[1] + start) =~= seq![b, seq_len - 1, j]);
        assert(entry(m, last_y, from) != 0 as real);
        law_norm_forgets_scale(
            m,
            cfg.hidden_size,
            cfg.rms_norm_eps,
            norm_path,
            w,
            last_y,
            last_z,
            at,
            factor,
        );
    }
    let (plain, scaled) = (of_y.project(model.lm_head), of_z.project(model.lm_head));
    lemma_project_numbers(m, model.lm_head, of_y, b, 0, v);
    lemma_project_numbers(m, model.lm_head, of_z, b, 0, v);
    match model.lm_head {
        Projection::Own(l) => lemma_linear(m, l.path, l.bias, hidden, f, g, v),
        Projection::Tied(e) => lemma_linear(m, e.path, false, hidden, f, g, v),
    }
    if let Some(cap) = model.final_logit_softcapping {
        let at = seq![b, 0, v];
        let div = Unary::DivScalar(Scalar::Given(cap));
        let mul = Unary::MulScalar(Scalar::Given(cap));
        lemma_applied(m, plain, div, at);
        lemma_applied(m, plain.apply(div), Unary::Tanh, at);
        lemma_applied(m, plain.apply(div).apply(Unary::Tanh), mul, at);
        lemma_applied(m, scaled, div, at);
        lemma_applied(m, scaled.apply(div), Unary::Tanh, at);
        lemma_applied(m, scaled.apply(div).apply(Unary::Tanh), mul, at);
    }
}

/// A pass over tokens is the pass over their embeddings, with what rests on them handed to
/// the layers, at the same offset and over all of them.
pub proof fn law_tokens_are_embedded_first(
    model: TextModel,
    weights: DType,
    b_size: usize,
    seq_len: usize,
    offset: usize,
)
    ensures
        ({
            let ids = Term::TokenIds(seq![Dim::Fixed(b_size), Dim::Fixed(seq_len)]);
            let of_tokens = model.token_outcome(weights, ids, offset);
            model.token_inputs(weights, ids) matches Ok(token_inputs) && {
                let of_embeddings = model.outcome(
                    weights,
                    model.embedded(weights, ids),
                    token_inputs,
                    offset,
                    b_size,
                    seq_len,
                );
                &&& of_tokens.result == of_embeddings.result
                &&& of_tokens.actions == of_embeddings.actions
                &&& of_tokens.layers == of_embeddings.layers
            }
        }),
{
    let ids = Term::TokenIds(seq![Dim::Fixed(b_size), Dim::Fixed(seq_len)]);
    assert(ids.dims() == seq![Dim::Fixed(b_size), Dim::Fixed(seq_len)]);
}

/// Tokens that do not lie in rows are refused, and so are embeddings that do not lie in rows
/// of vectors; then nothing is appended to a cache and no layer changes.
pub proof fn law_other_shapes_are_refused(
    model: TextModel,
    cfg: Gemma4TextConfig,
    weights: DType,
    xs: Term,
    token_inputs: Option<Term>,
    offset: usize,
    b_size: usize,
    seq_len: usize,
)
    requires
        model.belongs_to(cfg, weights),
        0 < cfg.num_hidden_layers,
    ensures
        xs.dims().len() != 2 ==> {
            let outcome = model.token_outcome(weights, xs, offset);
            &&& outcome.result == Err::<Term, Refusal>(
                Refusal::Rank { expected: 2, found: xs.dims().len() as usize },
            )
            &&& outcome.actions.len() == 0
            &&& outcome.layers == model.layers@
            &&& outcome.computed == Set::<Term>::empty()
        },
        xs.dims().len() != 2 && cfg.hidden_size_per_layer_input > 0 ==> model.token_inputs(
            weights,
            xs,
        ) == Err::<Option<Term>, Refusal>(
            Refusal::Rank { expected: 2, found: xs.dims().len() as usize },
        ),
        xs.dims().len() != 3 && cfg.hidden_size_per_layer_input > 0 ==> model.per_layer_inputs(
            weights,
            xs,
            token_inputs,
        ) == Err::<Option<Term>, Refusal>(
            Refusal::Rank { expected: 3, found: xs.dims().len() as usize },
        ),
        xs.dims().len() != 3 ==> {
            let outcome = model.outcome(weights, xs, token_inputs, offset, b_size, seq_len);
            &&& outcome.result == Err::<Term, Refusal>(
                if xs.dims().len() == 0 && cfg.hidden_size_per_layer_input == 0 {
                    Refusal::NoAxis
                } else {
                    Refusal::Rank { expected: 3, found: xs.dims().len() as usize }
                },
            )
            &&& outcome.actions.len() == 0
            &&& outcome.layers == model.layers@
        },
{
    if xs.dims().len() != 3 && cfg.hidden_size_per_layer_input == 0 {
        lemma_layer_of(model, cfg, weights, 0);
        let inputs = model.inputs(weights, xs, None, offset, b_size, seq_len);
        let norm = model.layers@[0].input_layernorm;
        if xs.dims().len() > 0 {
            lemma_rms_norm_dims(norm, weights, xs);
        }
        let start = model.pass(inputs, 0)->Ok_0;
        assert(start.xs == xs);
        let e = if xs.dims().len() == 0 {
            Refusal::NoAxis
        } else {
            Refusal::Rank { expected: 3, found: xs.dims().len() as usize }
        };
        assert(model.step(inputs, start, 0) == Err::<Layered, Refusal>(e)) by {
            reveal(DecoderLayer::run);
            reveal(Attention::attention);
        }
        assert(model.pass(inputs, 1) == Err::<Progress, Refusal>(e));
        model.lemma_refused(inputs, 0, model.layers@.len(), e);
        assert(used_up_to(model.layers@, 0) =~= model.layers@);
    }
}

/// Where a layer refuses, the pass ends there and is refused for the same reason. What the
/// layers before it appended to their caches stays, and no other layer changes.
pub proof fn law_refusal_ends_the_pass(
    model: TextModel,
    weights: DType,
    xs: Term,
    token_inputs: Option<Term>,
    offset: usize,
    b_size: usize,
    seq_len: usize,
    i: int,
    e: Refusal,
)
    requires
        0 <= i < model.layers@.len(),
        model.per_layer_inputs(weights, xs, token_inputs) matches Ok(per_layer) && {
            let inputs = model.inputs(weights, xs, per_layer, offset, b_size, seq_len);
            &&& model.pass(inputs, i as nat) is Ok
            &&& model.step(inputs, model.pass(inputs, i as nat)->Ok_0, i) == Err::<
                Layered,
                Refusal,
            >(e)
        },
    ensures
        ({
            let per_layer = model.per_layer_inputs(weights, xs, token_inputs)->Ok_0;
            let inputs = model.inputs(weights, xs, per_layer, offset, b_size, seq_len);
            let outcome = model.outcome(weights, xs, token_inputs, offset, b_size, seq_len);
            &&& outcome.result == Err::<Term, Refusal>(e)
            &&& outcome.actions == model.pass(inputs, i as nat)->Ok_0.actions
            &&& outcome.layers.len() == model.layers@.len()
            &&& forall|j: int|
                i <= j < model.layers@.len() ==> #[trigger] outcome.layers[j] == model.layers@[j]
            &&& forall|j: int|
                0 <= j < i ==> #[trigger] outcome.layers[j] == ({
                    let layer = model.layers@[j];
                    let att = layer.self_attn;
                    if att.is_kv_shared_layer {
                        layer
                    } else {
                        DecoderLayer {
                            self_attn: Attention {
                                kv_cache: KvCache { empty: false, ..att.kv_cache },
                                ..att
                            },
                            ..layer
                        }
                    }
                })
        }),
{
    let per_layer = model.per_layer_inputs(weights, xs, token_inputs)->Ok_0;
    let inputs = model.inputs(weights, xs, per_layer, offset, b_size, seq_len);
    assert(model.pass(inputs, (i + 1) as nat) == Err::<Progress, Refusal>(e));
    model.lemma_refused(inputs, i as nat, model.layers@.len(), e);
}

/// After a pass the cache of each layer with keys and values of its own is empty no longer,
/// every other cache is as it was, and nothing else about the layers changes.
pub proof fn law_pass_changes_caches_alone(
    m: Numbers,
    model: TextModel,
    cfg: Gemma4TextConfig,
    xs: Term,
    token_inputs: Option<Term>,
    offset: usize,
    b_size: usize,
    seq_len: usize,
    i: int,
)
    requires
        decodes(m, model, cfg, xs, token_inputs, offset, b_size, seq_len),
        0 <= i < cfg.num_hidden_layers,
    ensures
        ({
            let after = model.outcome(
                m.s.weights,
                xs,
                token_inputs,
                offset,
                b_size,
                seq_len,
            ).layers;
            let own = i < cfg.num_hidden_layers - cfg.num_kv_shared_layers
                || cfg.num_kv_shared_layers == 0;
            let (old_layer, new_layer) = (model.layers@[i], after[i]);
            &&& after.len() == cfg.num_hidden_layers
            &&& new_layer.self_attn.kv_cache.empty == (!own && old_layer.self_attn.kv_cache.empty)
            &&& new_layer == DecoderLayer {
                self_attn: Attention {
                    kv_cache: KvCache {
                        empty: new_layer.self_attn.kv_cache.empty,
                        ..old_layer.self_attn.kv_cache
                    },
                    ..old_layer.self_attn
                },
                ..old_layer
            }
        }),
{
    let w = m.s.weights;
    lemma_inputs_fit(m.s, model, cfg, xs, token_inputs, offset, b_size, seq_len);
    let per_layer = model.per_layer_inputs(w, xs, token_inputs)->Ok_0;
    let inputs = model.inputs(w, xs, per_layer, offset, b_size, seq_len);
    let n = model.layers@.len();
    assert(model.reached(inputs, n) == n);
    lemma_layer_of(model, cfg, w, i);
    lemma_stores(cfg, i);
}

/// The caches that a decoder is laid out with: those of sliding layers keep the positions
/// of the effective window and drop older ones, those of full layers keep as many as there
/// are angles, along the axis of the positions, and all are empty.
pub proof fn law_caches_by_kind(model: TextModel, cfg: Gemma4TextConfig, dtype: DType, i: int)
    requires
        model.laid_out(cfg, dtype),
        0 <= i < cfg.num_hidden_layers,
    ensures
        model.layers@[i].self_attn.kv_cache == (KvCache {
            kind: if cfg.sliding@[i] {
                CacheKind::Rotating
            } else {
                CacheKind::Normal
            },
            dim: 2,
            limit: if cfg.sliding@[i] {
                cfg.effective_sliding_window
            } else {
                cfg.max_position_embeddings
            },
            empty: true,
        }),
{
    lemma_layer_of(model, cfg, dtype, i);
}

} // verus!
