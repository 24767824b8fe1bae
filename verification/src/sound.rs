//! The decoder of a sound configuration turns tokens into logits.

use crate::attention::Tables;
use crate::caches::{contents, law_pass_fills_caches};
use crate::config::Gemma4TextConfig;
use crate::fitting::{
    append_fits, attention_sound, kv_fits, lemma_attention_fits, lemma_feed_forward_fits,
    lemma_norm_fits, lemma_project_fits, mask_fits, tables_fit,
};
use crate::layer::DecoderLayer;
use crate::mask::{attention_mask, hidden_rows};
use crate::mlp::feed_forward;
use crate::model::{cleared_layers, layers_of, TextModel};
use crate::norm::rms_norm;
use crate::parts::{lemma_parts_fit, optional_parts, parts};
use crate::pass::{own_input, Inputs, Progress};
use crate::rotary::{angles, even_numerators, global_angles, local_angles, padded_numerators};
use crate::sharing::{
    law_pass_comes_through, lemma_layer_of, lemma_pass_prefix, lemma_pass_rank, lemma_past_angles,
    lemma_step,
};
use crate::sizes::{lemma_count_column, lemma_count_merged, Setting};
use crate::term::{
    broadcast_dims, with_last, Binary, DType, Dim, F64Bits, Precision, Projection, Scalar, Term,
    Unary,
};
use vstd::prelude::*;

verus! {

impl Gemma4TextConfig {
    /// Head width under one of the two kinds of attention.
    pub open spec fn kind_head_dim(self, sliding: bool) -> usize {
        if sliding {
            self.head_dim
        } else {
            self.global_head_dim
        }
    }

    /// Key/value heads under one of the two kinds of attention.
    pub open spec fn kind_kv_heads(self, sliding: bool) -> usize {
        match (sliding, self.num_global_key_value_heads) {
            (false, Some(n)) => n,
            _ => self.num_key_value_heads,
        }
    }

    /// Whether the widths of a configuration agree with each other: it can be laid
    /// out, heads have even width and share keys and values in groups of equal size,
    /// layer types agree with the kinds of attention, and every layer that shares keys
    /// and values has a layer to take them from.
    pub open spec fn sound(self) -> bool {
        &&& self.fits()
        &&& self.types_agree()
        &&& self.head_dim % 2 == 0
        &&& self.global_head_dim % 2 == 0
        &&& self.max_position_embeddings <= u32::MAX
        &&& forall|i: int|
            0 <= i < self.num_hidden_layers ==> self.num_attention_heads
                % #[trigger] self.layer_kv_heads(i) == 0
        &&& forall|i: int|
            0 <= i < self.num_hidden_layers && #[trigger] self.shares_kv(i) ==> self.has_source(i)
    }
}

/// Whether the widths of a layer agree with each other.
pub open spec fn layer_sound(layer: DecoderLayer, hidden: usize, width: usize) -> bool {
    &&& attention_sound(layer.self_attn, hidden)
    &&& layer.mlp.gate_proj.in_dim == hidden
    &&& layer.mlp.up_proj.in_dim == hidden
    &&& layer.mlp.gate_proj.out_dim == layer.mlp.up_proj.out_dim
    &&& layer.mlp.down_proj.in_dim == layer.mlp.up_proj.out_dim
    &&& layer.mlp.down_proj.out_dim == hidden
    &&& layer.input_layernorm.weight.len == hidden
    &&& layer.post_attention_layernorm.weight.len == hidden
    &&& layer.pre_feedforward_layernorm.weight.len == hidden
    &&& layer.post_feedforward_layernorm.weight.len == hidden
    &&& layer.layer_scalar.len == 1
    &&& layer.per_layer_input_gate matches Some(l) ==> l.in_dim == hidden && l.out_dim == width
    &&& layer.per_layer_projection matches Some(l) ==> l.in_dim == width && l.out_dim == hidden
    &&& layer.post_per_layer_input_norm matches Some(n) ==> n.weight.len == hidden
}

/// A sound configuration has sound layers.
pub proof fn lemma_layer_sound(model: TextModel, cfg: Gemma4TextConfig, dtype: DType, i: int)
    requires
        model.belongs_to(cfg, dtype),
        cfg.sound(),
        0 <= i < cfg.num_hidden_layers,
    ensures
        layer_sound(model.layers@[i], cfg.hidden_size, cfg.hidden_size_per_layer_input),
        model.layers@[i].self_attn.is_sliding == cfg.sliding@[i],
        model.layer_is_sliding@[i] == cfg.sliding@[i],
        model.layers@[i].self_attn.head_dim == cfg.kind_head_dim(cfg.sliding@[i]),
        model.layers@[i].self_attn.num_kv_heads == cfg.kind_kv_heads(cfg.sliding@[i]),
{
    lemma_layer_of(model, cfg, dtype, i);
    assert(cfg.layer_fits(i));
    let kv = cfg.layer_kv_heads(i);
    let heads = cfg.num_attention_heads;
    assert(heads % kv == 0);
    assert(kv * (heads / kv) == heads) by (nonlinear_arith)
        requires
            kv > 0,
            heads % kv == 0,
    ;
}

/// Hidden states stay hidden states behind attention.
pub proof fn lemma_behind_fits(
    s: Setting,
    layer: DecoderLayer,
    xs: Term,
    attended: Term,
    per_layer_input: Option<Term>,
    b: Dim,
    t: Dim,
    hidden: usize,
    width: usize,
)
    requires
        layer_sound(layer, hidden, width),
        xs.has(s, seq![b, t, Dim::Fixed(hidden)], s.weights),
        attended.has(s, seq![b, t, Dim::Fixed(hidden)], s.weights),
        per_layer_input matches Some(p) ==> p.has(s, seq![b, t, Dim::Fixed(width)], s.weights),
    ensures
        layer.behind(s.weights, xs, attended, per_layer_input).has(
            s,
            seq![b, t, Dim::Fixed(hidden)],
            s.weights,
        ),
{
    let d = seq![b, t, Dim::Fixed(hidden)];
    let w = s.weights;
    lemma_norm_fits(s, layer.post_attention_layernorm, attended, d);
    let a = layer.after_attention(w, xs, attended);
    assert(a.has(s, d, w));
    lemma_norm_fits(s, layer.pre_feedforward_layernorm, a, d);
    let inner = rms_norm(layer.pre_feedforward_layernorm, w, a);
    lemma_feed_forward_fits(s, layer.mlp, inner, b, t, hidden);
    let fed = feed_forward(layer.mlp, inner);
    lemma_norm_fits(s, layer.post_feedforward_layernorm, fed, d);
    let m = layer.after_mlp(w, a);
    assert(m.has(s, d, w));
    let p = layer.after_per_layer_input(w, m, per_layer_input);
    assert(p.has(s, d, w)) by {
        match (
            layer.per_layer_input_gate,
            layer.per_layer_projection,
            layer.post_per_layer_input_norm,
            layer.per_layer_activation,
            per_layer_input,
        ) {
            (Some(gate), Some(projection), Some(norm), Some(activation), Some(input)) => {
                let narrow = seq![b, t, Dim::Fixed(width)];
                assert(with_last(d, Dim::Fixed(width)) =~= narrow);
                assert(with_last(narrow, Dim::Fixed(hidden)) =~= d);
                lemma_project_fits(s, Projection::Own(gate), m, d);
                let gated = m.project(Projection::Own(gate));
                let active = gated.apply(Unary::Activate(activation));
                assert(active.has(s, narrow, w));
                let ple = active.combine(Binary::Mul, input);
                assert(ple.has(s, narrow, w));
                lemma_project_fits(s, Projection::Own(projection), ple, narrow);
                lemma_norm_fits(s, norm, ple.project(Projection::Own(projection)), d);
            },
            _ => {},
        }
    }
    let one = seq![Dim::Fixed(1)];
    let scalar = Term::Param(layer.layer_scalar, w);
    assert(scalar.has(s, one, w));
    assert(broadcast_dims(d, one) =~= d);
    assert(s.broadcasts(d, one));
    assert(p.combine(Binary::BroadcastMul, scalar).has(s, d, w));
}

/// A run of a layer gives hidden states for hidden states.
pub proof fn lemma_run_fits(
    s: Setting,
    layer: DecoderLayer,
    tables: Tables,
    xs: Term,
    per_layer_input: Option<Term>,
    shared: Option<(Term, Term)>,
    mask: Option<Term>,
    offset: usize,
    positions: usize,
    b: Dim,
    t: Dim,
    hidden: usize,
    width: usize,
    source: usize,
)
    requires
        layer_sound(layer, hidden, width),
        tables_fit(s, tables, layer.self_attn.head_dim, positions),
        xs.has(s, seq![b, t, Dim::Fixed(hidden)], s.weights),
        per_layer_input matches Some(p) ==> p.has(s, seq![b, t, Dim::Fixed(width)], s.weights),
        offset + s.size(t) <= positions,
        layer.self_attn.is_kv_shared_layer ==> (shared matches Some(kv) ==> kv_fits(
            s,
            kv,
            b,
            layer.self_attn.num_kv_heads,
            source,
            layer.self_attn.head_dim,
        )),
        !layer.self_attn.is_kv_shared_layer ==> source == layer.self_attn.layer_idx,
        mask_fits(s, mask, b, t, source),
    ensures
        layer.run(s.weights, tables, xs, per_layer_input, shared, mask, offset) matches Ok(l) ==> {
            &&& l.out.has(s, seq![b, t, Dim::Fixed(hidden)], s.weights)
            &&& append_fits(
                s,
                l.action,
                b,
                layer.self_attn.num_kv_heads,
                t,
                layer.self_attn.head_dim,
            )
            &&& l.stored matches Some(kv) ==> kv_fits(
                s,
                kv,
                b,
                layer.self_attn.num_kv_heads,
                layer.self_attn.layer_idx,
                layer.self_attn.head_dim,
            )
        },
{
    reveal(DecoderLayer::run);
    let d = seq![b, t, Dim::Fixed(hidden)];
    lemma_norm_fits(s, layer.input_layernorm, xs, d);
    let normed = rms_norm(layer.input_layernorm, s.weights, xs);
    lemma_attention_fits(
        s,
        layer.self_attn,
        tables,
        normed,
        shared,
        mask,
        offset,
        positions,
        b,
        t,
        hidden,
        source,
    );
    if let Ok(a) = layer.self_attn.attention(s.weights, tables, normed, shared, mask, offset) {
        lemma_behind_fits(s, layer, xs, a.out, per_layer_input, b, t, hidden, width);
    }
}

/// The angle of each position under each frequency.
proof fn lemma_angles_fit(
    s: Setting,
    inv_freq: Term,
    positions: usize,
    half: usize,
    dtype: DType,
)
    requires
        inv_freq.has(s, seq![Dim::Fixed(1), Dim::Fixed(half)], dtype),
        positions <= u32::MAX,
    ensures
        angles(inv_freq, positions, dtype).has(
            s,
            seq![Dim::Fixed(positions), Dim::Fixed(half)],
            dtype,
        ),
{
    let row = seq![Dim::Fixed(positions)];
    let column = seq![Dim::Fixed(positions), Dim::Fixed(1)];
    let count = Term::Arange(positions as u32);
    assert(count.has(s, row, DType::U32));
    let typed = count.apply(Unary::Cast(dtype));
    assert(typed.has(s, row, dtype));
    lemma_count_column(s, positions);
    let t = typed.reshape(column);
    assert(t.has(s, column, dtype));
    let product = t.combine(Binary::Matmul, inv_freq);
    assert(product.dims() =~= seq![Dim::Fixed(positions), Dim::Fixed(half)]);
    assert(s.same(column.take(0), seq![Dim::Fixed(1), Dim::Fixed(half)].take(0)));
    assert(product.fits(s));
}

/// The tables of sliding attention have half a head's width.
proof fn lemma_local_tables_fit(
    s: Setting,
    head_dim: usize,
    theta: F64Bits,
    positions: usize,
)
    requires
        head_dim % 2 == 0,
        positions <= u32::MAX,
    ensures
        ({
            let a = local_angles(s.weights, head_dim, theta, positions);
            tables_fit(
                s,
                Tables { sin: a.apply(Unary::Sin), cos: a.apply(Unary::Cos) },
                head_dim,
                positions,
            )
        }),
{
    let half = head_dim / 2;
    let row = seq![Dim::Fixed(1), Dim::Fixed(half)];
    let freq = Term::InvFreq {
        numerators: even_numerators(head_dim),
        head_dim,
        theta,
        precision: Precision::Double,
    };
    assert(freq.has(s, row, DType::F32));
    let typed = freq.apply(Unary::Cast(s.weights));
    assert(typed.has(s, row, s.weights));
    lemma_angles_fit(s, typed, positions, half, s.weights);
    let a = local_angles(s.weights, head_dim, theta, positions);
    let d = seq![Dim::Fixed(positions), Dim::Fixed(half)];
    assert(a.apply(Unary::Sin).has(s, d, s.weights));
    assert(a.apply(Unary::Cos).has(s, d, s.weights));
}

/// The tables of full attention have half a head's width.
proof fn lemma_global_tables_fit(
    s: Setting,
    head_dim: usize,
    theta: F64Bits,
    rope_angles: usize,
    positions: usize,
)
    requires
        positions <= u32::MAX,
    ensures
        ({
            let a = global_angles(head_dim, theta, rope_angles, positions);
            tables_fit(
                s,
                Tables {
                    sin: a.apply(Unary::Sin).apply(Unary::Cast(s.weights)),
                    cos: a.apply(Unary::Cos).apply(Unary::Cast(s.weights)),
                },
                head_dim,
                positions,
            )
        }),
{
    let half = head_dim / 2;
    let row = seq![Dim::Fixed(1), Dim::Fixed(half)];
    let freq = Term::InvFreq {
        numerators: padded_numerators(head_dim, rope_angles),
        head_dim,
        theta,
        precision: Precision::Single,
    };
    assert(freq.has(s, row, DType::F32));
    lemma_angles_fit(s, freq, positions, half, DType::F32);
    let a = global_angles(head_dim, theta, rope_angles, positions);
    let d = seq![Dim::Fixed(positions), Dim::Fixed(half)];
    let sin = a.apply(Unary::Sin);
    let cos = a.apply(Unary::Cos);
    assert(sin.has(s, d, DType::F32));
    assert(cos.has(s, d, DType::F32));
    assert(sin.apply(Unary::Cast(s.weights)).has(s, d, s.weights));
    assert(cos.apply(Unary::Cast(s.weights)).has(s, d, s.weights));
}

/// A mask covers the tokens at hand and those before them.
pub proof fn lemma_mask_fits(
    s: Setting,
    b: usize,
    tgt_len: usize,
    offset: usize,
    window: Option<usize>,
)
    requires
        tgt_len * tgt_len <= usize::MAX,
        tgt_len + offset <= usize::MAX,
    ensures
        attention_mask(b, tgt_len, offset, window, s.weights).has(
            s,
            seq![
                Dim::Fixed(b),
                Dim::Fixed(1),
                Dim::Fixed(tgt_len),
                Dim::Fixed((tgt_len + offset) as usize),
            ],
            s.weights,
        ),
{
    let n = Dim::Fixed(tgt_len);
    let all = Dim::Fixed((tgt_len + offset) as usize);
    let square = Term::Mask {
        size: tgt_len,
        blocked: hidden_rows(tgt_len, window),
    };
    assert(tgt_len * tgt_len >= 0) by (nonlinear_arith);
    assert(square.has(s, seq![n, n], DType::F32));
    let wide = if offset > 0 {
        Term::Zeros(seq![n, Dim::Fixed(offset)]).combine(Binary::CatLast, square)
    } else {
        square
    };
    assert(wide.has(s, seq![n, all], DType::F32)) by {
        if offset > 0 {
            let zeros = Term::Zeros(seq![n, Dim::Fixed(offset)]);
            assert(zeros.has(s, seq![n, Dim::Fixed(offset)], DType::F32));
            assert(wide.dims() =~= seq![n, all]);
            assert(s.same(seq![n, Dim::Fixed(offset)].drop_last(), seq![n, n].drop_last()));
        }
    }
    let d = seq![Dim::Fixed(b), Dim::Fixed(1), n, all];
    assert(s.broadcasts(seq![n, all], d));
    let expanded = Term::Expand(Box::new(wide), d);
    assert(expanded.has(s, d, DType::F32));
    assert(expanded.apply(Unary::Cast(s.weights)).has(s, d, s.weights));
}

/// A layer's part of the layers' own inputs.
pub proof fn lemma_own_input_fits(
    s: Setting,
    per_layer: Term,
    b: Dim,
    t: Dim,
    layers: usize,
    width: usize,
    i: usize,
)
    requires
        per_layer.has(s, seq![b, t, Dim::Fixed(layers), Dim::Fixed(width)], s.weights),
        i < layers,
    ensures
        own_input(Some(per_layer), i) matches Some(p) && p.has(
            s,
            seq![b, t, Dim::Fixed(width)],
            s.weights,
        ),
{
    let one = seq![b, t, Dim::Fixed(1), Dim::Fixed(width)];
    let row = per_layer.apply(Unary::Narrow { axis: 2, start: i, len: Dim::Fixed(1) });
    assert(row.dims() =~= one);
    assert(row.has(s, one, s.weights));
    let p = row.apply(Unary::Squeeze(2));
    assert(p.dims() =~= seq![b, t, Dim::Fixed(width)]);
    assert(p.fits(s));
}

/// Whether what a pass starts from fits a configuration: embeddings for `t` tokens in
/// each of `b` rows, at positions for which there are angles, with masks that cover
/// what the caches hand back.
pub open spec fn inputs_fit(
    s: Setting,
    cfg: Gemma4TextConfig,
    inputs: Inputs,
    b: Dim,
    t: Dim,
) -> bool {
    &&& inputs.weights == s.weights
    &&& inputs.xs.has(s, seq![b, t, Dim::Fixed(cfg.hidden_size)], s.weights)
    &&& inputs.per_layer matches Some(p) ==> p.has(
        s,
        seq![
            b,
            t,
            Dim::Fixed(cfg.num_hidden_layers),
            Dim::Fixed(cfg.hidden_size_per_layer_input),
        ],
        s.weights,
    )
    &&& inputs.offset + s.size(t) <= cfg.max_position_embeddings
    &&& forall|l: usize| #[trigger] mask_fits(s, inputs.full_mask, b, t, l)
    &&& forall|l: usize| #[trigger] mask_fits(s, inputs.sliding_mask, b, t, l)
}

/// Whether the keys and values at hand, where there are some, fit a kind of attention.
pub open spec fn at_hand_fits(
    s: Setting,
    cfg: Gemma4TextConfig,
    kv: Option<(Term, Term)>,
    b: Dim,
    sliding: bool,
) -> bool {
    kv matches Some(pair) ==> exists|source: usize| #[trigger]
        kv_fits(s, pair, b, cfg.kind_kv_heads(sliding), source, cfg.kind_head_dim(sliding))
}

/// The angle tables of a layer of a sound configuration's decoder fit its heads.
pub proof fn lemma_layer_tables_fit(
    s: Setting,
    model: TextModel,
    cfg: Gemma4TextConfig,
    i: int,
)
    requires
        model.belongs_to(cfg, s.weights),
        cfg.sound(),
        0 <= i < cfg.num_hidden_layers,
    ensures
        tables_fit(
            s,
            model.layers@[i].self_attn.tables(model.rotary_emb_global, model.rotary_emb_local),
            model.layers@[i].self_attn.head_dim,
            cfg.max_position_embeddings,
        ),
{
    lemma_layer_sound(model, cfg, s.weights, i);
    lemma_local_tables_fit(
        s,
        cfg.head_dim,
        cfg.rope_local_base_freq,
        cfg.max_position_embeddings,
    );
    lemma_global_tables_fit(
        s,
        cfg.global_head_dim,
        cfg.rope_theta,
        cfg.rope_angles,
        cfg.max_position_embeddings,
    );
}

/// A layer of a sound configuration's decoder gives hidden states for hidden states,
/// puts keys and values of the positions at hand into its cache, and stores some that
/// fit others of its kind.
pub proof fn lemma_step_fits(
    s: Setting,
    model: TextModel,
    cfg: Gemma4TextConfig,
    inputs: Inputs,
    p: Progress,
    b: Dim,
    t: Dim,
    i: int,
)
    requires
        model.belongs_to(cfg, s.weights),
        cfg.sound(),
        inputs_fit(s, cfg, inputs, b, t),
        0 <= i < cfg.num_hidden_layers,
        p.xs.has(s, seq![b, t, Dim::Fixed(cfg.hidden_size)], s.weights),
        at_hand_fits(s, cfg, p.kv(cfg.sliding@[i]), b, cfg.sliding@[i]),
    ensures
        model.step(inputs, p, i) matches Ok(l) ==> {
            &&& l.out.has(s, seq![b, t, Dim::Fixed(cfg.hidden_size)], s.weights)
            &&& append_fits(
                s,
                l.action,
                b,
                cfg.kind_kv_heads(cfg.sliding@[i]),
                t,
                cfg.kind_head_dim(cfg.sliding@[i]),
            )
            &&& at_hand_fits(s, cfg, l.stored, b, cfg.sliding@[i])
        },
{
    lemma_layer_of(model, cfg, s.weights, i);
    lemma_layer_sound(model, cfg, s.weights, i);
    let layer = model.layers@[i];
    let sliding = cfg.sliding@[i];
    let tables = layer.self_attn.tables(model.rotary_emb_global, model.rotary_emb_local);
    lemma_layer_tables_fit(s, model, cfg, i);
    if let Some(per_layer) = inputs.per_layer {
        lemma_own_input_fits(
            s,
            per_layer,
            b,
            t,
            cfg.num_hidden_layers,
            cfg.hidden_size_per_layer_input,
            i as usize,
        );
    }
    let shared = p.kv(sliding);
    let mask = if sliding {
        inputs.sliding_mask
    } else {
        inputs.full_mask
    };
    let source = if layer.self_attn.is_kv_shared_layer && shared is Some {
        choose|source: usize| #[trigger]
            kv_fits(
                s,
                shared->0,
                b,
                cfg.kind_kv_heads(sliding),
                source,
                cfg.kind_head_dim(sliding),
            )
    } else {
        layer.self_attn.layer_idx
    };
    assert(mask_fits(s, mask, b, t, source));
    lemma_run_fits(
        s,
        layer,
        tables,
        p.xs,
        own_input(inputs.per_layer, i as usize),
        shared,
        mask,
        inputs.offset,
        cfg.max_position_embeddings,
        b,
        t,
        cfg.hidden_size,
        cfg.hidden_size_per_layer_input,
        source,
    );
    if let Ok(l) = model.step(inputs, p, i) {
        if let Some(kv) = l.stored {
            assert(kv_fits(
                s,
                kv,
                b,
                cfg.kind_kv_heads(sliding),
                layer.self_attn.layer_idx,
                cfg.kind_head_dim(sliding),
            ));
        }
    }
}

/// Behind each layer of a sound configuration's decoder there are hidden states.
pub proof fn lemma_pass_fits(
    s: Setting,
    model: TextModel,
    cfg: Gemma4TextConfig,
    inputs: Inputs,
    b: Dim,
    t: Dim,
    n: nat,
)
    requires
        model.belongs_to(cfg, s.weights),
        cfg.sound(),
        inputs_fit(s, cfg, inputs, b, t),
        n <= cfg.num_hidden_layers,
        model.pass(inputs, n) is Ok,
    ensures
        ({
            let p = model.pass(inputs, n)->Ok_0;
            &&& p.xs.has(s, seq![b, t, Dim::Fixed(cfg.hidden_size)], s.weights)
            &&& at_hand_fits(s, cfg, p.sliding_kv, b, true)
            &&& at_hand_fits(s, cfg, p.full_kv, b, false)
        }),
    decreases n,
{
    if n > 0 {
        let i = n - 1;
        lemma_pass_fits(s, model, cfg, inputs, b, t, i as nat);
        lemma_layer_sound(model, cfg, s.weights, i);
        let p = model.pass(inputs, i as nat)->Ok_0;
        lemma_step_fits(s, model, cfg, inputs, p, b, t, i);
    }
}

/// How many positions the keys that were put into a cache cover.
pub open spec fn positions(s: Setting, held: Seq<(Term, Term)>) -> nat
    decreases held.len(),
{
    if held.len() == 0 {
        0
    } else {
        positions(s, held.drop_last()) + s.size(held.last().0.dims()[2])
    }
}

/// A pass adds the positions at hand, and no others, to the cache of each layer with
/// keys and values of its own. So a cache that covered all positions before those at
/// hand covers these too.
pub proof fn law_caches_keep_up_with_positions(
    s: Setting,
    model: TextModel,
    cfg: Gemma4TextConfig,
    inputs: Inputs,
    b: Dim,
    t: Dim,
    before: Seq<Term>,
    n: nat,
    i: usize,
)
    requires
        model.belongs_to(cfg, s.weights),
        cfg.sound(),
        inputs_fit(s, cfg, inputs, b, t),
        i < n <= cfg.num_hidden_layers,
        !cfg.shares_kv(i as int),
        model.pass(inputs, n) is Ok,
    ensures
        positions(s, contents(before + model.pass(inputs, n)->Ok_0.actions, i)) == s.size(t)
            + if model.layers@[i as int].self_attn.kv_cache.empty {
            0
        } else {
            positions(s, contents(before, i))
        },
{
    law_pass_fills_caches(model, cfg, s.weights, inputs, before, n, i);
    lemma_pass_prefix(model, inputs, i as nat, n);
    lemma_pass_prefix(model, inputs, (i + 1) as nat, n);
    lemma_pass_fits(s, model, cfg, inputs, b, t, i as nat);
    lemma_layer_of(model, cfg, s.weights, i as int);
    lemma_pass_rank(model, inputs, i as nat);
    lemma_layer_sound(model, cfg, s.weights, i as int);
    let p = model.pass(inputs, i as nat)->Ok_0;
    lemma_step(model, inputs, p, i as int);
    lemma_step_fits(s, model, cfg, inputs, p, b, t, i as int);
    let action = model.step(inputs, p, i as int)->Ok_0.action->0;
    match action {
        Term::Append { k, v, .. } => {
            let held = contents(before, i);
            assert(held.push((*k, *v)).drop_last() =~= held);
            assert(seq![(*k, *v)].drop_last() =~= Seq::<(Term, Term)>::empty());
            assert(positions(s, seq![(*k, *v)]) == s.size(t)) by {
                reveal_with_fuel(positions, 2);
            }
        },
        _ => {},
    }
}

/// The logits have one row of scores, one per entry of the vocabulary.
proof fn lemma_logits_fit(
    s: Setting,
    model: TextModel,
    cfg: Gemma4TextConfig,
    xs: Term,
    b: Dim,
    seq_len: usize,
)
    requires
        model.belongs_to(cfg, s.weights),
        xs.has(s, seq![b, Dim::Fixed(seq_len), Dim::Fixed(cfg.hidden_size)], s.weights),
        seq_len > 0,
    ensures
        model.logits(s.weights, xs, seq_len) matches Ok(logits) && logits.has(
            s,
            seq![b, Dim::Fixed(1), Dim::Fixed(cfg.vocab_size)],
            s.weights,
        ),
{
    let one = seq![b, Dim::Fixed(1), Dim::Fixed(cfg.hidden_size)];
    let d = seq![b, Dim::Fixed(1), Dim::Fixed(cfg.vocab_size)];
    let last = xs.apply(
        Unary::Narrow { axis: 1, start: (seq_len - 1) as usize, len: Dim::Fixed(1) },
    );
    assert(last.dims() =~= one);
    assert(last.has(s, one, s.weights));
    lemma_norm_fits(s, model.norm, last, one);
    let normed = rms_norm(model.norm, s.weights, last);
    lemma_project_fits(s, model.lm_head, normed, one);
    assert(with_last(one, Dim::Fixed(cfg.vocab_size)) =~= d);
    let plain = normed.project(model.lm_head);
    assert(plain.has(s, d, s.weights));
    if let Some(sc) = model.final_logit_softcapping {
        let scaled = plain.apply(Unary::DivScalar(Scalar::Given(sc)));
        assert(scaled.has(s, d, s.weights));
        let capped = scaled.apply(Unary::Tanh);
        assert(capped.has(s, d, s.weights));
        assert(capped.apply(Unary::MulScalar(Scalar::Given(sc))).has(s, d, s.weights));
    }
}

/// The layers' own inputs have one vector per token and layer.
proof fn lemma_per_layer_inputs_fit(
    s: Setting,
    model: TextModel,
    cfg: Gemma4TextConfig,
    embeds: Term,
    token_inputs: Option<Term>,
    b: Dim,
    t: Dim,
)
    requires
        model.belongs_to(cfg, s.weights),
        cfg.fits(),
        embeds.has(s, seq![b, t, Dim::Fixed(cfg.hidden_size)], s.weights),
        token_inputs matches Some(x) ==> x.has(
            s,
            seq![
                b,
                t,
                Dim::Fixed(cfg.num_hidden_layers),
                Dim::Fixed(cfg.hidden_size_per_layer_input),
            ],
            s.weights,
        ),
    ensures
        model.per_layer_inputs(s.weights, embeds, token_inputs) matches Ok(r) && (r matches Some(
            x,
        ) ==> x.has(
            s,
            seq![
                b,
                t,
                Dim::Fixed(cfg.num_hidden_layers),
                Dim::Fixed(cfg.hidden_size_per_layer_input),
            ],
            s.weights,
        )),
{
    let n = cfg.num_hidden_layers;
    let width = cfg.hidden_size_per_layer_input;
    let four = seq![b, t, Dim::Fixed(n), Dim::Fixed(width)];
    assert(cleared_layers(model.layers@).len() == model.layers@.len());
    assert(layers_of(cfg).len() == n);
    if width > 0 {
        let projection = model.per_layer_model_projection->0;
        let norm = model.per_layer_projection_norm->0;
        let packed = (n * width) as usize;
        let three = seq![b, t, Dim::Fixed(packed)];
        let d = seq![b, t, Dim::Fixed(cfg.hidden_size)];
        assert(with_last(d, Dim::Fixed(packed)) =~= three);
        lemma_project_fits(s, Projection::Own(projection), embeds, d);
        let flat = embeds.project(Projection::Own(projection));
        let scaled = flat.apply(Unary::MulScalar(Scalar::RecipSqrt(model.hidden_size)));
        assert(scaled.has(s, three, s.weights));
        lemma_count_merged(s, b, t, n, width);
        let shaped = scaled.reshape(four);
        assert(shaped.has(s, four, s.weights));
        lemma_norm_fits(s, norm, shaped, four);
        let projected = rms_norm(norm, s.weights, shaped);
        if let Some(x) = token_inputs {
            let sum = projected.combine(Binary::Add, x);
            assert(sum.has(s, four, s.weights));
            assert(sum.apply(Unary::MulScalar(Scalar::RecipSqrt(2))).has(s, four, s.weights));
        }
    }
}

/// Whether the caches hand back the positions before those at hand and those at hand,
/// where more than one is at hand.
pub open spec fn caches_complete(s: Setting, seq_len: usize, offset: usize) -> bool {
    seq_len > 1 ==> forall|l: usize| #[trigger] (s.cached)(l) == seq_len + offset
}

/// Whether a sound configuration's decoder is handed embeddings, and token inputs where
/// there are some, of the extents that it needs, at positions for which there are angles,
/// with caches that hand back all positions.
pub open spec fn runs_well(
    s: Setting,
    model: TextModel,
    cfg: Gemma4TextConfig,
    xs: Term,
    token_inputs: Option<Term>,
    offset: usize,
    batch_size: usize,
    seq_len: usize,
) -> bool {
    let (b, t) = (Dim::Fixed(batch_size), Dim::Fixed(seq_len));
    &&& model.belongs_to(cfg, s.weights)
    &&& cfg.sound()
    &&& xs.has(s, seq![b, t, Dim::Fixed(cfg.hidden_size)], s.weights)
    &&& token_inputs matches Some(x) ==> x.has(
        s,
        seq![
            b,
            t,
            Dim::Fixed(cfg.num_hidden_layers),
            Dim::Fixed(cfg.hidden_size_per_layer_input),
        ],
        s.weights,
    )
    &&& 0 < seq_len
    &&& offset + seq_len <= cfg.max_position_embeddings
    &&& TextModel::masks_fit(seq_len, offset)
    &&& caches_complete(s, seq_len, offset)
}

/// What a pass that runs well starts from fits, and it comes through all layers.
pub proof fn lemma_inputs_fit(
    s: Setting,
    model: TextModel,
    cfg: Gemma4TextConfig,
    xs: Term,
    token_inputs: Option<Term>,
    offset: usize,
    batch_size: usize,
    seq_len: usize,
)
    requires
        runs_well(s, model, cfg, xs, token_inputs, offset, batch_size, seq_len),
    ensures
        model.layers@.len() == cfg.num_hidden_layers,
        model.per_layer_inputs(s.weights, xs, token_inputs) is Ok,
        ({
            let per_layer = model.per_layer_inputs(s.weights, xs, token_inputs)->Ok_0;
            let inputs = model.inputs(s.weights, xs, per_layer, offset, batch_size, seq_len);
            &&& inputs_fit(s, cfg, inputs, Dim::Fixed(batch_size), Dim::Fixed(seq_len))
            &&& model.pass(inputs, cfg.num_hidden_layers as nat) is Ok
        }),
{
    let b = Dim::Fixed(batch_size);
    let t = Dim::Fixed(seq_len);
    let n = cfg.num_hidden_layers as nat;
    lemma_per_layer_inputs_fit(s, model, cfg, xs, token_inputs, b, t);
    let per_layer = model.per_layer_inputs(s.weights, xs, token_inputs)->Ok_0;
    let inputs = model.inputs(s.weights, xs, per_layer, offset, batch_size, seq_len);
    if seq_len > 1 {
        lemma_mask_fits(s, batch_size, seq_len, offset, None);
        lemma_mask_fits(s, batch_size, seq_len, offset, Some(model.sliding_window));
        assert forall|l: usize| #[trigger] mask_fits(s, inputs.full_mask, b, t, l) by {
            assert((s.cached)(l) == seq_len + offset);
        }
        assert forall|l: usize| #[trigger] mask_fits(s, inputs.sliding_mask, b, t, l) by {
            assert((s.cached)(l) == seq_len + offset);
        }
    }
    assert(cleared_layers(model.layers@).len() == model.layers@.len());
    assert(layers_of(cfg).len() == n);
    assert forall|i: int| 0 <= i < n implies #[trigger] model.past_angles(inputs, i) is None by {
        lemma_past_angles(model, cfg, s.weights, inputs, seq_len, i);
    }
    law_pass_comes_through(model, cfg, s.weights, inputs, n);
}

/// The decoder of a sound configuration makes logits of embeddings, one score per entry
/// of the vocabulary for each row, and every operation on the way finds operands of
/// fitting extents and element types.
pub proof fn law_embeddings_become_logits(
    s: Setting,
    model: TextModel,
    cfg: Gemma4TextConfig,
    xs: Term,
    token_inputs: Option<Term>,
    offset: usize,
    batch_size: usize,
    seq_len: usize,
)
    requires
        runs_well(s, model, cfg, xs, token_inputs, offset, batch_size, seq_len),
    ensures
        model.outcome(
            s.weights,
            xs,
            token_inputs,
            offset,
            batch_size,
            seq_len,
        ).result matches Ok(logits) && logits.has(
            s,
            seq![Dim::Fixed(batch_size), Dim::Fixed(1), Dim::Fixed(cfg.vocab_size)],
            s.weights,
        ),
{
    lemma_inputs_fit(s, model, cfg, xs, token_inputs, offset, batch_size, seq_len);
    let b = Dim::Fixed(batch_size);
    let t = Dim::Fixed(seq_len);
    let n = cfg.num_hidden_layers as nat;
    let per_layer = model.per_layer_inputs(s.weights, xs, token_inputs)->Ok_0;
    let inputs = model.inputs(s.weights, xs, per_layer, offset, batch_size, seq_len);
    lemma_pass_fits(s, model, cfg, inputs, b, t, n);
    lemma_logits_fit(s, model, cfg, model.pass(inputs, n)->Ok_0.xs, b, seq_len);
}

/// In a pass of a sound configuration's decoder, every operation on the tape, and not
/// only those that lead to the logits, finds operands with fitting extents.
pub proof fn law_everything_computed_fits(
    s: Setting,
    model: TextModel,
    cfg: Gemma4TextConfig,
    xs: Term,
    token_inputs: Option<Term>,
    offset: usize,
    batch_size: usize,
    seq_len: usize,
    x: Term,
)
    requires
        runs_well(s, model, cfg, xs, token_inputs, offset, batch_size, seq_len),
        model.outcome(
            s.weights,
            xs,
            token_inputs,
            offset,
            batch_size,
            seq_len,
        ).computed.contains(x),
    ensures
        x.fits(s),
{
    lemma_inputs_fit(s, model, cfg, xs, token_inputs, offset, batch_size, seq_len);
    law_embeddings_become_logits(s, model, cfg, xs, token_inputs, offset, batch_size, seq_len);
    let b = Dim::Fixed(batch_size);
    let t = Dim::Fixed(seq_len);
    let n = cfg.num_hidden_layers as nat;
    let per_layer = model.per_layer_inputs(s.weights, xs, token_inputs)->Ok_0;
    let inputs = model.inputs(s.weights, xs, per_layer, offset, batch_size, seq_len);
    let logits = model.logits(s.weights, model.pass(inputs, n)->Ok_0.xs, seq_len)->Ok_0;
    if optional_parts(inputs.full_mask).contains(x) {
        lemma_mask_fits(s, batch_size, seq_len, offset, None);
        lemma_parts_fit(s, x, inputs.full_mask->0);
    } else if optional_parts(inputs.sliding_mask).contains(x) {
        lemma_mask_fits(s, batch_size, seq_len, offset, Some(model.sliding_window));
        lemma_parts_fit(s, x, inputs.sliding_mask->0);
    } else if optional_parts(per_layer).contains(x) {
        lemma_parts_fit(s, x, per_layer->0);
    } else if model.computed(inputs, n).contains(x) {
        lemma_computed_fits(s, model, cfg, inputs, b, t, n, x);
    } else {
        lemma_parts_fit(s, x, logits);
    }
}

/// What is computed in the layers of a sound configuration's decoder.
proof fn lemma_computed_fits(
    s: Setting,
    model: TextModel,
    cfg: Gemma4TextConfig,
    inputs: Inputs,
    b: Dim,
    t: Dim,
    n: nat,
    x: Term,
)
    requires
        model.belongs_to(cfg, s.weights),
        cfg.sound(),
        inputs_fit(s, cfg, inputs, b, t),
        n <= cfg.num_hidden_layers,
        model.pass(inputs, n) is Ok,
        model.computed(inputs, n).contains(x),
    ensures
        x.fits(s),
    decreases n,
{
    if n > 0 {
        let i = n - 1;
        if model.computed(inputs, i as nat).contains(x) {
            lemma_computed_fits(s, model, cfg, inputs, b, t, i as nat, x);
        } else if optional_parts(own_input(inputs.per_layer, i as usize)).contains(x) {
            lemma_own_input_fits(
                s,
                inputs.per_layer->0,
                b,
                t,
                cfg.num_hidden_layers,
                cfg.hidden_size_per_layer_input,
                i as usize,
            );
            lemma_parts_fit(s, x, own_input(inputs.per_layer, i as usize)->0);
        } else {
            let p = model.pass(inputs, i as nat)->Ok_0;
            lemma_pass_fits(s, model, cfg, inputs, b, t, i as nat);
            lemma_step_fits(s, model, cfg, inputs, p, b, t, i);
            lemma_parts_fit(s, x, model.step(inputs, p, i)->Ok_0.out);
        }
    }
}

/// Every operation that a decoder of a sound configuration records for its angle
/// tables finds operands with fitting extents.
pub proof fn law_tables_fit(s: Setting, model: TextModel, cfg: Gemma4TextConfig, x: Term)
    requires
        model.belongs_to(cfg, s.weights),
        cfg.sound(),
        model.table_parts().contains(x),
    ensures
        x.fits(s),
{
    lemma_local_tables_fit(s, cfg.head_dim, cfg.rope_local_base_freq, cfg.max_position_embeddings);
    lemma_global_tables_fit(
        s,
        cfg.global_head_dim,
        cfg.rope_theta,
        cfg.rope_angles,
        cfg.max_position_embeddings,
    );
    if parts(model.rotary_emb_global.sin@).contains(x) {
        lemma_parts_fit(s, x, model.rotary_emb_global.sin@);
    } else if parts(model.rotary_emb_global.cos@).contains(x) {
        lemma_parts_fit(s, x, model.rotary_emb_global.cos@);
    } else if parts(model.rotary_emb_local.sin@).contains(x) {
        lemma_parts_fit(s, x, model.rotary_emb_local.sin@);
    } else {
        lemma_parts_fit(s, x, model.rotary_emb_local.cos@);
    }
}

/// Tokens in rows, at positions for which there are angles, run well.
pub proof fn lemma_tokens_run_well(
    s: Setting,
    model: TextModel,
    cfg: Gemma4TextConfig,
    offset: usize,
    batch_size: usize,
    seq_len: usize,
)
    requires
        model.belongs_to(cfg, s.weights),
        cfg.sound(),
        0 < seq_len,
        offset + seq_len <= cfg.max_position_embeddings,
        TextModel::masks_fit(seq_len, offset),
        caches_complete(s, seq_len, offset),
    ensures
        ({
            let ids = Term::TokenIds(seq![Dim::Fixed(batch_size), Dim::Fixed(seq_len)]);
            let xs = model.embedded(s.weights, ids);
            let token_inputs = model.token_inputs(s.weights, ids)->Ok_0;
            runs_well(s, model, cfg, xs, token_inputs, offset, batch_size, seq_len)
        }),
{
    let b = Dim::Fixed(batch_size);
    let t = Dim::Fixed(seq_len);
    let ids = Term::TokenIds(seq![b, t]);
    assert(ids.has(s, seq![b, t], DType::U32));
    let found = Term::Lookup(model.embed_tokens, s.weights, Box::new(ids));
    let d = seq![b, t, Dim::Fixed(cfg.hidden_size)];
    assert(found.dims() =~= d);
    assert(found.has(s, d, s.weights));
    let xs = model.embedded(s.weights, ids);
    assert(xs.has(s, d, s.weights));
    assert(cleared_layers(model.layers@).len() == model.layers@.len());
    assert(layers_of(cfg).len() == cfg.num_hidden_layers);
    if let Some(embedding) = model.per_layer_embed_tokens {
        let n = cfg.num_hidden_layers;
        let width = cfg.hidden_size_per_layer_input;
        let three = seq![b, t, Dim::Fixed((n * width) as usize)];
        let looked = Term::Lookup(embedding, s.weights, Box::new(ids));
        assert(looked.dims() =~= three);
        assert(looked.has(s, three, s.weights));
        let scaled = looked.apply(Unary::MulScalar(Scalar::Sqrt(model.per_layer_input_dim)));
        assert(scaled.has(s, three, s.weights));
        lemma_count_merged(s, b, t, n, width);
        let four = seq![b, t, Dim::Fixed(n), Dim::Fixed(width)];
        assert(scaled.reshape(four).has(s, four, s.weights));
    }
}

/// The decoder of a sound configuration makes logits of tokens, one score per entry of
/// the vocabulary for each row.
pub proof fn law_tokens_become_logits(
    s: Setting,
    model: TextModel,
    cfg: Gemma4TextConfig,
    offset: usize,
    batch_size: usize,
    seq_len: usize,
)
    requires
        model.belongs_to(cfg, s.weights),
        cfg.sound(),
        0 < seq_len,
        offset + seq_len <= cfg.max_position_embeddings,
        TextModel::masks_fit(seq_len, offset),
        caches_complete(s, seq_len, offset),
    ensures
        ({
            let ids = Term::TokenIds(seq![Dim::Fixed(batch_size), Dim::Fixed(seq_len)]);
            model.token_outcome(s.weights, ids, offset).result matches Ok(logits) && logits.has(
                s,
                seq![Dim::Fixed(batch_size), Dim::Fixed(1), Dim::Fixed(cfg.vocab_size)],
                s.weights,
            )
        }),
{
    lemma_tokens_run_well(s, model, cfg, offset, batch_size, seq_len);
    let ids = Term::TokenIds(seq![Dim::Fixed(batch_size), Dim::Fixed(seq_len)]);
    let xs = model.embedded(s.weights, ids);
    let token_inputs = model.token_inputs(s.weights, ids)->Ok_0;
    law_embeddings_become_logits(s, model, cfg, xs, token_inputs, offset, batch_size, seq_len);
}

/// In a pass over tokens, too, every operation on the tape finds operands with fitting
/// extents.
pub proof fn law_everything_computed_of_tokens_fits(
    s: Setting,
    model: TextModel,
    cfg: Gemma4TextConfig,
    offset: usize,
    batch_size: usize,
    seq_len: usize,
    x: Term,
)
    requires
        model.belongs_to(cfg, s.weights),
        cfg.sound(),
        0 < seq_len,
        offset + seq_len <= cfg.max_position_embeddings,
        TextModel::masks_fit(seq_len, offset),
        caches_complete(s, seq_len, offset),
        model.token_outcome(
            s.weights,
            Term::TokenIds(seq![Dim::Fixed(batch_size), Dim::Fixed(seq_len)]),
            offset,
        ).computed.contains(x),
    ensures
        x.fits(s),
{
    lemma_tokens_run_well(s, model, cfg, offset, batch_size, seq_len);
    let ids = Term::TokenIds(seq![Dim::Fixed(batch_size), Dim::Fixed(seq_len)]);
    let xs = model.embedded(s.weights, ids);
    let token_inputs = model.token_inputs(s.weights, ids)->Ok_0;
    if parts(xs).contains(x) {
        lemma_parts_fit(s, x, xs);
    } else if optional_parts(token_inputs).contains(x) {
        lemma_parts_fit(s, x, token_inputs->0);
    } else {
        law_everything_computed_fits(
            s,
            model,
            cfg,
            xs,
            token_inputs,
            offset,
            batch_size,
            seq_len,
            x,
        );
    }
}

} // verus!
