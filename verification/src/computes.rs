//! What a decoder computes, in numbers.

use crate::attention::{split_heads, Attended, Attention};
use crate::config::Gemma4TextConfig;
use crate::fitting::{
    attention_sound, kv_fits, lemma_attend_fits, lemma_attention_fits, lemma_heads_fit,
    lemma_norm_fits, lemma_own_kv_fits,
    lemma_feed_forward_fits, lemma_turned_fits, mask_fits,
};
use crate::formulas::{
    lemma_angle_numbers, lemma_attend_numbers, lemma_fed_numbers, lemma_fused_numbers,
    lemma_heads_numbers, lemma_merge_numbers, lemma_norm3, lemma_norm4, lemma_plain_norm4,
    lemma_project_numbers,
    lemma_turned_numbers, lemma_within3,
};
use crate::layer::{DecoderLayer, Layered};
use crate::mask::blocks;
use crate::mlp::feed_forward;
use crate::model::{layers_of, TextModel};
use crate::norm::{internal_dtype, rms_norm, RmsNorm};
use crate::numbers::{
    aligned, entries, entry, lemma_aligned, lemma_applied, lemma_combined, total,
    Numbers,
};
use crate::refusal::Refusal;
use crate::rotary::{global_angles, local_angles, turned};
use crate::sharing::lemma_layer_of;
use crate::sound::{layer_sound, lemma_layer_sound, lemma_layer_tables_fit};
use crate::term::{
    broadcast_dims, Binary, Block, DType, Dim, Linear, Module, Param, ParamName, Precision,
    Projection, Term, Unary, VarPath,
};
use vstd::prelude::*;

verus! {

/// The angles by which heads turn: the pair `c` of the head of a token at position `p` turns
/// by `p / theta^(2c / head_dim)`, where `theta` is the local base in sliding layers and the
/// other in full layers, of which only the leading pairs turn.
pub proof fn law_tables_hold_the_angles(
    m: Numbers,
    model: TextModel,
    cfg: Gemma4TextConfig,
    i: int,
    p: int,
    c: int,
)
    requires
        model.belongs_to(cfg, m.s.weights),
        cfg.sound(),
        0 <= i < cfg.num_hidden_layers,
        0 <= p < cfg.max_position_embeddings,
        0 <= c,
        cfg.sliding@[i] ==> c < cfg.head_dim / 2,
        !cfg.sliding@[i] ==> c < cfg.global_head_dim / 2,
    ensures
        ({
            let tables = model.layers@[i].self_attn.tables(
                model.rotary_emb_global,
                model.rotary_emb_local,
            );
            if cfg.sliding@[i] {
                let angle = (m.cast)(m.s.weights, p as real) * (m.cast)(
                    m.s.weights,
                    (1 as real) / (m.pow)(
                        Precision::Double,
                        (m.given)(cfg.rope_local_base_freq),
                        ((2 * c) as real) / (cfg.head_dim as real),
                    ),
                );
                &&& m.of2(tables.cos, p, c) == (m.cos)(angle)
                &&& m.of2(tables.sin, p, c) == (m.sin)(angle)
            } else {
                let angle = (m.cast)(DType::F32, p as real) * if c < cfg.rope_angles {
                    (1 as real) / (m.pow)(
                        Precision::Single,
                        (m.given)(cfg.rope_theta),
                        ((2 * c) as real) / (cfg.global_head_dim as real),
                    )
                } else {
                    0 as real
                };
                &&& m.of2(tables.cos, p, c) == (m.cast)(m.s.weights, (m.cos)(angle))
                &&& m.of2(tables.sin, p, c) == (m.cast)(m.s.weights, (m.sin)(angle))
            }
        }),
{
    let w = m.s.weights;
    lemma_layer_sound(model, cfg, w, i);
    let at = seq![p, c];
    let positions = cfg.max_position_embeddings;
    if cfg.sliding@[i] {
        let freq = Term::InvFreq {
            numerators: crate::rotary::even_numerators(cfg.head_dim),
            head_dim: cfg.head_dim,
            theta: cfg.rope_local_base_freq,
            precision: Precision::Double,
        };
        let local = local_angles(w, cfg.head_dim, cfg.rope_local_base_freq, positions);
        lemma_angle_numbers(m, freq.apply(Unary::Cast(w)), positions, w, p, c);
        lemma_applied(m, freq, Unary::Cast(w), seq![0, c]);
        assert(m.of2(freq, 0, c) == (1 as real) / (m.pow)(
            Precision::Double,
            (m.given)(cfg.rope_local_base_freq),
            ((2 * c) as real) / (cfg.head_dim as real),
        )) by {
            reveal(entries);
            assert(2 * c == (2 * c) as usize);
        }
        lemma_applied(m, local, Unary::Cos, at);
        lemma_applied(m, local, Unary::Sin, at);
    } else {
        let freq = Term::InvFreq {
            numerators: crate::rotary::padded_numerators(cfg.global_head_dim, cfg.rope_angles),
            head_dim: cfg.global_head_dim,
            theta: cfg.rope_theta,
            precision: Precision::Single,
        };
        let global = global_angles(cfg.global_head_dim, cfg.rope_theta, cfg.rope_angles, positions);
        lemma_angle_numbers(m, freq, positions, DType::F32, p, c);
        assert(m.of2(freq, 0, c) == if c < cfg.rope_angles {
            (1 as real) / (m.pow)(
                Precision::Single,
                (m.given)(cfg.rope_theta),
                ((2 * c) as real) / (cfg.global_head_dim as real),
            )
        } else {
            0 as real
        }) by {
            reveal(entries);
            assert(2 * c == (2 * c) as usize);
        }
        lemma_applied(m, global, Unary::Cos, at);
        lemma_applied(m, global, Unary::Sin, at);
        lemma_applied(m, global.apply(Unary::Cos), Unary::Cast(w), at);
        lemma_applied(m, global.apply(Unary::Sin), Unary::Cast(w), at);
    }
}

/// The angle of pair `c` at position `p` in layer `i`.
spec fn angle_of(m: Numbers, cfg: Gemma4TextConfig, i: int, p: int, c: int) -> real {
    if cfg.sliding@[i] {
        (m.cast)(m.s.weights, p as real) * (m.cast)(
            m.s.weights,
            (1 as real) / (m.pow)(
                Precision::Double,
                (m.given)(cfg.rope_local_base_freq),
                ((2 * c) as real) / (cfg.head_dim as real),
            ),
        )
    } else {
        (m.cast)(DType::F32, p as real) * if c < cfg.rope_angles {
            (1 as real) / (m.pow)(
                Precision::Single,
                (m.given)(cfg.rope_theta),
                ((2 * c) as real) / (cfg.global_head_dim as real),
            )
        } else {
            0 as real
        }
    }
}

/// A cosine or sine as the tables of layer `i` hold it.
spec fn tabled(m: Numbers, cfg: Gemma4TextConfig, i: int, x: real) -> real {
    if cfg.sliding@[i] {
        x
    } else {
        (m.cast)(m.s.weights, x)
    }
}

/// Heads turned by the angles of their positions.
proof fn lemma_turned_by_angles(
    m: Numbers,
    model: TextModel,
    cfg: Gemma4TextConfig,
    i: int,
    y: Term,
    heads: usize,
    offset: usize,
    bd: Dim,
    td: Dim,
)
    requires
        model.belongs_to(cfg, m.s.weights),
        cfg.sound(),
        0 <= i < cfg.num_hidden_layers,
        y.has(
            m.s,
            seq![bd, Dim::Fixed(heads), td, Dim::Fixed(cfg.kind_head_dim(cfg.sliding@[i]))],
            m.s.weights,
        ),
        offset + m.s.size(td) <= cfg.max_position_embeddings,
    ensures
        ({
            let att = model.layers@[i].self_attn;
            let tables = att.tables(model.rotary_emb_global, model.rotary_emb_local);
            let z = turned(y, tables.sin, tables.cos, offset, td);
            let half = cfg.kind_head_dim(cfg.sliding@[i]) as int / 2;
            forall|b: int, h: int, t: int, e: int|
                0 <= b < m.s.size(bd) && 0 <= h < heads && 0 <= t < m.s.size(td) && 0 <= e < 2
                    * half ==> #[trigger] m.of4(z, b, h, t, e) == if e < half {
                    m.of4(y, b, h, t, e) * tabled(
                        m,
                        cfg,
                        i,
                        (m.cos)(angle_of(m, cfg, i, offset + t, e)),
                    ) + (-m.of4(y, b, h, t, e + half)) * tabled(
                        m,
                        cfg,
                        i,
                        (m.sin)(angle_of(m, cfg, i, offset + t, e)),
                    )
                } else {
                    m.of4(y, b, h, t, e) * tabled(
                        m,
                        cfg,
                        i,
                        (m.cos)(angle_of(m, cfg, i, offset + t, e - half)),
                    ) + m.of4(y, b, h, t, e - half) * tabled(
                        m,
                        cfg,
                        i,
                        (m.sin)(angle_of(m, cfg, i, offset + t, e - half)),
                    )
                }
        }),
{
    let att = model.layers@[i].self_attn;
    let tables = att.tables(model.rotary_emb_global, model.rotary_emb_local);
    lemma_layer_sound(model, cfg, m.s.weights, i);
    lemma_layer_tables_fit(m.s, model, cfg, i);
    let d = att.head_dim;
    let half = d / 2;
    assert(2 * half == d);
    let z = turned(y, tables.sin, tables.cos, offset, td);
    assert forall|b: int, h: int, t: int, e: int|
        0 <= b < m.s.size(bd) && 0 <= h < heads && 0 <= t < m.s.size(td) && 0 <= e < 2
            * half implies #[trigger] m.of4(z, b, h, t, e) == if e < half {
        m.of4(y, b, h, t, e) * tabled(
            m,
            cfg,
            i,
            (m.cos)(angle_of(m, cfg, i, offset + t, e)),
        ) + (-m.of4(y, b, h, t, e + half)) * tabled(
            m,
            cfg,
            i,
            (m.sin)(angle_of(m, cfg, i, offset + t, e)),
        )
    } else {
        m.of4(y, b, h, t, e) * tabled(
            m,
            cfg,
            i,
            (m.cos)(angle_of(m, cfg, i, offset + t, e - half)),
        ) + m.of4(y, b, h, t, e - half) * tabled(
            m,
            cfg,
            i,
            (m.sin)(angle_of(m, cfg, i, offset + t, e - half)),
        )
    } by {
        lemma_turned_numbers(
            m,
            tables,
            y,
            cfg.max_position_embeddings,
            half,
            offset,
            bd,
            heads,
            td,
            b,
            h,
            t,
            e,
        );
        let c = if e < half {
            e
        } else {
            e - half
        };
        law_tables_hold_the_angles(m, model, cfg, i, offset + t, c);
    }
}

/// The tensors on the way through attention.
pub struct AttentionSteps {
    /// The projected queries, keys and values, head by head.
    pub q_heads: Term,
    pub k_heads: Term,
    pub v_heads: Term,
    /// The queries and keys normalized.
    pub q_normed: Term,
    pub k_normed: Term,
    /// The queries and keys turned, and the values normalized.
    pub query: Term,
    pub keys: Term,
    pub values: Term,
    /// The keys and values that the queries meet.
    pub k: Term,
    pub v: Term,
    /// The values weighted, head by head.
    pub heads: Term,
    /// What fused attention is handed.
    pub fused: (Term, Term, Term),
}

/// Whether hidden states of `seq_len` tokens in each of `b_size` rows go into a layer of a
/// sound configuration's decoder at positions from `offset` on, with caches that hand back
/// all positions, and a mask that hides or else adds nothing.
pub open spec fn enters(
    m: Numbers,
    model: TextModel,
    cfg: Gemma4TextConfig,
    i: int,
    xs: Term,
    mask: Option<Term>,
    offset: usize,
    b_size: usize,
    seq_len: usize,
) -> bool {
    let (b, t) = (Dim::Fixed(b_size), Dim::Fixed(seq_len));
    &&& model.belongs_to(cfg, m.s.weights)
    &&& cfg.sound()
    &&& 0 <= i < cfg.num_hidden_layers
    &&& xs.has(m.s, seq![b, t, Dim::Fixed(cfg.hidden_size)], m.s.weights)
    &&& offset + seq_len <= cfg.max_position_embeddings
    &&& forall|l: usize| #[trigger] (m.s.cached)(l) == offset + seq_len
    &&& mask matches Some(x) ==> {
        &&& x.has(
            m.s,
            seq![b, Dim::Fixed(1), t, Dim::Fixed((offset + seq_len) as usize)],
            m.s.weights,
        )
        &&& forall|at: Seq<int>| #[trigger] entry(m, x, at) == 0 as real
    }
}

/// Whether keys and values handed to a layer that shares them are those of some cache, with
/// as many heads, as wide, as the layer needs.
pub open spec fn handed_fits(
    m: Numbers,
    model: TextModel,
    i: int,
    shared: Option<(Term, Term)>,
    b_size: usize,
) -> bool {
    let att = model.layers@[i].self_attn;
    att.is_kv_shared_layer ==> (shared matches Some(kv) ==> exists|source: usize| #[trigger]
        kv_fits(m.s, kv, Dim::Fixed(b_size), att.num_kv_heads, source, att.head_dim))
}

/// A module of a layer's attention in a checkpoint.
spec fn attention_path(i: int, module: Module) -> VarPath {
    VarPath { layer: Some(i as usize), block: Some(Block::SelfAttn), module: Some(module) }
}

/// What a configuration says of a layer's attention.
proof fn lemma_attention_fields(model: TextModel, cfg: Gemma4TextConfig, dtype: DType, i: int)
    requires
        model.belongs_to(cfg, dtype),
        cfg.sound(),
        0 <= i < cfg.num_hidden_layers,
    ensures
        ({
            let att = model.layers@[i].self_attn;
            let kv_heads = match (cfg.sliding@[i], cfg.num_global_key_value_heads) {
                (false, Some(k)) => k,
                _ => cfg.num_key_value_heads,
            };
            &&& att.layer_idx == i
            &&& att.use_flash_attn == cfg.use_flash_attn
            &&& att.num_heads == cfg.num_attention_heads
            &&& att.num_kv_heads == kv_heads
            &&& att.num_kv_groups == cfg.num_attention_heads / kv_heads
            &&& att.head_dim == if cfg.sliding@[i] {
                cfg.head_dim
            } else {
                cfg.global_head_dim
            }
            &&& att.q_proj.path == attention_path(i, Module::QProj)
            &&& att.o_proj.path == attention_path(i, Module::OProj)
            &&& att.q_norm.weight.path == attention_path(i, Module::QNorm)
            &&& att.q_norm.eps == cfg.rms_norm_eps
            &&& att.rms_norm_eps == cfg.rms_norm_eps
            &&& att.q_proj.bias == cfg.attention_bias
            &&& att.o_proj.bias == cfg.attention_bias
            &&& att.is_kv_shared_layer == !(i < cfg.num_hidden_layers - cfg.num_kv_shared_layers
                || cfg.num_kv_shared_layers == 0)
            &&& !att.is_kv_shared_layer ==> {
                &&& att.k_proj->0.path == attention_path(i, Module::KProj)
                &&& att.v_proj->0.path == attention_path(i, Module::VProj)
                &&& att.k_norm->0.weight.path == attention_path(i, Module::KNorm)
                &&& att.k_norm->0.eps == cfg.rms_norm_eps
                &&& att.k_proj->0.bias == cfg.attention_bias
                &&& att.v_proj->0.bias == cfg.attention_bias
            }
            &&& attention_sound(att, cfg.hidden_size)
        }),
{
    lemma_layer_of(model, cfg, dtype, i);
    lemma_layer_sound(model, cfg, dtype, i);
    assert(model.layers@[i].self_attn.cleared() == layers_of(cfg)[i].self_attn);
}

/// The queries of a layer: its input through the layer at `q_proj`, split into heads, each
/// head divided by its root mean square and scaled by the weight at `q_norm`, and turned
/// half against half by the angles of its position.
proof fn lemma_query_steps(
    m: Numbers,
    model: TextModel,
    cfg: Gemma4TextConfig,
    i: int,
    xs: Term,
    offset: usize,
    b_size: usize,
    seq_len: usize,
) -> (n: (Term, Term, Term))
    requires
        enters(m, model, cfg, i, xs, None, offset, b_size, seq_len),
    ensures
        ({
            let att = model.layers@[i].self_attn;
            let tables = att.tables(model.rotary_emb_global, model.rotary_emb_local);
            let (b, t) = (Dim::Fixed(b_size), Dim::Fixed(seq_len));
            let qd = seq![b, Dim::Fixed(att.num_heads), t, Dim::Fixed(att.head_dim)];
            &&& n.0 == split_heads(
                xs.project(Projection::Own(att.q_proj)),
                b,
                t,
                att.num_heads,
                att.head_dim,
            )
            &&& n.1 == att.queries(m.s.weights, xs)
            &&& n.1.has(m.s, qd, m.s.weights)
            &&& n.2 == turned(n.1, tables.sin, tables.cos, offset, t)
            &&& n.2.has(m.s, qd, m.s.weights)
        }),
        forall|b: int, h: int, t: int, e: int|
            0 <= b < b_size && 0 <= h < model.layers@[i].self_attn.num_heads && 0 <= t < seq_len
                && 0 <= e < model.layers@[i].self_attn.head_dim ==> #[trigger] m.of4(
                n.0,
                b,
                h,
                t,
                e,
            ) == m.linear(
                model.layers@[i].self_attn.q_proj.path,
                model.layers@[i].self_attn.q_proj.bias,
                cfg.hidden_size as int,
                |c: int| m.of3(xs, b, t, c),
                h * model.layers@[i].self_attn.head_dim + e,
            ),
        forall|b: int, h: int, t: int, e: int|
            0 <= b < b_size && 0 <= h < model.layers@[i].self_attn.num_heads && 0 <= t < seq_len
                && 0 <= e < model.layers@[i].self_attn.head_dim ==> #[trigger] m.of4(
                n.1,
                b,
                h,
                t,
                e,
            ) == (m.cast)(
                m.s.weights,
                (m.cast)(internal_dtype(m.s.weights), m.of4(n.0, b, h, t, e)) / m.rms(
                    model.layers@[i].self_attn.head_dim as int,
                    |j: int| (m.cast)(internal_dtype(m.s.weights), m.of4(n.0, b, h, t, j)),
                    (m.given)(model.layers@[i].self_attn.q_norm.eps),
                ),
            ) * (m.weight)(model.layers@[i].self_attn.q_norm.weight.path, seq![e]),
{
    let att = model.layers@[i].self_attn;
    let tables = att.tables(model.rotary_emb_global, model.rotary_emb_local);
    let w = m.s.weights;
    let (bd, td) = (Dim::Fixed(b_size), Dim::Fixed(seq_len));
    lemma_layer_of(model, cfg, w, i);
    lemma_layer_sound(model, cfg, w, i);
    lemma_layer_tables_fit(m.s, model, cfg, i);
    let half = att.head_dim / 2;
    assert(2 * half == att.head_dim);
    let split = split_heads(
        xs.project(Projection::Own(att.q_proj)),
        bd,
        td,
        att.num_heads,
        att.head_dim,
    );
    let qd = seq![bd, Dim::Fixed(att.num_heads), td, Dim::Fixed(att.head_dim)];
    lemma_heads_fit(m.s, att.q_proj, xs, bd, td, att.num_heads, att.head_dim);
    lemma_norm_fits(m.s, att.q_norm, split, qd);
    let plain = att.queries(w, xs);
    lemma_turned_fits(
        m.s,
        tables,
        plain,
        cfg.max_position_embeddings,
        half,
        offset,
        bd,
        att.num_heads,
        td,
    );
    assert forall|b: int, h: int, t: int, e: int|
        0 <= b < b_size && 0 <= h < att.num_heads && 0 <= t < seq_len && 0 <= e
            < att.head_dim implies #[trigger] m.of4(split, b, h, t, e) == m.linear(
        att.q_proj.path,
        att.q_proj.bias,
        cfg.hidden_size as int,
        |c: int| m.of3(xs, b, t, c),
        h * att.head_dim + e,
    ) by {
        lemma_heads_numbers(m, att.q_proj, xs, bd, td, att.num_heads, att.head_dim, b, h, t, e);
    }
    assert forall|b: int, h: int, t: int, e: int|
        0 <= b < b_size && 0 <= h < att.num_heads && 0 <= t < seq_len && 0 <= e
            < att.head_dim implies #[trigger] m.of4(plain, b, h, t, e) == (m.cast)(
                m.s.weights,
                (m.cast)(internal_dtype(m.s.weights), m.of4(split, b, h, t, e)) / m.rms(
                    att.head_dim as int,
                    |j: int| (m.cast)(internal_dtype(m.s.weights), m.of4(split, b, h, t, j)),
                    (m.given)(att.q_norm.eps),
                ),
            ) * (m.weight)(att.q_norm.weight.path, seq![e]) by {
        lemma_norm4(m, att.q_norm, w, split, b, h, t, e);
    }
    (split, plain, turned(plain, tables.sin, tables.cos, offset, td))
}

/// The keys and values that a layer appends to its cache.
proof fn lemma_key_steps(
    m: Numbers,
    model: TextModel,
    cfg: Gemma4TextConfig,
    i: int,
    xs: Term,
    offset: usize,
    b_size: usize,
    seq_len: usize,
) -> (n: (Term, Term, Term))
    requires
        enters(m, model, cfg, i, xs, None, offset, b_size, seq_len),
        !model.layers@[i].self_attn.is_kv_shared_layer,
    ensures
        ({
            let att = model.layers@[i].self_attn;
            let kd = seq![
                Dim::Fixed(b_size),
                Dim::Fixed(att.num_kv_heads),
                Dim::Fixed(seq_len),
                Dim::Fixed(att.head_dim),
            ];
            n.1 == att.plain_keys(m.s.weights, xs) && n.1.has(m.s, kd, m.s.weights)
        }),
        forall|b: int, h: int, t: int, e: int|
            0 <= b < b_size && 0 <= h < model.layers@[i].self_attn.num_kv_heads && 0 <= t
                < seq_len && 0 <= e < model.layers@[i].self_attn.head_dim ==> #[trigger] m.of4(
                n.0,
                b,
                h,
                t,
                e,
            ) == m.linear(
                model.layers@[i].self_attn.k_proj->0.path,
                model.layers@[i].self_attn.k_proj->0.bias,
                cfg.hidden_size as int,
                |c: int| m.of3(xs, b, t, c),
                h * model.layers@[i].self_attn.head_dim + e,
            ),
        forall|b: int, h: int, t: int, e: int|
            0 <= b < b_size && 0 <= h < model.layers@[i].self_attn.num_kv_heads && 0 <= t
                < seq_len && 0 <= e < model.layers@[i].self_attn.head_dim ==> #[trigger] m.of4(
                n.1,
                b,
                h,
                t,
                e,
            ) == (m.cast)(
                m.s.weights,
                (m.cast)(internal_dtype(m.s.weights), m.of4(n.0, b, h, t, e)) / m.rms(
                    model.layers@[i].self_attn.head_dim as int,
                    |j: int| (m.cast)(internal_dtype(m.s.weights), m.of4(n.0, b, h, t, j)),
                    (m.given)(model.layers@[i].self_attn.k_norm->0.eps),
                ),
            ) * (m.weight)(model.layers@[i].self_attn.k_norm->0.weight.path, seq![e]),
        forall|b: int, h: int, t: int, e: int|
            0 <= b < b_size && 0 <= h < model.layers@[i].self_attn.num_kv_heads && 0 <= t
                < seq_len && 0 <= e < model.layers@[i].self_attn.head_dim ==> #[trigger] m.of4(
                n.2,
                b,
                h,
                t,
                e,
            ) == m.linear(
                model.layers@[i].self_attn.v_proj->0.path,
                model.layers@[i].self_attn.v_proj->0.bias,
                cfg.hidden_size as int,
                |c: int| m.of3(xs, b, t, c),
                h * model.layers@[i].self_attn.head_dim + e,
            ),
        forall|b: int, h: int, t: int, e: int|
            0 <= b < b_size && 0 <= h < model.layers@[i].self_attn.num_kv_heads && 0 <= t
                < seq_len && 0 <= e < model.layers@[i].self_attn.head_dim ==> #[trigger] m.of4(
                model.layers@[i].self_attn.values(xs),
                b,
                h,
                t,
                e,
            ) == (m.cast)(
                m.s.weights,
                (m.cast)(DType::F32, m.of4(n.2, b, h, t, e)) / m.rms(
                    model.layers@[i].self_attn.head_dim as int,
                    |j: int| (m.cast)(DType::F32, m.of4(n.2, b, h, t, j)),
                    (m.given)(model.layers@[i].self_attn.rms_norm_eps),
                ),
            ),
{
    let att = model.layers@[i].self_attn;
    let w = m.s.weights;
    let (bd, td) = (Dim::Fixed(b_size), Dim::Fixed(seq_len));
    lemma_layer_of(model, cfg, w, i);
    lemma_layer_sound(model, cfg, w, i);
    let (kp, vp) = (att.k_proj->0, att.v_proj->0);
    let (heads, d) = (att.num_kv_heads, att.head_dim);
    let kd = seq![bd, Dim::Fixed(heads), td, Dim::Fixed(d)];
    let k_split = split_heads(xs.project(Projection::Own(kp)), bd, td, heads, d);
    let v_split = split_heads(xs.project(Projection::Own(vp)), bd, td, heads, d);
    lemma_heads_fit(m.s, kp, xs, bd, td, heads, d);
    lemma_heads_fit(m.s, vp, xs, bd, td, heads, d);
    lemma_norm_fits(m.s, att.k_norm->0, k_split, kd);
    let plain = att.plain_keys(w, xs);
    let values = att.values(xs);
    assert forall|b: int, h: int, t: int, e: int|
        0 <= b < b_size && 0 <= h < heads && 0 <= t < seq_len && 0 <= e
            < d implies #[trigger] m.of4(
        k_split,
        b,
        h,
        t,
        e,
    ) == m.linear(
        kp.path,
        kp.bias,
        cfg.hidden_size as int,
        |c: int| m.of3(xs, b, t, c),
        h * d + e,
    ) by {
        lemma_heads_numbers(m, kp, xs, bd, td, heads, d, b, h, t, e);
    }
    assert forall|b: int, h: int, t: int, e: int|
        0 <= b < b_size && 0 <= h < heads && 0 <= t < seq_len && 0 <= e
            < d implies #[trigger] m.of4(
        v_split,
        b,
        h,
        t,
        e,
    ) == m.linear(
        vp.path,
        vp.bias,
        cfg.hidden_size as int,
        |c: int| m.of3(xs, b, t, c),
        h * d + e,
    ) by {
        lemma_heads_numbers(m, vp, xs, bd, td, heads, d, b, h, t, e);
    }
    assert forall|b: int, h: int, t: int, e: int|
        0 <= b < b_size && 0 <= h < heads && 0 <= t < seq_len && 0 <= e
            < d implies #[trigger] m.of4(
        plain,
        b,
        h,
        t,
        e,
    ) == (m.cast)(
        m.s.weights,
        (m.cast)(internal_dtype(m.s.weights), m.of4(k_split, b, h, t, e)) / m.rms(
            d as int,
            |j: int| (m.cast)(internal_dtype(m.s.weights), m.of4(k_split, b, h, t, j)),
            (m.given)(att.k_norm->0.eps),
        ),
    ) * (m.weight)(att.k_norm->0.weight.path, seq![e]) by {
        lemma_norm4(m, att.k_norm->0, w, k_split, b, h, t, e);
    }
    assert forall|b: int, h: int, t: int, e: int|
        0 <= b < b_size && 0 <= h < heads && 0 <= t < seq_len && 0 <= e
            < d implies #[trigger] m.of4(
        values,
        b,
        h,
        t,
        e,
    ) == (m.cast)(
        m.s.weights,
        (m.cast)(DType::F32, m.of4(v_split, b, h, t, e)) / m.rms(
            d as int,
            |j: int| (m.cast)(DType::F32, m.of4(v_split, b, h, t, j)),
            (m.given)(att.rms_norm_eps),
        ),
    ) by {
        lemma_plain_norm4(m, att.rms_norm_eps, v_split, d, b, h, t, e);
    }
    (k_split, plain, v_split)
}

/// What a cache hands back: what it held before, and then what is appended.
proof fn lemma_cached_numbers(m: Numbers, layer: usize, fresh: bool, k: Term, v: Term)
    ensures
        ({
            let action = Term::Append { layer, fresh, k: Box::new(k), v: Box::new(v) };
            let held = if fresh {
                0
            } else {
                (m.held)(layer)
            };
            &&& forall|b: int, h: int, j: int, e: int| #[trigger]
                m.of4(Term::CachedKeys(Box::new(action)), b, h, j, e) == if j < held {
                    (m.keys)(layer, seq![b, h, j, e])
                } else {
                    m.of4(k, b, h, j - held, e)
                }
            &&& forall|b: int, h: int, j: int, e: int| #[trigger]
                m.of4(Term::CachedValues(Box::new(action)), b, h, j, e) == if j < held {
                    (m.values)(layer, seq![b, h, j, e])
                } else {
                    m.of4(v, b, h, j - held, e)
                }
        }),
{
    let action = Term::Append { layer, fresh, k: Box::new(k), v: Box::new(v) };
    let held = if fresh {
        0
    } else {
        (m.held)(layer)
    };
    assert forall|b: int, h: int, j: int, e: int| #[trigger]
        m.of4(Term::CachedKeys(Box::new(action)), b, h, j, e) == if j < held {
            (m.keys)(layer, seq![b, h, j, e])
        } else {
            m.of4(k, b, h, j - held, e)
        } by {
        let at = seq![b, h, j, e];
        assert(at.update(2, j - held) =~= seq![b, h, j - held, e]);
        reveal(entries);
    }
    assert forall|b: int, h: int, j: int, e: int| #[trigger]
        m.of4(Term::CachedValues(Box::new(action)), b, h, j, e) == if j < held {
            (m.values)(layer, seq![b, h, j, e])
        } else {
            m.of4(v, b, h, j - held, e)
        } by {
        let at = seq![b, h, j, e];
        assert(at.update(2, j - held) =~= seq![b, h, j - held, e]);
        reveal(entries);
    }
}

/// What a layer's attention computes, in numbers. Queries, keys and values are the input
/// through the linear layers at `q_proj`, `k_proj` and `v_proj`, head by head. Each query
/// and key is divided by its root mean square, scaled by the weight at `q_norm` or `k_norm`
/// and turned half against half by the angles of its position; each value is divided by its
/// root mean square. What is appended to the cache are these keys and values, and queries
/// meet what the cache held and then them, or else what is handed in. Each query weighs
/// the values by the shares of its unscaled products with the keys that its mask does not
/// hide, and the weighted values go, head beside head, through the layer at `o_proj`.
/// Where attention is fused, it is handed the same queries, keys and values, and hides
/// later positions just where there is a mask.
#[verifier::rlimit(60)]
pub proof fn law_attention_computes(
    m: Numbers,
    model: TextModel,
    cfg: Gemma4TextConfig,
    i: int,
    xs: Term,
    shared: Option<(Term, Term)>,
    mask: Option<Term>,
    offset: usize,
    b_size: usize,
    seq_len: usize,
    a: Attended,
) -> (n: AttentionSteps)
    requires
        enters(m, model, cfg, i, xs, mask, offset, b_size, seq_len),
        handed_fits(m, model, i, shared, b_size),
        model.layers@[i].self_attn.attention(
            m.s.weights,
            model.layers@[i].self_attn.tables(model.rotary_emb_global, model.rotary_emb_local),
            xs,
            shared,
            mask,
            offset,
        ) == Ok::<Attended, Refusal>(a),
    ensures
        ({
            let sliding = cfg.sliding@[i];
            let heads = cfg.num_attention_heads as int;
            let kv_heads = match (sliding, cfg.num_global_key_value_heads) {
                (false, Some(k)) => k as int,
                _ => cfg.num_key_value_heads as int,
            };
            let d = if sliding {
                cfg.head_dim as int
            } else {
                cfg.global_head_dim as int
            };
            let half = d / 2;
            let hidden = cfg.hidden_size as int;
            let wide = match m.s.weights {
                DType::F16 | DType::BF16 => DType::F32,
                d => d,
            };
            let eps = (m.given)(cfg.rms_norm_eps);
            let count = offset + seq_len;
            let fresh = model.layers@[i].self_attn.kv_cache.empty;
            let held = if fresh {
                0
            } else {
                (m.held)(i as usize)
            };
            let own = i < cfg.num_hidden_layers - cfg.num_kv_shared_layers
                || cfg.num_kv_shared_layers == 0;
            let path = |module: Module|
                VarPath {
                    layer: Some(i as usize),
                    block: Some(Block::SelfAttn),
                    module: Some(module),
                };
            let angle = |p: int, c: int|
                if sliding {
                    (m.cast)(m.s.weights, p as real) * (m.cast)(
                        m.s.weights,
                        (1 as real) / (m.pow)(
                            Precision::Double,
                            (m.given)(cfg.rope_local_base_freq),
                            ((2 * c) as real) / (cfg.head_dim as real),
                        ),
                    )
                } else {
                    (m.cast)(DType::F32, p as real) * if c < cfg.rope_angles {
                        (1 as real) / (m.pow)(
                            Precision::Single,
                            (m.given)(cfg.rope_theta),
                            ((2 * c) as real) / (cfg.global_head_dim as real),
                        )
                    } else {
                        0 as real
                    }
                };
            let cos = |p: int, c: int|
                if sliding {
                    (m.cos)(angle(p, c))
                } else {
                    (m.cast)(m.s.weights, (m.cos)(angle(p, c)))
                };
            let sin = |p: int, c: int|
                if sliding {
                    (m.sin)(angle(p, c))
                } else {
                    (m.cast)(m.s.weights, (m.sin)(angle(p, c)))
                };
            &&& forall|b: int, h: int, t: int, e: int|
                0 <= b < b_size && 0 <= h < heads && 0 <= t < seq_len && 0 <= e < d ==> {
                    &&& #[trigger] m.of4(n.q_heads, b, h, t, e) == m.linear(
                        path(Module::QProj),
                        cfg.attention_bias,
                        hidden,
                        |c: int| m.of3(xs, b, t, c),
                        h * d + e,
                    )
                }
            &&& forall|b: int, h: int, t: int, e: int|
                0 <= b < b_size && 0 <= h < heads && 0 <= t < seq_len && 0 <= e < d ==> {
                    &&& #[trigger] m.of4(n.q_normed, b, h, t, e) == (m.cast)(
                        m.s.weights,
                        (m.cast)(wide, m.of4(n.q_heads, b, h, t, e)) / m.rms(
                            d,
                            |j: int| (m.cast)(wide, m.of4(n.q_heads, b, h, t, j)),
                            eps,
                        ),
                    ) * (m.weight)(
                        path(Module::QNorm),
                        seq![e],
                    )
                }
            &&& forall|b: int, h: int, t: int, e: int|
                0 <= b < b_size && 0 <= h < heads && 0 <= t < seq_len && 0 <= e < d ==> {
                    &&& #[trigger] m.of4(n.query, b, h, t, e) == if e < half {
                        m.of4(n.q_normed, b, h, t, e) * cos(offset + t, e) + (-m.of4(
                            n.q_normed,
                            b,
                            h,
                            t,
                            e + half,
                        )) * sin(offset + t, e)
                    } else {
                        m.of4(n.q_normed, b, h, t, e) * cos(offset + t, e - half)
                            + m.of4(n.q_normed, b, h, t, e - half) * sin(offset + t, e - half)
                    }
                }
            &&& own ==> {
                &&& forall|b: int, h: int, t: int, e: int|
                    0 <= b < b_size && 0 <= h < kv_heads && 0 <= t < seq_len && 0 <= e < d ==> {
                        &&& #[trigger] m.of4(n.k_heads, b, h, t, e) == m.linear(
                            path(Module::KProj),
                            cfg.attention_bias,
                            hidden,
                            |c: int| m.of3(xs, b, t, c),
                            h * d + e,
                        )
                    }
                &&& forall|b: int, h: int, t: int, e: int|
                    0 <= b < b_size && 0 <= h < kv_heads && 0 <= t < seq_len && 0 <= e < d ==> {
                        &&& #[trigger] m.of4(n.v_heads, b, h, t, e) == m.linear(
                            path(Module::VProj),
                            cfg.attention_bias,
                            hidden,
                            |c: int| m.of3(xs, b, t, c),
                            h * d + e,
                        )
                    }
                &&& forall|b: int, h: int, t: int, e: int|
                    0 <= b < b_size && 0 <= h < kv_heads && 0 <= t < seq_len && 0 <= e < d ==> {
                        &&& #[trigger] m.of4(n.k_normed, b, h, t, e) == (m.cast)(
                            m.s.weights,
                            (m.cast)(wide, m.of4(n.k_heads, b, h, t, e)) / m.rms(
                                d,
                                |j: int| (m.cast)(wide, m.of4(n.k_heads, b, h, t, j)),
                                eps,
                            ),
                        ) * (m.weight)(
                            path(Module::KNorm),
                            seq![e],
                        )
                    }
                &&& forall|b: int, h: int, t: int, e: int|
                    0 <= b < b_size && 0 <= h < kv_heads && 0 <= t < seq_len && 0 <= e < d ==> {
                        &&& #[trigger] m.of4(n.keys, b, h, t, e) == if e < half {
                            m.of4(n.k_normed, b, h, t, e) * cos(offset + t, e) + (
                            -m.of4(n.k_normed, b, h, t, e + half)) * sin(offset + t, e)
                        } else {
                            m.of4(n.k_normed, b, h, t, e) * cos(offset + t, e - half)
                                + m.of4(n.k_normed, b, h, t, e - half) * sin(offset + t, e - half)
                        }
                    }
                &&& forall|b: int, h: int, t: int, e: int|
                    0 <= b < b_size && 0 <= h < kv_heads && 0 <= t < seq_len && 0 <= e < d ==> {
                        &&& #[trigger] m.of4(n.values, b, h, t, e) == (m.cast)(
                            m.s.weights,
                            (m.cast)(DType::F32, m.of4(n.v_heads, b, h, t, e)) / m.rms(
                                d,
                                |j: int| (m.cast)(DType::F32, m.of4(n.v_heads, b, h, t, j)),
                                eps,
                            ),
                        )
                    }
                &&& a.action == Some(
                    Term::Append {
                        layer: i as usize,
                        fresh,
                        k: Box::new(n.keys),
                        v: Box::new(n.values),
                    },
                )
                &&& forall|b: int, h: int, j: int, e: int| #[trigger]
                    m.of4(n.k, b, h, j, e) == if j < held {
                        (m.keys)(i as usize, seq![b, h, j, e])
                    } else {
                        m.of4(n.keys, b, h, j - held, e)
                    }
                &&& forall|b: int, h: int, j: int, e: int| #[trigger]
                    m.of4(n.v, b, h, j, e) == if j < held {
                        (m.values)(i as usize, seq![b, h, j, e])
                    } else {
                        m.of4(n.values, b, h, j - held, e)
                    }
            }
            &&& !own ==> a.action is None && a.stored is None && shared == Some((n.k, n.v))
            &&& a.stored matches Some(kv) ==> kv == (n.k, n.v)
            &&& cfg.use_flash_attn ==> {
                &&& forall|b: int, t: int, h: int, e: int| #[trigger]
                    m.of4(n.fused.0, b, t, h, e) == m.of4(n.query, b, h, t, e)
                &&& forall|b: int, j: int, h: int, e: int| #[trigger]
                    m.of4(n.fused.1, b, j, h, e) == m.of4(n.k, b, h / (heads / kv_heads), j, e)
                &&& forall|b: int, j: int, h: int, e: int| #[trigger]
                    m.of4(n.fused.2, b, j, h, e) == m.of4(n.v, b, h / (heads / kv_heads), j, e)
                &&& forall|b: int, h: int, t: int, e: int| #[trigger]
                    m.of4(n.heads, b, h, t, e) == (m.fused)(
                        entries(m, n.fused.0),
                        entries(m, n.fused.1),
                        entries(m, n.fused.2),
                        mask is Some,
                        seq![b, t, h, e],
                    )
            }
            &&& !cfg.use_flash_attn ==> forall|b: int, h: int, t: int, e: int|
                0 <= b < b_size && 0 <= h < heads && 0 <= t < seq_len && 0 <= e < d ==> {
                    &&& #[trigger] m.of4(n.heads, b, h, t, e) == total(
                        count,
                        |j: int|
                            m.share(
                                count,
                                |j: int| !(mask matches Some(x) && blocks(x, t, j)),
                                |j: int|
                                    total(
                                        d,
                                        |c: int|
                                            m.of4(n.query, b, h, t, c) * m.of4(
                                                n.k,
                                                b,
                                                h / (heads / kv_heads),
                                                j,
                                                c,
                                            ),
                                    ),
                                j,
                            ) * m.of4(n.v, b, h / (heads / kv_heads), j, e),
                    )
                }
            &&& forall|b: int, t: int, o: int|
                0 <= b < b_size && 0 <= t < seq_len && 0 <= o < hidden ==> {
                    &&& #[trigger] m.of3(a.out, b, t, o) == m.linear(
                        path(Module::OProj),
                        cfg.attention_bias,
                        heads * d,
                        |c: int| m.of4(n.heads, b, c / d, t, c % d),
                        o,
                    )
                }
        }),
{
    let att = model.layers@[i].self_attn;
    let tables = att.tables(model.rotary_emb_global, model.rotary_emb_local);
    let w = m.s.weights;
    let (bd, td) = (Dim::Fixed(b_size), Dim::Fixed(seq_len));
    lemma_attention_fields(model, cfg, w, i);
    lemma_layer_tables_fit(m.s, model, cfg, i);
    let count = offset + seq_len;
    let q = lemma_query_steps(m, model, cfg, i, xs, offset, b_size, seq_len);
    lemma_turned_by_angles(m, model, cfg, i, q.1, att.num_heads, offset, bd, td);
    let kv = if att.is_kv_shared_layer {
        (xs, xs, xs)
    } else {
        lemma_key_steps(m, model, cfg, i, xs, offset, b_size, seq_len)
    };
    let keys = att.keys(w, tables, xs, offset);
    let values = att.values(xs);
    let source = if att.is_kv_shared_layer {
        choose|source: usize| #[trigger]
            kv_fits(m.s, shared->0, bd, att.num_kv_heads, source, att.head_dim)
    } else {
        att.layer_idx
    };
    if !att.is_kv_shared_layer {
        lemma_turned_by_angles(m, model, cfg, i, kv.1, att.num_kv_heads, offset, bd, td);
        lemma_own_kv_fits(
            m.s,
            att,
            tables,
            xs,
            offset,
            cfg.max_position_embeddings,
            bd,
            td,
            cfg.hidden_size,
        );
        lemma_cached_numbers(m, att.layer_idx, att.kv_cache.empty, keys, values);
    }
    let action = Term::Append {
        layer: att.layer_idx,
        fresh: att.kv_cache.empty,
        k: Box::new(keys),
        v: Box::new(values),
    };
    let met = if att.is_kv_shared_layer {
        shared->0
    } else {
        (Term::CachedKeys(Box::new(action)), Term::CachedValues(Box::new(action)))
    };
    let heads = att.attend(q.2, met.0, met.1, mask);
    assert(a.out == att.merge_heads(xs, heads) && a.action == (if att.is_kv_shared_layer {
        None
    } else {
        Some(action)
    }) && (a.stored matches Some(x) ==> !att.is_kv_shared_layer && x == met) && (
    att.is_kv_shared_layer ==> shared is Some)) by {
        reveal(Attention::attention);
    }
    assert((m.s.cached)(source) == count);
    assert(mask_fits(m.s, mask, bd, td, source));
    lemma_attend_fits(m.s, att, q.2, met.0, met.1, mask, bd, td, source);
    if let Some(x) = mask {
        let d4 = seq![bd, Dim::Fixed(att.num_heads), td, Dim::Cached(source)];
        assert(q.2.dims().update(3, met.0.dims()[2]) =~= d4);
        assert(broadcast_dims(d4, x.dims()) =~= d4);
    }
    let fused = if att.use_flash_attn {
        lemma_fused_numbers(m, att, q.2, met.0, met.1, mask)
    } else {
        (xs, xs, xs)
    };
    assert forall|b: int, h: int, t: int, e: int|
        !att.use_flash_attn && 0 <= b < b_size && 0 <= h < att.num_heads && 0 <= t < seq_len && 0
            <= e < att.head_dim implies #[trigger] m.of4(heads, b, h, t, e) == total(
        count,
        |j: int|
            m.share(
                count,
                |j: int| !(mask matches Some(x) && blocks(x, t, j)),
                |j: int|
                    total(
                        att.head_dim as int,
                        |c: int|
                            m.of4(q.2, b, h, t, c) * m.of4(
                                met.0,
                                b,
                                h / (att.num_kv_groups as int),
                                j,
                                c,
                            ),
                    ),
                j,
            ) * m.of4(met.1, b, h / (att.num_kv_groups as int), j, e),
    ) by {
        lemma_attend_numbers(m, att, q.2, met.0, met.1, mask, count, b, h, t, e);
    }
    assert forall|b: int, t: int, o: int|
        0 <= b < b_size && 0 <= t < seq_len && 0 <= o < cfg.hidden_size implies #[trigger] m.of3(
        a.out,
        b,
        t,
        o,
    ) == m.linear(
        att.o_proj.path,
        att.o_proj.bias,
        att.num_heads * att.head_dim,
        |c: int| m.of4(heads, b, c / (att.head_dim as int), t, c % (att.head_dim as int)),
        o,
    ) by {
        lemma_merge_numbers(m, att, xs, heads, bd, td, cfg.hidden_size, b, t, o);
    }
    AttentionSteps {
        q_heads: q.0,
        k_heads: kv.0,
        v_heads: kv.2,
        q_normed: q.1,
        k_normed: kv.1,
        query: q.2,
        keys,
        values,
        k: met.0,
        v: met.1,
        heads,
        fused,
    }
}

/// A module of a layer in a checkpoint.
spec fn layer_path(i: int, block: Option<Block>, module: Module) -> VarPath {
    VarPath { layer: Some(i as usize), block, module: Some(module) }
}

/// Whether a norm is over the hidden states and has its weight at a place of a layer.
spec fn is_norm_at(norm: RmsNorm, cfg: Gemma4TextConfig, i: int, module: Module) -> bool {
    &&& norm.weight == Param {
        path: layer_path(i, None, module),
        name: ParamName::Weight,
        len: cfg.hidden_size,
    }
    &&& norm.eps == cfg.rms_norm_eps
}

/// What a configuration says of a layer besides its attention.
proof fn lemma_layer_fields(model: TextModel, cfg: Gemma4TextConfig, dtype: DType, i: int)
    requires
        model.belongs_to(cfg, dtype),
        cfg.sound(),
        0 <= i < cfg.num_hidden_layers,
    ensures
        ({
            let layer = model.layers@[i];
            let mlp = layer.mlp;
            let width = cfg.hidden_size_per_layer_input;
            &&& is_norm_at(layer.input_layernorm, cfg, i, Module::InputLayernorm)
            &&& is_norm_at(layer.post_attention_layernorm, cfg, i, Module::PostAttentionLayernorm)
            &&& is_norm_at(layer.pre_feedforward_layernorm, cfg, i, Module::PreFeedforwardLayernorm)
            &&& is_norm_at(
                layer.post_feedforward_layernorm,
                cfg,
                i,
                Module::PostFeedforwardLayernorm,
            )
            &&& mlp.gate_proj.path == layer_path(i, Some(Block::Mlp), Module::GateProj)
            &&& mlp.up_proj.path == layer_path(i, Some(Block::Mlp), Module::UpProj)
            &&& mlp.down_proj.path == layer_path(i, Some(Block::Mlp), Module::DownProj)
            &&& !mlp.gate_proj.bias && !mlp.up_proj.bias && !mlp.down_proj.bias
            &&& mlp.gate_proj.out_dim == cfg.intermediate_size
            &&& mlp.act_fn == cfg.hidden_activation
            &&& layer.layer_scalar == Param {
                path: VarPath { layer: Some(i as usize), block: None, module: None },
                name: ParamName::LayerScalar,
                len: 1,
            }
            &&& if width > 0 {
                &&& layer.per_layer_input_gate == Some(
                    Linear {
                        path: layer_path(i, None, Module::PerLayerInputGate),
                        in_dim: cfg.hidden_size,
                        out_dim: width,
                        bias: false,
                    },
                )
                &&& layer.per_layer_projection == Some(
                    Linear {
                        path: layer_path(i, None, Module::PerLayerProjection),
                        in_dim: width,
                        out_dim: cfg.hidden_size,
                        bias: false,
                    },
                )
                &&& layer.post_per_layer_input_norm is Some
                &&& is_norm_at(
                    layer.post_per_layer_input_norm->0,
                    cfg,
                    i,
                    Module::PostPerLayerInputNorm,
                )
                &&& layer.per_layer_activation == Some(cfg.hidden_activation)
            } else {
                layer.per_layer_input_gate is None
            }
            &&& layer_sound(layer, cfg.hidden_size, width)
        }),
{
    lemma_layer_of(model, cfg, dtype, i);
    lemma_layer_sound(model, cfg, dtype, i);
    let layer = model.layers@[i].cleared();
    assert(layer == layers_of(cfg)[i]);
    assert(layer.mlp == model.layers@[i].mlp);
}

/// The tensors on the way through a layer.
pub struct LayerSteps {
    /// The input normalized.
    pub normed: Term,
    /// What attention makes of that.
    pub attended: Attended,
    /// The hidden states behind attention.
    pub mixed: Term,
    /// These normalized.
    pub inner: Term,
    /// What the feed-forward block makes of that.
    pub fed: Term,
    /// The hidden states behind the feed-forward block.
    pub behind: Term,
    /// The layer's own input through its gate.
    pub gated: Term,
    /// And projected back.
    pub projected: Term,
}

/// The hidden states behind attention and the feed-forward block of a layer.
proof fn lemma_mixed_steps(
    m: Numbers,
    layer: DecoderLayer,
    xs: Term,
    attended: Term,
    b_size: usize,
    seq_len: usize,
    hidden: usize,
    width: usize,
)
    requires
        layer_sound(layer, hidden, width),
        layer.post_attention_layernorm.weight.name == ParamName::Weight,
        layer.pre_feedforward_layernorm.weight.name == ParamName::Weight,
        layer.post_feedforward_layernorm.weight.name == ParamName::Weight,
        xs.has(
            m.s,
            seq![Dim::Fixed(b_size), Dim::Fixed(seq_len), Dim::Fixed(hidden)],
            m.s.weights,
        ),
        attended.has(
            m.s,
            seq![Dim::Fixed(b_size), Dim::Fixed(seq_len), Dim::Fixed(hidden)],
            m.s.weights,
        ),
    ensures
        ({
            let w = m.s.weights;
            let d = seq![Dim::Fixed(b_size), Dim::Fixed(seq_len), Dim::Fixed(hidden)];
            let mixed = layer.after_attention(w, xs, attended);
            let inner = rms_norm(layer.pre_feedforward_layernorm, w, mixed);
            let fed = feed_forward(layer.mlp, inner);
            let behind = layer.after_mlp(w, mixed);
            let n = hidden as int;
            &&& mixed.has(m.s, d, w)
            &&& behind.has(m.s, d, w)
            &&& forall|b: int, t: int, c: int|
                0 <= b < b_size && 0 <= t < seq_len && 0 <= c < hidden ==> #[trigger] m.of3(
                    mixed,
                    b,
                    t,
                    c,
                ) == (m.cast)(
                    m.s.weights,
                    (m.cast)(internal_dtype(m.s.weights), m.of3(attended, b, t, c)) / m.rms(
                        n,
                        |j: int| (m.cast)(internal_dtype(m.s.weights), m.of3(attended, b, t, j)),
                        (m.given)(layer.post_attention_layernorm.eps),
                    ),
                ) * (m.weight)(layer.post_attention_layernorm.weight.path, seq![c]) + m.of3(
                    xs,
                    b,
                    t,
                    c,
                )
            &&& forall|b: int, t: int, c: int|
                0 <= b < b_size && 0 <= t < seq_len && 0 <= c < hidden ==> #[trigger] m.of3(
                    inner,
                    b,
                    t,
                    c,
                ) == (m.cast)(
                    m.s.weights,
                    (m.cast)(internal_dtype(m.s.weights), m.of3(mixed, b, t, c)) / m.rms(
                        n,
                        |j: int| (m.cast)(internal_dtype(m.s.weights), m.of3(mixed, b, t, j)),
                        (m.given)(layer.pre_feedforward_layernorm.eps),
                    ),
                ) * (m.weight)(layer.pre_feedforward_layernorm.weight.path, seq![c])
            &&& forall|b: int, t: int, o: int| #[trigger]
                m.of3(fed, b, t, o) == m.linear(
                    layer.mlp.down_proj.path,
                    layer.mlp.down_proj.bias,
                    layer.mlp.gate_proj.out_dim as int,
                    |k: int|
                        (m.act)(
                            layer.mlp.act_fn,
                            m.linear(
                                layer.mlp.gate_proj.path,
                                layer.mlp.gate_proj.bias,
                                n,
                                |c: int| m.of3(inner, b, t, c),
                                k,
                            ),
                        ) * m.linear(
                            layer.mlp.up_proj.path,
                            layer.mlp.up_proj.bias,
                            n,
                            |c: int| m.of3(inner, b, t, c),
                            k,
                        ),
                    o,
                )
            &&& forall|b: int, t: int, c: int|
                0 <= b < b_size && 0 <= t < seq_len && 0 <= c < hidden ==> #[trigger] m.of3(
                    behind,
                    b,
                    t,
                    c,
                ) == m.of3(mixed, b, t, c) + (m.cast)(
                    m.s.weights,
                    (m.cast)(internal_dtype(m.s.weights), m.of3(fed, b, t, c)) / m.rms(
                        n,
                        |j: int| (m.cast)(internal_dtype(m.s.weights), m.of3(fed, b, t, j)),
                        (m.given)(layer.post_feedforward_layernorm.eps),
                    ),
                ) * (m.weight)(layer.post_feedforward_layernorm.weight.path, seq![c])
        }),
{
    let w = m.s.weights;
    let (bd, td) = (Dim::Fixed(b_size), Dim::Fixed(seq_len));
    let d = seq![bd, td, Dim::Fixed(hidden)];
    let n = hidden as int;
    lemma_norm_fits(m.s, layer.post_attention_layernorm, attended, d);
    let outer = rms_norm(layer.post_attention_layernorm, w, attended);
    let mixed = layer.after_attention(w, xs, attended);
    assert(mixed.has(m.s, d, w));
    lemma_norm_fits(m.s, layer.pre_feedforward_layernorm, mixed, d);
    let inner = rms_norm(layer.pre_feedforward_layernorm, w, mixed);
    lemma_feed_forward_fits(m.s, layer.mlp, inner, bd, td, hidden);
    let fed = feed_forward(layer.mlp, inner);
    lemma_norm_fits(m.s, layer.post_feedforward_layernorm, fed, d);
    let last = rms_norm(layer.post_feedforward_layernorm, w, fed);
    let behind = layer.after_mlp(w, mixed);
    assert(behind.has(m.s, d, w));
    assert forall|b: int, t: int, c: int|
        0 <= b < b_size && 0 <= t < seq_len && 0 <= c < hidden implies #[trigger] m.of3(
        mixed,
        b,
        t,
        c,
    ) == (m.cast)(
        m.s.weights,
        (m.cast)(internal_dtype(m.s.weights), m.of3(attended, b, t, c)) / m.rms(
            n,
            |j: int| (m.cast)(internal_dtype(m.s.weights), m.of3(attended, b, t, j)),
            (m.given)(layer.post_attention_layernorm.eps),
        ),
    ) * (m.weight)(layer.post_attention_layernorm.weight.path, seq![c]) + m.of3(xs, b, t, c) by {
        lemma_norm3(m, layer.post_attention_layernorm, w, attended, b, t, c);
        lemma_combined(m, outer, Binary::Add, xs, seq![b, t, c]);
    }
    assert forall|b: int, t: int, c: int|
        0 <= b < b_size && 0 <= t < seq_len && 0 <= c < hidden implies #[trigger] m.of3(
        inner,
        b,
        t,
        c,
    ) == (m.cast)(
        m.s.weights,
        (m.cast)(internal_dtype(m.s.weights), m.of3(mixed, b, t, c)) / m.rms(
            n,
            |j: int| (m.cast)(internal_dtype(m.s.weights), m.of3(mixed, b, t, j)),
            (m.given)(layer.pre_feedforward_layernorm.eps),
        ),
    ) * (m.weight)(layer.pre_feedforward_layernorm.weight.path, seq![c]) by {
        lemma_norm3(m, layer.pre_feedforward_layernorm, w, mixed, b, t, c);
    }
    assert forall|b: int, t: int, o: int| #[trigger]
        m.of3(fed, b, t, o) == m.linear(
            layer.mlp.down_proj.path,
            layer.mlp.down_proj.bias,
            layer.mlp.gate_proj.out_dim as int,
            |k: int|
                (m.act)(
                    layer.mlp.act_fn,
                    m.linear(
                        layer.mlp.gate_proj.path,
                        layer.mlp.gate_proj.bias,
                        n,
                        |c: int| m.of3(inner, b, t, c),
                        k,
                    ),
                ) * m.linear(
                    layer.mlp.up_proj.path,
                    layer.mlp.up_proj.bias,
                    n,
                    |c: int| m.of3(inner, b, t, c),
                    k,
                ),
            o,
        ) by {
        lemma_fed_numbers(m, layer.mlp, inner, b, t, o);
    }
    assert forall|b: int, t: int, c: int|
        0 <= b < b_size && 0 <= t < seq_len && 0 <= c < hidden implies #[trigger] m.of3(
        behind,
        b,
        t,
        c,
    ) == m.of3(mixed, b, t, c) + (m.cast)(
        m.s.weights,
        (m.cast)(internal_dtype(m.s.weights), m.of3(fed, b, t, c)) / m.rms(
            n,
            |j: int| (m.cast)(internal_dtype(m.s.weights), m.of3(fed, b, t, j)),
            (m.given)(layer.post_feedforward_layernorm.eps),
        ),
    ) * (m.weight)(layer.post_feedforward_layernorm.weight.path, seq![c]) by {
        lemma_norm3(m, layer.post_feedforward_layernorm, w, fed, b, t, c);
        lemma_combined(m, mixed, Binary::Add, last, seq![b, t, c]);
    }
}

/// Hidden states gated by a layer's own input and projected back.
proof fn lemma_gated_steps(
    m: Numbers,
    layer: DecoderLayer,
    xs: Term,
    own: Term,
    b_size: usize,
    seq_len: usize,
    hidden: usize,
    width: usize,
) -> (n: (Term, Term))
    requires
        layer_sound(layer, hidden, width),
        layer.per_layer_input_gate is Some,
        layer.per_layer_projection is Some,
        layer.post_per_layer_input_norm is Some,
        layer.per_layer_activation is Some,
        layer.post_per_layer_input_norm->0.weight.name == ParamName::Weight,
        xs.has(
            m.s,
            seq![Dim::Fixed(b_size), Dim::Fixed(seq_len), Dim::Fixed(hidden)],
            m.s.weights,
        ),
        own.has(
            m.s,
            seq![Dim::Fixed(b_size), Dim::Fixed(seq_len), Dim::Fixed(width)],
            m.s.weights,
        ),
    ensures
        forall|b: int, t: int, k: int| #[trigger]
            m.of3(n.0, b, t, k) == (m.act)(
                layer.per_layer_activation->0,
                m.linear(
                    layer.per_layer_input_gate->0.path,
                    layer.per_layer_input_gate->0.bias,
                    hidden as int,
                    |c: int| m.of3(xs, b, t, c),
                    k,
                ),
            ) * m.of3(own, b, t, k),
        forall|b: int, t: int, o: int| #[trigger]
            m.of3(n.1, b, t, o) == m.linear(
                layer.per_layer_projection->0.path,
                layer.per_layer_projection->0.bias,
                width as int,
                |k: int| m.of3(n.0, b, t, k),
                o,
            ),
        forall|b: int, t: int, c: int|
            0 <= b < b_size && 0 <= t < seq_len && 0 <= c < hidden ==> #[trigger] m.of3(
                layer.after_per_layer_input(m.s.weights, xs, Some(own)),
                b,
                t,
                c,
            ) == m.of3(xs, b, t, c) + (m.cast)(
                m.s.weights,
                (m.cast)(internal_dtype(m.s.weights), m.of3(n.1, b, t, c)) / m.rms(
                    hidden as int,
                    |j: int| (m.cast)(internal_dtype(m.s.weights), m.of3(n.1, b, t, j)),
                    (m.given)(layer.post_per_layer_input_norm->0.eps),
                ),
            ) * (m.weight)(layer.post_per_layer_input_norm->0.weight.path, seq![c]),
{
    let w = m.s.weights;
    let (bd, td) = (Dim::Fixed(b_size), Dim::Fixed(seq_len));
    let (gate, projection) = (layer.per_layer_input_gate->0, layer.per_layer_projection->0);
    let norm = layer.post_per_layer_input_norm->0;
    let activation = layer.per_layer_activation->0;
    let (g, o) = (Projection::Own(gate), Projection::Own(projection));
    let opened = xs.project(g);
    let active = opened.apply(Unary::Activate(activation));
    let ple = active.combine(Binary::Mul, own);
    let projected = ple.project(o);
    let mixed = rms_norm(norm, w, projected);
    assert(opened.dims() =~= seq![bd, td, Dim::Fixed(width)]);
    assert(active.dims() == opened.dims());
    assert(ple.dims() == active.dims());
    assert(projected.dims() =~= seq![bd, td, Dim::Fixed(hidden)]);
    assert(opened.dtype() == w);
    assert(active.dtype() == w);
    assert(ple.dtype() == w);
    assert(projected.dtype() == w);
    assert forall|b: int, t: int, k: int| #[trigger]
        m.of3(ple, b, t, k) == (m.act)(
            activation,
            m.linear(gate.path, gate.bias, hidden as int, |c: int| m.of3(xs, b, t, c), k),
        ) * m.of3(own, b, t, k) by {
        let at = seq![b, t, k];
        lemma_combined(m, active, Binary::Mul, own, at);
        lemma_applied(m, opened, Unary::Activate(activation), at);
        lemma_project_numbers(m, g, xs, b, t, k);
    }
    assert forall|b: int, t: int, c: int| #[trigger]
        m.of3(projected, b, t, c) == m.linear(
            projection.path,
            projection.bias,
            width as int,
            |k: int| m.of3(ple, b, t, k),
            c,
        ) by {
        lemma_project_numbers(m, o, ple, b, t, c);
    }
    let out = layer.after_per_layer_input(w, xs, Some(own));
    assert(out == xs.combine(Binary::Add, mixed));
    assert forall|b: int, t: int, c: int|
        0 <= b < b_size && 0 <= t < seq_len && 0 <= c < hidden implies #[trigger] m.of3(
        out,
        b,
        t,
        c,
    ) == m.of3(xs, b, t, c) + (m.cast)(
        m.s.weights,
        (m.cast)(internal_dtype(m.s.weights), m.of3(projected, b, t, c)) / m.rms(
            hidden as int,
            |j: int| (m.cast)(internal_dtype(m.s.weights), m.of3(projected, b, t, j)),
            (m.given)(norm.eps),
        ),
    ) * (m.weight)(norm.weight.path, seq![c]) by {
        lemma_norm3(m, norm, w, projected, b, t, c);
        lemma_combined(m, xs, Binary::Add, mixed, seq![b, t, c]);
    }
    (ple, projected)
}

/// Hidden states times the scale of a layer.
proof fn lemma_scaled_numbers(
    m: Numbers,
    y: Term,
    scalar: Param,
    weights: DType,
    b: int,
    t: int,
    c: int,
)
    requires
        y.dims().len() == 3,
        0 <= b < m.s.size(y.dims()[0]),
        0 <= t < m.s.size(y.dims()[1]),
        0 <= c < m.s.size(y.dims()[2]),
        scalar.len == 1,
        scalar.name == ParamName::LayerScalar,
    ensures
        m.of3(y.combine(Binary::BroadcastMul, Term::Param(scalar, weights)), b, t, c) == m.of3(
            y,
            b,
            t,
            c,
        ) * (m.scalar)(scalar.path, 0),
{
    let at = seq![b, t, c];
    let one = Term::Param(scalar, weights);
    lemma_within3(m, y.dims(), b, t, c);
    lemma_aligned(m, y.dims(), at);
    lemma_combined(m, y, Binary::BroadcastMul, one, at);
    assert(aligned(one.dims(), at) =~= seq![0]);
    assert(entry(m, one, seq![0]) == (m.scalar)(scalar.path, 0)) by {
        reveal(entries);
    }
}

/// What a layer computes, in numbers. Its input is divided by its root mean square and
/// scaled by the weight at `input_layernorm`, and goes through attention. What attention
/// yields is normalized with the weight at `post_attention_layernorm` and added to the
/// input. That, normalized with the weight at `pre_feedforward_layernorm`, goes through the
/// feed-forward block, whose activated gate is multiplied with the upward projection and
/// projected down; the outcome is normalized with the weight at
/// `post_feedforward_layernorm` and added. Where the layer has an input of its own, that is
/// multiplied with the activated gate of the hidden states, projected back, normalized with
/// the weight at `post_per_layer_input_norm` and added. All is scaled by `layer_scalar`.
#[verifier::rlimit(60)]
pub proof fn law_layer_computes(
    m: Numbers,
    model: TextModel,
    cfg: Gemma4TextConfig,
    i: int,
    xs: Term,
    own: Option<Term>,
    shared: Option<(Term, Term)>,
    mask: Option<Term>,
    offset: usize,
    b_size: usize,
    seq_len: usize,
    l: Layered,
) -> (n: LayerSteps)
    requires
        enters(m, model, cfg, i, xs, mask, offset, b_size, seq_len),
        handed_fits(m, model, i, shared, b_size),
        own matches Some(x) ==> x.has(
            m.s,
            seq![
                Dim::Fixed(b_size),
                Dim::Fixed(seq_len),
                Dim::Fixed(cfg.hidden_size_per_layer_input),
            ],
            m.s.weights,
        ),
        model.layers@[i].run(
            m.s.weights,
            model.layers@[i].self_attn.tables(model.rotary_emb_global, model.rotary_emb_local),
            xs,
            own,
            shared,
            mask,
            offset,
        ) == Ok::<Layered, Refusal>(l),
    ensures
        ({
            let hidden = cfg.hidden_size as int;
            let width = cfg.hidden_size_per_layer_input as int;
            let wide = match m.s.weights {
                DType::F16 | DType::BF16 => DType::F32,
                d => d,
            };
            let eps = (m.given)(cfg.rms_norm_eps);
            let act = cfg.hidden_activation;
            let path = |module: Module|
                VarPath { layer: Some(i as usize), block: None, module: Some(module) };
            let mlp = |module: Module|
                VarPath { layer: Some(i as usize), block: Some(Block::Mlp), module: Some(module) };
            let scale = (m.scalar)(
                VarPath { layer: Some(i as usize), block: None, module: None },
                0,
            );
            &&& forall|b: int, t: int, c: int|
                0 <= b < b_size && 0 <= t < seq_len && 0 <= c < hidden ==> {
                    &&& #[trigger] m.of3(n.normed, b, t, c) == (m.cast)(
                        m.s.weights,
                        (m.cast)(wide, m.of3(xs, b, t, c)) / m.rms(
                            hidden,
                            |j: int| (m.cast)(wide, m.of3(xs, b, t, j)),
                            eps,
                        ),
                    ) * (m.weight)(path(Module::InputLayernorm), seq![c])
                }
            &&& enters(m, model, cfg, i, n.normed, mask, offset, b_size, seq_len)
            &&& model.layers@[i].self_attn.attention(
                m.s.weights,
                model.layers@[i].self_attn.tables(model.rotary_emb_global, model.rotary_emb_local),
                n.normed,
                shared,
                mask,
                offset,
            ) == Ok::<Attended, Refusal>(n.attended)
            &&& l.action == n.attended.action
            &&& l.stored == n.attended.stored
            &&& forall|b: int, t: int, c: int|
                0 <= b < b_size && 0 <= t < seq_len && 0 <= c < hidden ==> {
                    &&& #[trigger] m.of3(n.mixed, b, t, c) == (m.cast)(
                        m.s.weights,
                        (m.cast)(wide, m.of3(n.attended.out, b, t, c)) / m.rms(
                            hidden,
                            |j: int| (m.cast)(wide, m.of3(n.attended.out, b, t, j)),
                            eps,
                        ),
                    )
                        * (m.weight)(path(Module::PostAttentionLayernorm), seq![c]) + m.of3(
                        xs,
                        b,
                        t,
                        c,
                    )
                }
            &&& forall|b: int, t: int, c: int|
                0 <= b < b_size && 0 <= t < seq_len && 0 <= c < hidden ==> {
                    &&& #[trigger] m.of3(n.inner, b, t, c) == (m.cast)(
                        m.s.weights,
                        (m.cast)(wide, m.of3(n.mixed, b, t, c)) / m.rms(
                            hidden,
                            |j: int| (m.cast)(wide, m.of3(n.mixed, b, t, j)),
                            eps,
                        ),
                    ) * (m.weight)(path(Module::PreFeedforwardLayernorm), seq![c])
                }
            &&& forall|b: int, t: int, o: int|
                0 <= b < b_size && 0 <= t < seq_len && 0 <= o < hidden ==> {
                    &&& #[trigger] m.of3(n.fed, b, t, o) == m.linear(
                        mlp(Module::DownProj),
                        false,
                        cfg.intermediate_size as int,
                        |k: int|
                            (m.act)(
                                act,
                                m.linear(
                                    mlp(Module::GateProj),
                                    false,
                                    hidden,
                                    |c: int| m.of3(n.inner, b, t, c),
                                    k,
                                ),
                            ) * m.linear(
                                mlp(Module::UpProj),
                                false,
                                hidden,
                                |c: int| m.of3(n.inner, b, t, c),
                                k,
                            ),
                        o,
                    )
                }
            &&& forall|b: int, t: int, c: int|
                0 <= b < b_size && 0 <= t < seq_len && 0 <= c < hidden ==> {
                    &&& #[trigger] m.of3(n.behind, b, t, c) == m.of3(n.mixed, b, t, c) + (m.cast)(
                        m.s.weights,
                        (m.cast)(wide, m.of3(n.fed, b, t, c)) / m.rms(
                            hidden,
                            |j: int| (m.cast)(wide, m.of3(n.fed, b, t, j)),
                            eps,
                        ),
                    ) * (m.weight)(
                        path(Module::PostFeedforwardLayernorm),
                        seq![c],
                    )
                }
            &&& if width > 0 && own is Some {
                &&& forall|b: int, t: int, k: int|
                    0 <= b < b_size && 0 <= t < seq_len && 0 <= k < width ==> {
                        &&& #[trigger] m.of3(n.gated, b, t, k) == (m.act)(
                            act,
                            m.linear(
                                path(Module::PerLayerInputGate),
                                false,
                                hidden,
                                |c: int| m.of3(n.behind, b, t, c),
                                k,
                            ),
                        ) * m.of3(own->0, b, t, k)
                    }
                &&& forall|b: int, t: int, o: int|
                    0 <= b < b_size && 0 <= t < seq_len && 0 <= o < hidden ==> {
                        &&& #[trigger] m.of3(n.projected, b, t, o) == m.linear(
                            path(Module::PerLayerProjection),
                            false,
                            width,
                            |k: int| m.of3(n.gated, b, t, k),
                            o,
                        )
                    }
                &&& forall|b: int, t: int, c: int|
                    0 <= b < b_size && 0 <= t < seq_len && 0 <= c < hidden ==> {
                        &&& #[trigger] m.of3(l.out, b, t, c) == (m.of3(n.behind, b, t, c) + (
                        m.cast)(
                            m.s.weights,
                            (m.cast)(wide, m.of3(n.projected, b, t, c)) / m.rms(
                                hidden,
                                |j: int| (m.cast)(wide, m.of3(n.projected, b, t, j)),
                                eps,
                            ),
                        ) * (m.weight)(
                            path(Module::PostPerLayerInputNorm),
                            seq![c],
                        )) * scale
                    }
            } else {
                forall|b: int, t: int, c: int|
                    0 <= b < b_size && 0 <= t < seq_len && 0 <= c < hidden ==> {
                        &&& #[trigger] m.of3(l.out, b, t, c) == m.of3(n.behind, b, t, c) * scale
                    }
            }
        }),
{
    let layer = model.layers@[i];
    let tables = layer.self_attn.tables(model.rotary_emb_global, model.rotary_emb_local);
    let w = m.s.weights;
    let (bd, td) = (Dim::Fixed(b_size), Dim::Fixed(seq_len));
    let d = seq![bd, td, Dim::Fixed(cfg.hidden_size)];
    let (hidden, width) = (cfg.hidden_size, cfg.hidden_size_per_layer_input);
    lemma_layer_fields(model, cfg, w, i);
    lemma_attention_fields(model, cfg, w, i);
    lemma_layer_tables_fit(m.s, model, cfg, i);
    let wide = internal_dtype(w);
    let normed = rms_norm(layer.input_layernorm, w, xs);
    lemma_norm_fits(m.s, layer.input_layernorm, xs, d);
    let a = layer.self_attn.attention(w, tables, normed, shared, mask, offset)->Ok_0;
    assert(layer.self_attn.attention(w, tables, normed, shared, mask, offset) is Ok && l.out
        == layer.behind(w, xs, a.out, own) && l.action == a.action && l.stored == a.stored) by {
        reveal(DecoderLayer::run);
    }
    lemma_attended_fits(m, model, cfg, i, normed, shared, mask, offset, b_size, seq_len);
    assert forall|b: int, t: int, c: int|
        0 <= b < b_size && 0 <= t < seq_len && 0 <= c < hidden implies #[trigger] m.of3(
        normed,
        b,
        t,
        c,
    ) == (m.cast)(
        m.s.weights,
        (m.cast)(wide, m.of3(xs, b, t, c)) / m.rms(
            hidden as int,
            |j: int| (m.cast)(wide, m.of3(xs, b, t, j)),
            (m.given)(cfg.rms_norm_eps),
        ),
    ) * (m.weight)(layer_path(i, None, Module::InputLayernorm), seq![c]) by {
        lemma_norm3(m, layer.input_layernorm, w, xs, b, t, c);
    }
    lemma_mixed_steps(m, layer, xs, a.out, b_size, seq_len, hidden, width);
    let mixed = layer.after_attention(w, xs, a.out);
    let inner = rms_norm(layer.pre_feedforward_layernorm, w, mixed);
    let fed = feed_forward(layer.mlp, inner);
    let behind = layer.after_mlp(w, mixed);
    let gated = if width > 0 && own is Some {
        lemma_gated_steps(m, layer, behind, own->0, b_size, seq_len, hidden, width)
    } else {
        (xs, xs)
    };
    let whole = layer.after_per_layer_input(w, behind, own);
    assert(whole.dims() == d);
    assert(l.out == whole.combine(Binary::BroadcastMul, Term::Param(layer.layer_scalar, w)));
    assert forall|b: int, t: int, c: int|
        0 <= b < b_size && 0 <= t < seq_len && 0 <= c < hidden implies #[trigger] m.of3(
        l.out,
        b,
        t,
        c,
    ) == m.of3(whole, b, t, c) * (m.scalar)(layer.layer_scalar.path, 0) by {
        lemma_scaled_numbers(m, whole, layer.layer_scalar, w, b, t, c);
    }
    LayerSteps {
        normed,
        attended: a,
        mixed,
        inner,
        fed,
        behind,
        gated: gated.0,
        projected: gated.1,
    }
}

/// Attention gives hidden states for hidden states.
proof fn lemma_attended_fits(
    m: Numbers,
    model: TextModel,
    cfg: Gemma4TextConfig,
    i: int,
    xs: Term,
    shared: Option<(Term, Term)>,
    mask: Option<Term>,
    offset: usize,
    b_size: usize,
    seq_len: usize,
)
    requires
        enters(m, model, cfg, i, xs, mask, offset, b_size, seq_len),
        handed_fits(m, model, i, shared, b_size),
    ensures
        model.layers@[i].self_attn.attention(
            m.s.weights,
            model.layers@[i].self_attn.tables(model.rotary_emb_global, model.rotary_emb_local),
            xs,
            shared,
            mask,
            offset,
        ) matches Ok(a) ==> a.out.has(
            m.s,
            seq![Dim::Fixed(b_size), Dim::Fixed(seq_len), Dim::Fixed(cfg.hidden_size)],
            m.s.weights,
        ),
{
    let att = model.layers@[i].self_attn;
    let tables = att.tables(model.rotary_emb_global, model.rotary_emb_local);
    let (bd, td) = (Dim::Fixed(b_size), Dim::Fixed(seq_len));
    lemma_attention_fields(model, cfg, m.s.weights, i);
    lemma_layer_tables_fit(m.s, model, cfg, i);
    let source = if att.is_kv_shared_layer {
        choose|source: usize| #[trigger]
            kv_fits(m.s, shared->0, bd, att.num_kv_heads, source, att.head_dim)
    } else {
        att.layer_idx
    };
    assert((m.s.cached)(source) == offset + seq_len);
    assert(mask_fits(m.s, mask, bd, td, source));
    lemma_attention_fits(
        m.s,
        att,
        tables,
        xs,
        shared,
        mask,
        offset,
        cfg.max_position_embeddings,
        bd,
        td,
        cfg.hidden_size,
        source,
    );
}

} // verus!
