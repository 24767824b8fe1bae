//! No position depends on a later one.

use crate::attention::{split_heads, Attention, Tables};
use crate::config::Gemma4TextConfig;
use crate::depend::{
    entry_reaches, is_column, is_input, lemma_cached, lemma_input, lemma_param_free,
    lemma_projected, lemma_reshaped, lemma_rowwise, lemma_squeezed, lemma_together,
    lemma_transposed, lemma_with_free, looks_back, reaches, weightless,
};
use crate::fitting::{
    attention_sound, kv_fits, lemma_attend_fits, lemma_attention_fits, lemma_feed_forward_fits,
    lemma_heads_fit, lemma_norm_fits, lemma_own_kv_fits, lemma_plain_norm_fits, lemma_table_fits,
    lemma_turned_fits, mask_fits, tables_fit,
};
use crate::layer::DecoderLayer;
use crate::mask::{attention_mask, blocks, law_mask_entries};
use crate::mlp::{feed_forward, MLP};
use crate::model::TextModel;
use crate::norm::{internal_dtype, lemma_rms_norm_dims, plain_norm, rms_norm, RmsNorm};
use crate::pass::{own_input, Inputs};
use crate::rotary::{both_halves, rotate_half, rows, turned};
use crate::sharing::{lemma_layer_of, lemma_pass_prefix};
use crate::sizes::Setting;
use crate::sound::{
    inputs_fit, layer_sound, lemma_inputs_fit, lemma_layer_sound, lemma_layer_tables_fit,
    lemma_mask_fits, lemma_own_input_fits, lemma_pass_fits, runs_well,
};
use crate::term::{
    broadcast_dims, dim_from_last, dim_mul, Binary, DType, Dim, Embedding, F64Bits, Linear,
    Projection, Scalar, Term, Unary,
};
use vstd::prelude::*;

verus! {

/// Normalization along the last axis keeps looking back along another.
pub proof fn lemma_norm_back(s: Setting, norm: RmsNorm, weights: DType, y: Term, x: Term, axis: int)
    requires
        is_input(x),
        0 <= axis < y.dims().len() - 1,
        looks_back(s, y, x, axis, 0),
    ensures
        looks_back(s, rms_norm(norm, weights, y), x, axis, 0),
{
    let cast = Unary::Cast(internal_dtype(y.dtype()));
    let div = Unary::DivScalar(Scalar::Extent(y.dims().last()));
    let eps = Unary::AddScalar(Scalar::Given(norm.eps));
    let wide = y.apply(cast);
    lemma_rowwise(s, y, cast, x, axis, 0);
    let squares = wide.apply(Unary::Sqr);
    lemma_rowwise(s, wide, Unary::Sqr, x, axis, 0);
    let sum = squares.apply(Unary::SumLast);
    lemma_rowwise(s, squares, Unary::SumLast, x, axis, 0);
    let mean = sum.apply(div);
    lemma_rowwise(s, sum, div, x, axis, 0);
    let shifted = mean.apply(eps);
    lemma_rowwise(s, mean, eps, x, axis, 0);
    let root = shifted.apply(Unary::Sqrt);
    lemma_rowwise(s, shifted, Unary::Sqrt, x, axis, 0);
    let normed = wide.combine(Binary::BroadcastDiv, root);
    lemma_together(s, wide, Binary::BroadcastDiv, root, x, axis, 0);
    let narrow = normed.apply(Unary::Cast(y.dtype()));
    lemma_rowwise(s, normed, Unary::Cast(y.dtype()), x, axis, 0);
    let weight = Term::Param(norm.weight, weights);
    lemma_param_free(x, norm.weight, weights);
    assert(weight.dims().len() == 1);
    let n = narrow.dims().len();
    assert(narrow.combine(Binary::BroadcastMul, weight).dims() == broadcast_dims(
        narrow.dims(),
        weight.dims(),
    ));
    assert(dim_from_last(weight.dims(), n - 1 - axis) == Dim::Fixed(1));
    assert(dim_from_last(narrow.dims(), n - 1 - axis) == narrow.dims()[axis]);
    lemma_with_free(s, narrow, Binary::BroadcastMul, weight, x, axis, 0);
}

/// Normalization without a weight keeps looking back.
pub proof fn lemma_plain_norm_back(s: Setting, eps: F64Bits, y: Term, x: Term, axis: int)
    requires
        is_input(x),
        0 <= axis < y.dims().len() - 1,
        looks_back(s, y, x, axis, 0),
    ensures
        looks_back(s, plain_norm(eps, y), x, axis, 0),
{
    let cast = Unary::Cast(DType::F32);
    let shift = Unary::AddScalar(Scalar::Given(eps));
    let wide = y.apply(cast);
    lemma_rowwise(s, y, cast, x, axis, 0);
    let squares = wide.apply(Unary::Sqr);
    lemma_rowwise(s, wide, Unary::Sqr, x, axis, 0);
    let mean = squares.apply(Unary::MeanLast);
    lemma_rowwise(s, squares, Unary::MeanLast, x, axis, 0);
    let shifted = mean.apply(shift);
    lemma_rowwise(s, mean, shift, x, axis, 0);
    let root = shifted.apply(Unary::Sqrt);
    lemma_rowwise(s, shifted, Unary::Sqrt, x, axis, 0);
    let normed = wide.combine(Binary::BroadcastDiv, root);
    lemma_together(s, wide, Binary::BroadcastDiv, root, x, axis, 0);
    lemma_rowwise(s, normed, Unary::Cast(y.dtype()), x, axis, 0);
}

/// What an input does not go into, it does not go into for some positions and both halves.
proof fn lemma_rows_free(x: Term, table: Term, offset: usize, len: Dim)
    requires
        is_input(x),
        !x.part_of(table),
    ensures
        !x.part_of(both_halves(rows(table, offset, len))),
{
    reveal_with_fuel(Term::part_of, 5);
}

/// Rotation keeps looking back.
pub proof fn lemma_turned_back(
    s: Setting,
    tables: Tables,
    y: Term,
    x: Term,
    positions: usize,
    half: usize,
    offset: usize,
    b: Dim,
    heads: usize,
    t: Dim,
)
    requires
        is_input(x),
        2 * half <= usize::MAX,
        y.has(s, seq![b, Dim::Fixed(heads), t, Dim::Fixed((2 * half) as usize)], s.weights),
        tables.sin.has(s, seq![Dim::Fixed(positions), Dim::Fixed(half)], s.weights),
        tables.cos.has(s, seq![Dim::Fixed(positions), Dim::Fixed(half)], s.weights),
        offset + s.size(t) <= positions,
        !x.part_of(tables.sin),
        !x.part_of(tables.cos),
        looks_back(s, y, x, 2, 0),
    ensures
        looks_back(s, turned(y, tables.sin, tables.cos, offset, t), x, 2, 0),
{
    let w = (2 * half) as usize;
    let d = seq![b, Dim::Fixed(heads), t, Dim::Fixed(w)];
    let wide = seq![Dim::Fixed(1), Dim::Fixed(1), t, Dim::Fixed(w)];
    lemma_table_fits(s, tables.cos, positions, half, offset, t);
    lemma_table_fits(s, tables.sin, positions, half, offset, t);
    lemma_rows_free(x, tables.cos, offset, t);
    lemma_rows_free(x, tables.sin, offset, t);
    let cos = both_halves(rows(tables.cos, offset, t));
    let sin = both_halves(rows(tables.sin, offset, t));
    assert(broadcast_dims(d, wide) =~= d);
    let straight = y.combine(Binary::BroadcastMul, cos);
    assert(straight.dims() == d);
    lemma_with_free(s, y, Binary::BroadcastMul, cos, x, 2, 0);
    let low = Unary::NarrowLast { start: 0, count: w / 2 };
    let high = Unary::NarrowLast { start: w / 2, count: (w - w / 2) as usize };
    let first = y.apply(low);
    lemma_rowwise(s, y, low, x, 2, 0);
    let second = y.apply(high);
    lemma_rowwise(s, y, high, x, 2, 0);
    let negated = second.apply(Unary::Neg);
    lemma_rowwise(s, second, Unary::Neg, x, 2, 0);
    let turn = negated.combine(Binary::CatLast, first);
    lemma_together(s, negated, Binary::CatLast, first, x, 2, 0);
    assert(rotate_half(y) == turn);
    let across = turn.combine(Binary::BroadcastMul, sin);
    assert(across.dims() == broadcast_dims(turn.dims(), wide));
    assert(dim_from_last(wide, 1) == t);
    assert(dim_from_last(turn.dims(), 1) == turn.dims()[2]);
    assert(across.dims()[2] == t);
    lemma_with_free(s, turn, Binary::BroadcastMul, sin, x, 2, 0);
    lemma_together(s, straight, Binary::Add, across, x, 2, 0);
}

/// The heads of projected hidden states look back.
pub proof fn lemma_heads_back(
    s: Setting,
    l: Linear,
    xs: Term,
    x: Term,
    b: Dim,
    t: Dim,
    heads: usize,
    width: usize,
)
    requires
        is_input(x),
        xs.dims() == seq![b, t, Dim::Fixed(l.in_dim)],
        looks_back(s, xs, x, 1, 0),
    ensures
        looks_back(
            s,
            split_heads(xs.project(Projection::Own(l)), b, t, heads, width),
            x,
            2,
            0,
        ),
{
    let flat = xs.project(Projection::Own(l));
    lemma_projected(s, xs, Projection::Own(l), x, 1, 0);
    let four = seq![b, t, Dim::Fixed(heads), Dim::Fixed(width)];
    assert(flat.dims().take(2) =~= four.take(2));
    let shaped = flat.reshape(four);
    lemma_reshaped(s, flat, four, x, 1, 0);
    assert(shaped.dims() == four);
    lemma_transposed(s, shaped, 1, 2, x, 0);
}

/// Whether a mask hides from each of `seq_len` tokens behind `offset` others all later
/// ones, or there is one token alone.
pub open spec fn hides_later(mask: Option<Term>, seq_len: usize, offset: usize, x: Term) -> bool {
    match mask {
        Some(m) => {
            &&& !x.part_of(m)
            &&& forall|i: int, j: int|
                0 <= i < seq_len && i + offset < j < seq_len + offset ==> #[trigger] blocks(m, i, j)
        },
        None => seq_len <= 1,
    }
}

/// The masks of a pass hide all later tokens.
pub proof fn lemma_mask_hides_later(
    b_size: usize,
    seq_len: usize,
    offset: usize,
    window: Option<usize>,
    dtype: DType,
    x: Term,
)
    requires
        is_input(x),
    ensures
        hides_later(
            Some(attention_mask(b_size, seq_len, offset, window, dtype)),
            seq_len,
            offset,
            x,
        ),
{
    let m = attention_mask(b_size, seq_len, offset, window, dtype);
    assert(!x.part_of(m)) by {
        reveal_with_fuel(Term::part_of, 5);
    }
    assert forall|i: int, j: int|
        0 <= i < seq_len && i + offset < j < seq_len + offset implies #[trigger] blocks(m, i, j) by {
        law_mask_entries(b_size, seq_len, offset, window, dtype, i, j);
    }
}

/// Where a score counts, it depends on positions up to that of its row.
proof fn lemma_score_back(
    s: Setting,
    q: Term,
    kt: Term,
    mask: Option<Term>,
    x: Term,
    seq_len: usize,
    offset: usize,
    i: int,
    j: int,
    d: int,
)
    requires
        is_input(x),
        q.dims().len() == 4,
        q.dims()[2] == Dim::Fixed(seq_len),
        kt.dims().len() == 4,
        s.size(kt.dims()[3]) == offset + seq_len,
        looks_back(s, q, x, 2, 0),
        looks_back(s, kt, x, 3, offset as int),
        hides_later(mask, seq_len, offset, x),
        0 <= i < seq_len,
        0 <= j < offset + seq_len,
        ({
            let scores = q.combine(Binary::Matmul, kt);
            entry_reaches(
                s,
                match mask {
                    Some(m) => scores.combine(Binary::BroadcastAdd, m),
                    None => scores,
                },
                x,
                i,
                j,
                d,
            )
        }),
    ensures
        0 <= d <= i,
{
    let scores = q.combine(Binary::Matmul, kt);
    if let Some(m) = mask {
        assert(!blocks(m, i, j) && entry_reaches(s, scores, x, i, j, d)) by {
            reveal(entry_reaches);
        }
    }
    assert(reaches(s, q, x, 2, i, d) || reaches(s, kt, x, 3, j, d)) by {
        reveal(entry_reaches);
        reveal(reaches);
    }
}

/// Queries against keys, and values weighted by that, look back.
pub proof fn lemma_attend_back(
    s: Setting,
    att: Attention,
    q: Term,
    k: Term,
    v: Term,
    mask: Option<Term>,
    x: Term,
    b: Dim,
    seq_len: usize,
    offset: usize,
    source: usize,
)
    requires
        is_input(x),
        !att.use_flash_attn,
        q.dims() == seq![
            b,
            Dim::Fixed(att.num_heads),
            Dim::Fixed(seq_len),
            Dim::Fixed(att.head_dim),
        ],
        kv_fits(s, (k, v), b, att.num_kv_heads, source, att.head_dim),
        (s.cached)(source) == offset + seq_len,
        looks_back(s, q, x, 2, 0),
        looks_back(s, k, x, 2, offset as int),
        looks_back(s, v, x, 2, offset as int),
        hides_later(mask, seq_len, offset, x),
        mask matches Some(m) ==> m.dims() == seq![
            b,
            Dim::Fixed(1),
            Dim::Fixed(seq_len),
            Dim::Fixed((offset + seq_len) as usize),
        ],
    ensures
        looks_back(s, att.attend(q, k, v, mask), x, 2, 0),
{
    let held = offset as int;
    let repeat = Unary::RepeatKv(att.num_kv_groups);
    let k_rep = k.apply(repeat);
    lemma_rowwise(s, k, repeat, x, 2, held);
    let k_all = k_rep.apply(Unary::Contiguous);
    lemma_rowwise(s, k_rep, Unary::Contiguous, x, 2, held);
    let v_rep = v.apply(repeat);
    lemma_rowwise(s, v, repeat, x, 2, held);
    let v_all = v_rep.apply(Unary::Contiguous);
    lemma_rowwise(s, v_rep, Unary::Contiguous, x, 2, held);
    let kt = k_all.apply(Unary::Transpose(2, 3));
    lemma_transposed(s, k_all, 2, 3, x, held);
    assert(kt.dims()[3] == Dim::Cached(source));
    let scores = q.combine(Binary::Matmul, kt);
    assert(scores.dims() =~= seq![
        b,
        Dim::Fixed(att.num_heads),
        Dim::Fixed(seq_len),
        Dim::Cached(source),
    ]);
    let masked = match mask {
        Some(m) => scores.combine(Binary::BroadcastAdd, m),
        None => scores,
    };
    assert(masked.dims() =~= scores.dims());
    let probs = masked.apply(Unary::SoftmaxLast);
    assert(probs.dims() == masked.dims());
    let out = probs.combine(Binary::Matmul, v_all);
    assert(out == att.attend(q, k, v, mask));
    assert(out.dims().len() == 4 && out.dims()[2] == probs.dims()[2]);
    assert forall|i: int, d: int|
        0 <= i < s.size(out.dims()[2]) && #[trigger] reaches(s, out, x, 2, i, d) implies 0 <= d
        <= i by {
        if reaches(s, probs, x, 2, i, d) {
            assert(exists|j: int| #[trigger] is_column(s, masked, j) && entry_reaches(s, masked, x, i, j, d))
                by {
                reveal(reaches);
                reveal(entry_reaches);
            }
            let j = choose|j: int|
                #[trigger] is_column(s, masked, j) && entry_reaches(s, masked, x, i, j, d);
            lemma_score_back(s, q, kt, mask, x, seq_len, offset, i, j, d);
        } else {
            assert(exists|j: int|
                #[trigger] is_column(s, probs, j) && !weightless(probs, i, j) && reaches(
                    s,
                    v_all,
                    x,
                    2,
                    j,
                    d,
                )) by {
                reveal(reaches);
            }
            let j = choose|j: int|
                #[trigger] is_column(s, probs, j) && !weightless(probs, i, j) && reaches(
                    s,
                    v_all,
                    x,
                    2,
                    j,
                    d,
                );
            assert(v_all.dims()[2] == Dim::Cached(source));
            if let Some(m) = mask {
                assert(!blocks(m, i, j));
            }
        }
    }
}

/// The mask of a pass over `seq_len` tokens behind `offset` others; a single token needs
/// none.
pub open spec fn pass_mask(
    b_size: usize,
    seq_len: usize,
    offset: usize,
    window: Option<usize>,
    dtype: DType,
) -> Option<Term> {
    if seq_len <= 1 {
        None
    } else {
        Some(attention_mask(b_size, seq_len, offset, window, dtype))
    }
}

/// Whether keys and values depend only on positions up to their own, behind `offset`
/// others.
pub open spec fn kv_looks_back(s: Setting, kv: (Term, Term), x: Term, offset: usize) -> bool {
    looks_back(s, kv.0, x, 2, offset as int) && looks_back(s, kv.1, x, 2, offset as int)
}

/// The keys and values that a layer finds in its cache look back.
proof fn lemma_own_kv_back(
    s: Setting,
    att: Attention,
    tables: Tables,
    xs: Term,
    x: Term,
    offset: usize,
    positions: usize,
    b: Dim,
    t: Dim,
    hidden: usize,
)
    requires
        is_input(x),
        attention_sound(att, hidden),
        !att.is_kv_shared_layer,
        tables_fit(s, tables, att.head_dim, positions),
        !x.part_of(tables.sin),
        !x.part_of(tables.cos),
        xs.has(s, seq![b, t, Dim::Fixed(hidden)], s.weights),
        offset + s.size(t) <= positions,
        (s.cached)(att.layer_idx) == offset + s.size(t),
        att.queries(s.weights, xs).dims() == seq![
            b,
            Dim::Fixed(att.num_heads),
            t,
            Dim::Fixed(att.head_dim),
        ],
        looks_back(s, xs, x, 1, 0),
    ensures
        ({
            let action = Term::Append {
                layer: att.layer_idx,
                fresh: att.kv_cache.empty,
                k: Box::new(att.keys(s.weights, tables, xs, offset)),
                v: Box::new(att.values(xs)),
            };
            kv_looks_back(
                s,
                (Term::CachedKeys(Box::new(action)), Term::CachedValues(Box::new(action))),
                x,
                offset,
            )
        }),
{
    let half = att.head_dim / 2;
    assert(2 * half == att.head_dim);
    let kd = seq![b, Dim::Fixed(att.num_kv_heads), t, Dim::Fixed(att.head_dim)];
    let (kp, vp) = (att.k_proj->0, att.v_proj->0);
    let k_split = split_heads(
        xs.project(Projection::Own(kp)),
        b,
        t,
        att.num_kv_heads,
        att.head_dim,
    );
    lemma_heads_fit(s, kp, xs, b, t, att.num_kv_heads, att.head_dim);
    lemma_heads_back(s, kp, xs, x, b, t, att.num_kv_heads, att.head_dim);
    lemma_norm_fits(s, att.k_norm->0, k_split, kd);
    lemma_norm_back(s, att.k_norm->0, s.weights, k_split, x, 2);
    let plain = att.plain_keys(s.weights, xs);
    lemma_turned_fits(s, tables, plain, positions, half, offset, b, att.num_kv_heads, t);
    lemma_turned_back(s, tables, plain, x, positions, half, offset, b, att.num_kv_heads, t);
    let v_split = split_heads(
        xs.project(Projection::Own(vp)),
        b,
        t,
        att.num_kv_heads,
        att.head_dim,
    );
    lemma_heads_fit(s, vp, xs, b, t, att.num_kv_heads, att.head_dim);
    lemma_heads_back(s, vp, xs, x, b, t, att.num_kv_heads, att.head_dim);
    lemma_plain_norm_fits(s, att.rms_norm_eps, v_split, kd, s.weights);
    lemma_plain_norm_back(s, att.rms_norm_eps, v_split, x, 2);
    lemma_cached(
        s,
        att.layer_idx,
        att.kv_cache.empty,
        att.keys(s.weights, tables, xs, offset),
        att.values(xs),
        x,
    );
}

/// Attention is causal: where each position of what it is given depends only on positions
/// of the input up to its own, so does each position of what it yields. An input itself
/// depends on its own positions alone, and caches hand back all positions before.
pub proof fn law_attention_is_causal(
    s: Setting,
    att: Attention,
    tables: Tables,
    xs: Term,
    shared: Option<(Term, Term)>,
    window: Option<usize>,
    x: Term,
    offset: usize,
    positions: usize,
    b_size: usize,
    seq_len: usize,
    hidden: usize,
    source: usize,
)
    requires
        is_input(x),
        !att.use_flash_attn,
        attention_sound(att, hidden),
        tables_fit(s, tables, att.head_dim, positions),
        !x.part_of(tables.sin),
        !x.part_of(tables.cos),
        xs.has(
            s,
            seq![Dim::Fixed(b_size), Dim::Fixed(seq_len), Dim::Fixed(hidden)],
            s.weights,
        ),
        looks_back(s, xs, x, 1, 0),
        offset + seq_len <= positions,
        TextModel::masks_fit(seq_len, offset),
        (s.cached)(source) == offset + seq_len,
        att.is_kv_shared_layer ==> (shared matches Some(kv) ==> kv_fits(
            s,
            kv,
            Dim::Fixed(b_size),
            att.num_kv_heads,
            source,
            att.head_dim,
        ) && kv_looks_back(s, kv, x, offset)),
        !att.is_kv_shared_layer ==> source == att.layer_idx,
    ensures
        att.attention(
            s.weights,
            tables,
            xs,
            shared,
            pass_mask(b_size, seq_len, offset, window, s.weights),
            offset,
        ) matches Ok(a) ==> {
            &&& looks_back(s, a.out, x, 1, 0)
            &&& a.stored matches Some(kv) ==> kv_looks_back(s, kv, x, offset)
        },
{
    reveal(Attention::attention);
    let b = Dim::Fixed(b_size);
    let t = Dim::Fixed(seq_len);
    let mask = pass_mask(b_size, seq_len, offset, window, s.weights);
    if let Ok(a) = att.attention(s.weights, tables, xs, shared, mask, offset) {
        let half = att.head_dim / 2;
        assert(2 * half == att.head_dim);
        let split = split_heads(
            xs.project(Projection::Own(att.q_proj)),
            b,
            t,
            att.num_heads,
            att.head_dim,
        );
        let qd = seq![b, Dim::Fixed(att.num_heads), t, Dim::Fixed(att.head_dim)];
        lemma_heads_fit(s, att.q_proj, xs, b, t, att.num_heads, att.head_dim);
        lemma_heads_back(s, att.q_proj, xs, x, b, t, att.num_heads, att.head_dim);
        lemma_norm_fits(s, att.q_norm, split, qd);
        lemma_norm_back(s, att.q_norm, s.weights, split, x, 2);
        let plain = att.queries(s.weights, xs);
        lemma_turned_fits(s, tables, plain, positions, half, offset, b, att.num_heads, t);
        lemma_turned_back(s, tables, plain, x, positions, half, offset, b, att.num_heads, t);
        let q = turned(plain, tables.sin, tables.cos, offset, t);
        let action = Term::Append {
            layer: att.layer_idx,
            fresh: att.kv_cache.empty,
            k: Box::new(att.keys(s.weights, tables, xs, offset)),
            v: Box::new(att.values(xs)),
        };
        let (k, v) = if att.is_kv_shared_layer {
            shared->0
        } else {
            (Term::CachedKeys(Box::new(action)), Term::CachedValues(Box::new(action)))
        };
        if !att.is_kv_shared_layer {
            lemma_own_kv_fits(s, att, tables, xs, offset, positions, b, t, hidden);
            lemma_own_kv_back(s, att, tables, xs, x, offset, positions, b, t, hidden);
        }
        if seq_len > 1 {
            lemma_mask_hides_later(b_size, seq_len, offset, window, s.weights, x);
            lemma_mask_fits(s, b_size, seq_len, offset, window);
        }
        lemma_attend_fits(s, att, q, k, v, mask, b, t, source);
        lemma_attend_back(s, att, q, k, v, mask, x, b, seq_len, offset, source);
        let heads = att.attend(q, k, v, mask);
        let back = heads.apply(Unary::Transpose(1, 2));
        lemma_transposed(s, heads, 2, 1, x, 0);
        let three = seq![
            b,
            t,
            dim_mul(dim_from_last(back.dims(), 1), dim_from_last(back.dims(), 0)),
        ];
        assert(back.dims().take(2) =~= three.take(2));
        lemma_reshaped(s, back, three, x, 1, 0);
        lemma_projected(s, back.reshape(three), Projection::Own(att.o_proj), x, 1, 0);
    }
}

/// The feed-forward block keeps looking back.
proof fn lemma_feed_forward_back(s: Setting, mlp: MLP, y: Term, x: Term)
    requires
        is_input(x),
        y.dims().len() == 3,
        looks_back(s, y, x, 1, 0),
    ensures
        looks_back(s, feed_forward(mlp, y), x, 1, 0),
{
    let (g, u) = (Projection::Own(mlp.gate_proj), Projection::Own(mlp.up_proj));
    let gate = y.project(g);
    lemma_projected(s, y, g, x, 1, 0);
    let lhs = gate.apply(Unary::Activate(mlp.act_fn));
    lemma_rowwise(s, gate, Unary::Activate(mlp.act_fn), x, 1, 0);
    let rhs = y.project(u);
    lemma_projected(s, y, u, x, 1, 0);
    assert(rhs.dims()[1] == y.dims()[1] && lhs.dims()[1] == y.dims()[1]);
    let product = lhs.combine(Binary::Mul, rhs);
    lemma_together(s, lhs, Binary::Mul, rhs, x, 1, 0);
    lemma_projected(s, product, Projection::Own(mlp.down_proj), x, 1, 0);
}

/// The hidden states behind a layer look back where those before it, what attention
/// yields and the layer's own input do.
proof fn lemma_behind_back(
    s: Setting,
    layer: DecoderLayer,
    xs: Term,
    attended: Term,
    per_layer_input: Option<Term>,
    x: Term,
    b: Dim,
    t: Dim,
    hidden: usize,
    width: usize,
)
    requires
        is_input(x),
        layer_sound(layer, hidden, width),
        xs.has(s, seq![b, t, Dim::Fixed(hidden)], s.weights),
        attended.has(s, seq![b, t, Dim::Fixed(hidden)], s.weights),
        per_layer_input matches Some(p) ==> p.has(s, seq![b, t, Dim::Fixed(width)], s.weights)
            && looks_back(s, p, x, 1, 0),
        looks_back(s, xs, x, 1, 0),
        looks_back(s, attended, x, 1, 0),
    ensures
        looks_back(s, layer.behind(s.weights, xs, attended, per_layer_input), x, 1, 0),
{
    let d = seq![b, t, Dim::Fixed(hidden)];
    let w = s.weights;
    lemma_norm_fits(s, layer.post_attention_layernorm, attended, d);
    lemma_norm_back(s, layer.post_attention_layernorm, w, attended, x, 1);
    let normed = rms_norm(layer.post_attention_layernorm, w, attended);
    let a = layer.after_attention(w, xs, attended);
    lemma_together(s, normed, Binary::Add, xs, x, 1, 0);
    assert(a.has(s, d, w));
    lemma_norm_fits(s, layer.pre_feedforward_layernorm, a, d);
    lemma_norm_back(s, layer.pre_feedforward_layernorm, w, a, x, 1);
    let inner = rms_norm(layer.pre_feedforward_layernorm, w, a);
    lemma_feed_forward_fits(s, layer.mlp, inner, b, t, hidden);
    lemma_feed_forward_back(s, layer.mlp, inner, x);
    let fed = feed_forward(layer.mlp, inner);
    lemma_norm_fits(s, layer.post_feedforward_layernorm, fed, d);
    lemma_norm_back(s, layer.post_feedforward_layernorm, w, fed, x, 1);
    let outer = rms_norm(layer.post_feedforward_layernorm, w, fed);
    let m = layer.after_mlp(w, a);
    lemma_together(s, a, Binary::Add, outer, x, 1, 0);
    assert(m.has(s, d, w));
    let p = layer.after_per_layer_input(w, m, per_layer_input);
    assert(looks_back(s, p, x, 1, 0) && p.dims() == d) by {
        match (
            layer.per_layer_input_gate,
            layer.per_layer_projection,
            layer.post_per_layer_input_norm,
            layer.per_layer_activation,
            per_layer_input,
        ) {
            (Some(gate), Some(projection), Some(norm), Some(activation), Some(input)) => {
                let (g, o) = (Projection::Own(gate), Projection::Own(projection));
                let gated = m.project(g);
                lemma_projected(s, m, g, x, 1, 0);
                let active = gated.apply(Unary::Activate(activation));
                lemma_rowwise(s, gated, Unary::Activate(activation), x, 1, 0);
                assert(active.dims()[1] == t);
                let ple = active.combine(Binary::Mul, input);
                lemma_together(s, active, Binary::Mul, input, x, 1, 0);
                let projected = ple.project(o);
                lemma_projected(s, ple, o, x, 1, 0);
                assert(projected.dims() =~= d);
                lemma_norm_back(s, norm, w, projected, x, 1);
                lemma_rms_norm_dims(norm, w, projected);
                let mixed = rms_norm(norm, w, projected);
                assert(mixed.dims().len() == 3 && mixed.dims()[1] == t);
                lemma_together(s, m, Binary::Add, mixed, x, 1, 0);
            },
            _ => {},
        }
    }
    let scalar = Term::Param(layer.layer_scalar, w);
    lemma_param_free(x, layer.layer_scalar, w);
    assert(scalar.dims().len() == 1);
    let out = p.combine(Binary::BroadcastMul, scalar);
    assert(out.dims() == broadcast_dims(p.dims(), scalar.dims()));
    assert(dim_from_last(scalar.dims(), 1) == Dim::Fixed(1));
    assert(dim_from_last(p.dims(), 1) == t);
    lemma_with_free(s, p, Binary::BroadcastMul, scalar, x, 1, 0);
}

/// An input does not go into the angle tables.
proof fn lemma_tables_free(model: TextModel, cfg: Gemma4TextConfig, dtype: DType, x: Term)
    requires
        model.belongs_to(cfg, dtype),
        is_input(x),
    ensures
        !x.part_of(model.rotary_emb_global.sin@),
        !x.part_of(model.rotary_emb_global.cos@),
        !x.part_of(model.rotary_emb_local.sin@),
        !x.part_of(model.rotary_emb_local.cos@),
{
    reveal_with_fuel(Term::part_of, 7);
}

/// Whether what a pass starts from depends only on positions of the input up to its own,
/// and its masks hide later tokens.
pub open spec fn inputs_look_back(
    s: Setting,
    inputs: Inputs,
    x: Term,
    window: usize,
    b_size: usize,
    seq_len: usize,
) -> bool {
    &&& looks_back(s, inputs.xs, x, 1, 0)
    &&& inputs.per_layer matches Some(p) ==> looks_back(s, p, x, 1, 0)
    &&& inputs.full_mask == pass_mask(b_size, seq_len, inputs.offset, None, s.weights)
    &&& inputs.sliding_mask == pass_mask(b_size, seq_len, inputs.offset, Some(window), s.weights)
}

/// Whether keys and values, where there are some, look back.
pub open spec fn at_hand_looks_back(
    s: Setting,
    kv: Option<(Term, Term)>,
    x: Term,
    offset: usize,
) -> bool {
    kv matches Some(pair) ==> kv_looks_back(s, pair, x, offset)
}

/// Layers keep looking back.
proof fn lemma_pass_back(
    s: Setting,
    model: TextModel,
    cfg: Gemma4TextConfig,
    inputs: Inputs,
    x: Term,
    window: usize,
    b_size: usize,
    seq_len: usize,
    n: nat,
)
    requires
        is_input(x),
        !cfg.use_flash_attn,
        model.belongs_to(cfg, s.weights),
        cfg.sound(),
        inputs_fit(s, cfg, inputs, Dim::Fixed(b_size), Dim::Fixed(seq_len)),
        inputs_look_back(s, inputs, x, window, b_size, seq_len),
        TextModel::masks_fit(seq_len, inputs.offset),
        forall|l: usize| #[trigger] (s.cached)(l) == inputs.offset + seq_len,
        n <= cfg.num_hidden_layers,
        model.pass(inputs, n) is Ok,
    ensures
        ({
            let p = model.pass(inputs, n)->Ok_0;
            &&& looks_back(s, p.xs, x, 1, 0)
            &&& at_hand_looks_back(s, p.sliding_kv, x, inputs.offset)
            &&& at_hand_looks_back(s, p.full_kv, x, inputs.offset)
        }),
    decreases n,
{
    if n > 0 {
        let i = n - 1;
        lemma_pass_back(s, model, cfg, inputs, x, window, b_size, seq_len, i as nat);
        let b = Dim::Fixed(b_size);
        let t = Dim::Fixed(seq_len);
        lemma_pass_fits(s, model, cfg, inputs, b, t, i as nat);
        let p = model.pass(inputs, i as nat)->Ok_0;
        lemma_layer_of(model, cfg, s.weights, i);
        lemma_layer_sound(model, cfg, s.weights, i);
        lemma_tables_free(model, cfg, s.weights, x);
        lemma_layer_tables_fit(s, model, cfg, i);
        let layer = model.layers@[i];
        let sliding = cfg.sliding@[i];
        let tables = layer.self_attn.tables(model.rotary_emb_global, model.rotary_emb_local);
        let own = own_input(inputs.per_layer, i as usize);
        if let Some(per_layer) = inputs.per_layer {
            lemma_own_input_back(s, cfg, per_layer, x, b, t, i as usize);
        }
        let shared = p.kv(sliding);
        let source = if layer.self_attn.is_kv_shared_layer && shared is Some {
            choose|source: usize| #[trigger]
                kv_fits(
                    s,
                    shared->0,
                    b,
                    cfg.kind_kv_heads(sliding),
                    source,
                    cfg.kind_head_dim(sliding),
                )
        } else {
            layer.self_attn.layer_idx
        };
        let kind = if sliding {
            Some(window)
        } else {
            None
        };
        let mask = pass_mask(b_size, seq_len, inputs.offset, kind, s.weights);
        let d = seq![b, t, Dim::Fixed(cfg.hidden_size)];
        let normed = rms_norm(layer.input_layernorm, s.weights, p.xs);
        lemma_norm_fits(s, layer.input_layernorm, p.xs, d);
        lemma_norm_back(s, layer.input_layernorm, s.weights, p.xs, x, 1);
        assert((s.cached)(source) == inputs.offset + seq_len);
        law_attention_is_causal(
            s,
            layer.self_attn,
            tables,
            normed,
            shared,
            kind,
            x,
            inputs.offset,
            cfg.max_position_embeddings,
            b_size,
            seq_len,
            cfg.hidden_size,
            source,
        );
        assert(mask_fits(s, mask, b, t, source));
        lemma_attention_fits(
            s,
            layer.self_attn,
            tables,
            normed,
            shared,
            mask,
            inputs.offset,
            cfg.max_position_embeddings,
            b,
            t,
            cfg.hidden_size,
            source,
        );
        assert(layer.self_attn.attention(
            s.weights,
            tables,
            normed,
            shared,
            mask,
            inputs.offset,
        ) is Ok && model.step(inputs, p, i) is Ok) by {
            reveal(DecoderLayer::run);
        }
        let a = layer.self_attn.attention(
            s.weights,
            tables,
            normed,
            shared,
            mask,
            inputs.offset,
        )->Ok_0;
        lemma_behind_back(
            s,
            layer,
            p.xs,
            a.out,
            own,
            x,
            b,
            t,
            cfg.hidden_size,
            cfg.hidden_size_per_layer_input,
        );
        let l = model.step(inputs, p, i)->Ok_0;
        assert(l.out == layer.behind(s.weights, p.xs, a.out, own) && l.stored == a.stored) by {
            reveal(DecoderLayer::run);
        }
    }
}

/// A layer's part of the layers' own inputs looks back where these do.
proof fn lemma_own_input_back(
    s: Setting,
    cfg: Gemma4TextConfig,
    per_layer: Term,
    x: Term,
    b: Dim,
    t: Dim,
    i: usize,
)
    requires
        is_input(x),
        i < cfg.num_hidden_layers,
        per_layer.has(
            s,
            seq![
                b,
                t,
                Dim::Fixed(cfg.num_hidden_layers),
                Dim::Fixed(cfg.hidden_size_per_layer_input),
            ],
            s.weights,
        ),
        looks_back(s, per_layer, x, 1, 0),
    ensures
        own_input(Some(per_layer), i) matches Some(p) && looks_back(s, p, x, 1, 0) && p.has(
            s,
            seq![b, t, Dim::Fixed(cfg.hidden_size_per_layer_input)],
            s.weights,
        ),
{
    let (n, width) = (cfg.num_hidden_layers, cfg.hidden_size_per_layer_input);
    lemma_own_input_fits(s, per_layer, b, t, n, width, i);
    let narrow = Unary::Narrow { axis: 2, start: i, len: Dim::Fixed(1) };
    lemma_rowwise(s, per_layer, narrow, x, 1, 0);
    lemma_squeezed(s, per_layer.apply(narrow), 2, x, 1, 0);
}

/// The layers' own inputs look back where the embeddings and the token inputs do.
proof fn lemma_per_layer_inputs_back(
    s: Setting,
    model: TextModel,
    cfg: Gemma4TextConfig,
    embeds: Term,
    token_inputs: Option<Term>,
    x: Term,
    b: Dim,
    t: Dim,
)
    requires
        is_input(x),
        model.belongs_to(cfg, s.weights),
        embeds.dims() == seq![b, t, Dim::Fixed(cfg.hidden_size)],
        looks_back(s, embeds, x, 1, 0),
        token_inputs matches Some(y) ==> y.dims().len() == 4 && y.dims()[1] == t && looks_back(
            s,
            y,
            x,
            1,
            0,
        ),
    ensures
        model.per_layer_inputs(s.weights, embeds, token_inputs) matches Ok(Some(y)) ==> looks_back(
            s,
            y,
            x,
            1,
            0,
        ),
{
    if let (Some(projection), Some(norm)) = (
        model.per_layer_model_projection,
        model.per_layer_projection_norm,
    ) {
        let p = Projection::Own(projection);
        let flat = embeds.project(p);
        lemma_projected(s, embeds, p, x, 1, 0);
        let scale = Unary::MulScalar(Scalar::RecipSqrt(model.hidden_size));
        let scaled = flat.apply(scale);
        lemma_rowwise(s, flat, scale, x, 1, 0);
        let four = seq![
            b,
            t,
            Dim::Fixed(model.layers@.len() as usize),
            Dim::Fixed(model.per_layer_input_dim),
        ];
        assert(scaled.dims().take(2) =~= four.take(2));
        let shaped = scaled.reshape(four);
        lemma_reshaped(s, scaled, four, x, 1, 0);
        assert(shaped.dims() == four);
        lemma_norm_back(s, norm, s.weights, shaped, x, 1);
        lemma_rms_norm_dims(norm, s.weights, shaped);
        let projected = rms_norm(norm, s.weights, shaped);
        if let Some(y) = token_inputs {
            let sum = projected.combine(Binary::Add, y);
            lemma_together(s, projected, Binary::Add, y, x, 1, 0);
            lemma_rowwise(s, sum, Unary::MulScalar(Scalar::RecipSqrt(2)), x, 1, 0);
        }
    }
}

/// The decoder is causal: behind every layer of a pass, each position depends only on
/// positions of the input up to its own.
pub proof fn law_decoder_is_causal(
    s: Setting,
    model: TextModel,
    cfg: Gemma4TextConfig,
    xs: Term,
    token_inputs: Option<Term>,
    x: Term,
    offset: usize,
    batch_size: usize,
    seq_len: usize,
    n: nat,
)
    requires
        runs_well(s, model, cfg, xs, token_inputs, offset, batch_size, seq_len),
        forall|l: usize| #[trigger] (s.cached)(l) == offset + seq_len,
        !cfg.use_flash_attn,
        is_input(x),
        looks_back(s, xs, x, 1, 0),
        token_inputs matches Some(y) ==> looks_back(s, y, x, 1, 0),
        n <= cfg.num_hidden_layers,
    ensures
        ({
            let per_layer = model.per_layer_inputs(s.weights, xs, token_inputs)->Ok_0;
            let inputs = model.inputs(s.weights, xs, per_layer, offset, batch_size, seq_len);
            model.pass(inputs, n) matches Ok(p) && looks_back(s, p.xs, x, 1, 0)
        }),
{
    lemma_inputs_fit(s, model, cfg, xs, token_inputs, offset, batch_size, seq_len);
    let per_layer = model.per_layer_inputs(s.weights, xs, token_inputs)->Ok_0;
    let inputs = model.inputs(s.weights, xs, per_layer, offset, batch_size, seq_len);
    lemma_per_layer_inputs_back(
        s,
        model,
        cfg,
        xs,
        token_inputs,
        x,
        Dim::Fixed(batch_size),
        Dim::Fixed(seq_len),
    );
    lemma_pass_prefix(model, inputs, n, cfg.num_hidden_layers as nat);
    lemma_pass_back(s, model, cfg, inputs, x, model.sliding_window, batch_size, seq_len, n);
}

/// The embeddings of tokens, and what the layers' own inputs have of them, depend on each
/// token at its own position alone.
pub proof fn law_embeddings_keep_positions_apart(
    s: Setting,
    model: TextModel,
    batch_size: usize,
    seq_len: usize,
)
    ensures
        ({
            let ids = Term::TokenIds(seq![Dim::Fixed(batch_size), Dim::Fixed(seq_len)]);
            &&& looks_back(s, model.embedded(s.weights, ids), ids, 1, 0)
            &&& model.token_inputs(s.weights, ids) matches Ok(t) && (t matches Some(y)
                ==> looks_back(s, y, ids, 1, 0))
        }),
{
    let (b, t) = (Dim::Fixed(batch_size), Dim::Fixed(seq_len));
    let ids = Term::TokenIds(seq![b, t]);
    assert(ids.dims() == seq![b, t]);
    lemma_looked_up(s, model.embed_tokens, s.weights, ids);
    let found = Term::Lookup(model.embed_tokens, s.weights, Box::new(ids));
    lemma_rowwise(s, found, Unary::MulScalar(Scalar::Sqrt(model.hidden_size)), ids, 1, 0);
    if let Some(table) = model.per_layer_embed_tokens {
        let scale = Unary::MulScalar(Scalar::Sqrt(model.per_layer_input_dim));
        lemma_looked_up(s, table, s.weights, ids);
        let looked = Term::Lookup(table, s.weights, Box::new(ids));
        let scaled = looked.apply(scale);
        lemma_rowwise(s, looked, scale, ids, 1, 0);
        let four = seq![
            b,
            t,
            Dim::Fixed(model.layers@.len() as usize),
            Dim::Fixed(model.per_layer_input_dim),
        ];
        assert(scaled.dims().take(2) =~= four.take(2));
        lemma_reshaped(s, scaled, four, ids, 1, 0);
    }
}

/// The rows of a table that tokens select keep positions apart.
proof fn lemma_looked_up(s: Setting, table: Embedding, dtype: DType, ids: Term)
    requires
        ids is TokenIds,
        ids.dims().len() == 2,
    ensures
        ({
            let t = Term::Lookup(table, dtype, Box::new(ids));
            looks_back(s, t, ids, 1, 0) && t.dims() == ids.dims().push(Dim::Fixed(table.cols))
        }),
{
    let t = Term::Lookup(table, dtype, Box::new(ids));
    lemma_input(s, ids);
    assert(t.dims() == ids.dims().push(Dim::Fixed(table.cols)));
    assert forall|i: int, d: int|
        0 <= i < s.size(t.dims()[1]) && #[trigger] reaches(s, t, ids, 1, i, d) implies 0 <= d <= i
        by {
        assert(reaches(s, ids, ids, 1, i, d)) by {
            reveal(reaches);
        }
    }
}

} // verus!
