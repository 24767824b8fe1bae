//! In the decoder of a sound configuration every operation finds fitting operands.

use crate::attention::{split_heads, Attention, Tables};
use crate::mlp::{feed_forward, MLP};
use crate::norm::{internal_dtype, plain_norm, rms_norm, RmsNorm};
use crate::rotary::{both_halves, rotate_half, rows, turned};
use crate::sizes::{lemma_count_merged, Setting};
use crate::term::{
    broadcast_dims, dim_from_last, with_last, Binary, DType, Dim, F64Bits, Linear, Projection,
    Scalar, Term, Unary,
};
use vstd::prelude::*;

verus! {

/// Normalization keeps extents that end in the width of its weight.
pub proof fn lemma_norm_fits(s: Setting, norm: RmsNorm, x: Term, d: Seq<Dim>)
    requires
        x.has(s, d, s.weights),
        d.len() > 0,
        d.last() == Dim::Fixed(norm.weight.len),
    ensures
        rms_norm(norm, s.weights, x).has(s, d, s.weights),
{
    let one = with_last(d, Dim::Fixed(1));
    let inner = internal_dtype(s.weights);
    let wide = x.apply(Unary::Cast(inner));
    assert(wide.has(s, d, inner));
    let squares = wide.apply(Unary::Sqr);
    assert(squares.has(s, d, inner));
    let sum = squares.apply(Unary::SumLast);
    assert(sum.has(s, one, inner));
    let mean = sum.apply(Unary::DivScalar(Scalar::Extent(d.last())));
    assert(mean.has(s, one, inner));
    let shifted = mean.apply(Unary::AddScalar(Scalar::Given(norm.eps)));
    assert(shifted.has(s, one, inner));
    let root = shifted.apply(Unary::Sqrt);
    assert(root.has(s, one, inner));
    let normed = wide.combine(Binary::BroadcastDiv, root);
    assert(broadcast_dims(d, one) =~= d);
    assert(s.broadcasts(d, one));
    assert(normed.has(s, d, inner));
    let narrow = normed.apply(Unary::Cast(s.weights));
    assert(narrow.has(s, d, s.weights));
    let weight = Term::Param(norm.weight, s.weights);
    let w = seq![Dim::Fixed(norm.weight.len)];
    assert(weight.has(s, w, s.weights));
    assert(broadcast_dims(d, w) =~= d);
    assert(s.broadcasts(d, w));
    assert(narrow.combine(Binary::BroadcastMul, weight).has(s, d, s.weights));
}

/// Normalization without a weight keeps extents.
pub proof fn lemma_plain_norm_fits(s: Setting, eps: F64Bits, x: Term, d: Seq<Dim>, dtype: DType)
    requires
        x.has(s, d, dtype),
        d.len() > 0,
    ensures
        plain_norm(eps, x).has(s, d, dtype),
{
    let one = with_last(d, Dim::Fixed(1));
    let wide = x.apply(Unary::Cast(DType::F32));
    assert(wide.has(s, d, DType::F32));
    let squares = wide.apply(Unary::Sqr);
    assert(squares.has(s, d, DType::F32));
    let mean = squares.apply(Unary::MeanLast);
    assert(mean.has(s, one, DType::F32));
    let shifted = mean.apply(Unary::AddScalar(Scalar::Given(eps)));
    assert(shifted.has(s, one, DType::F32));
    let root = shifted.apply(Unary::Sqrt);
    assert(root.has(s, one, DType::F32));
    let normed = wide.combine(Binary::BroadcastDiv, root);
    assert(broadcast_dims(d, one) =~= d);
    assert(s.broadcasts(d, one));
    assert(normed.has(s, d, DType::F32));
}

/// A projection gives its own width in place of the one it takes.
pub proof fn lemma_project_fits(s: Setting, p: Projection, x: Term, d: Seq<Dim>)
    requires
        x.has(s, d, s.weights),
        d.len() >= 2,
        d.last() == Dim::Fixed(p.in_dim()),
    ensures
        x.project(p).has(s, with_last(d, Dim::Fixed(p.out_dim())), s.weights),
{
}

/// Heads come out of a projection as wide as all of them.
pub proof fn lemma_heads_fit(
    s: Setting,
    l: Linear,
    xs: Term,
    b: Dim,
    t: Dim,
    heads: usize,
    width: usize,
)
    requires
        xs.has(s, seq![b, t, Dim::Fixed(l.in_dim)], s.weights),
        heads * width <= usize::MAX,
        l.out_dim == heads * width,
    ensures
        split_heads(xs.project(Projection::Own(l)), b, t, heads, width).has(
            s,
            seq![b, Dim::Fixed(heads), t, Dim::Fixed(width)],
            s.weights,
        ),
{
    let flat = xs.project(Projection::Own(l));
    lemma_project_fits(s, Projection::Own(l), xs, seq![b, t, Dim::Fixed(l.in_dim)]);
    let merged = seq![b, t, Dim::Fixed((heads * width) as usize)];
    assert(with_last(seq![b, t, Dim::Fixed(l.in_dim)], Dim::Fixed(l.out_dim)) =~= merged);
    lemma_count_merged(s, b, t, heads, width);
    let four = seq![b, t, Dim::Fixed(heads), Dim::Fixed(width)];
    let shaped = flat.reshape(four);
    assert(shaped.has(s, four, s.weights));
    let turned = shaped.apply(Unary::Transpose(1, 2));
    assert(turned.dims() =~= seq![b, Dim::Fixed(heads), t, Dim::Fixed(width)]);
}

/// The rows of an angle table, for both halves of a head.
pub proof fn lemma_table_fits(
    s: Setting,
    table: Term,
    positions: usize,
    half: usize,
    offset: usize,
    t: Dim,
)
    requires
        table.has(s, seq![Dim::Fixed(positions), Dim::Fixed(half)], s.weights),
        offset + s.size(t) <= positions,
        2 * half <= usize::MAX,
    ensures
        both_halves(rows(table, offset, t)).has(
            s,
            seq![Dim::Fixed(1), Dim::Fixed(1), t, Dim::Fixed((2 * half) as usize)],
            s.weights,
        ),
{
    let some = rows(table, offset, t);
    assert(some.dims() =~= seq![t, Dim::Fixed(half)]);
    assert(some.has(s, seq![t, Dim::Fixed(half)], s.weights));
    let twice = some.combine(Binary::CatLast, some);
    assert(twice.dims() =~= seq![t, Dim::Fixed((2 * half) as usize)]);
    assert(twice.fits(s) && twice.dtype() == s.weights);
    let once = twice.apply(Unary::UnsqueezeFirst);
    assert(once.dims() =~= seq![Dim::Fixed(1), t, Dim::Fixed((2 * half) as usize)]);
    assert(once.fits(s) && once.dtype() == s.weights);
    let again = once.apply(Unary::UnsqueezeFirst);
    assert(again.dims() =~= seq![
        Dim::Fixed(1),
        Dim::Fixed(1),
        t,
        Dim::Fixed((2 * half) as usize),
    ]);
}

/// Rotation keeps the extents of heads of even width.
pub proof fn lemma_turned_fits(
    s: Setting,
    tables: Tables,
    x: Term,
    positions: usize,
    half: usize,
    offset: usize,
    b: Dim,
    heads: usize,
    t: Dim,
)
    requires
        2 * half <= usize::MAX,
        x.has(s, seq![b, Dim::Fixed(heads), t, Dim::Fixed((2 * half) as usize)], s.weights),
        tables.sin.has(s, seq![Dim::Fixed(positions), Dim::Fixed(half)], s.weights),
        tables.cos.has(s, seq![Dim::Fixed(positions), Dim::Fixed(half)], s.weights),
        offset + s.size(t) <= positions,
    ensures
        turned(x, tables.sin, tables.cos, offset, t).has(
            s,
            seq![b, Dim::Fixed(heads), t, Dim::Fixed((2 * half) as usize)],
            s.weights,
        ),
{
    let w = (2 * half) as usize;
    let d = seq![b, Dim::Fixed(heads), t, Dim::Fixed(w)];
    let wide = seq![Dim::Fixed(1), Dim::Fixed(1), t, Dim::Fixed(w)];
    lemma_table_fits(s, tables.cos, positions, half, offset, t);
    lemma_table_fits(s, tables.sin, positions, half, offset, t);
    let cos = both_halves(rows(tables.cos, offset, t));
    let sin = both_halves(rows(tables.sin, offset, t));
    assert(broadcast_dims(d, wide) =~= d);
    assert(s.broadcasts(d, wide));
    let straight = x.combine(Binary::BroadcastMul, cos);
    assert(straight.has(s, d, s.weights));
    let first = x.apply(Unary::NarrowLast { start: 0, count: w / 2 });
    let second = x.apply(Unary::NarrowLast { start: w / 2, count: (w - w / 2) as usize });
    let part = seq![b, Dim::Fixed(heads), t, Dim::Fixed(half)];
    assert(first.dims() =~= part);
    assert(second.dims() =~= part);
    assert(first.has(s, part, s.weights));
    assert(second.has(s, part, s.weights));
    let negated = second.apply(Unary::Neg);
    assert(negated.has(s, part, s.weights));
    let half_turned = negated.combine(Binary::CatLast, first);
    assert(half_turned.dims() =~= d);
    assert(half_turned.has(s, d, s.weights));
    assert(half_turned == rotate_half(x));
    let bent = half_turned.combine(Binary::BroadcastMul, sin);
    assert(bent.has(s, d, s.weights));
    assert(straight.combine(Binary::Add, bent).has(s, d, s.weights));
}

/// The feed-forward block gives hidden states for hidden states.
pub proof fn lemma_feed_forward_fits(s: Setting, mlp: MLP, x: Term, b: Dim, t: Dim, hidden: usize)
    requires
        x.has(s, seq![b, t, Dim::Fixed(hidden)], s.weights),
        mlp.gate_proj.in_dim == hidden,
        mlp.up_proj.in_dim == hidden,
        mlp.gate_proj.out_dim == mlp.up_proj.out_dim,
        mlp.down_proj.in_dim == mlp.up_proj.out_dim,
        mlp.down_proj.out_dim == hidden,
    ensures
        feed_forward(mlp, x).has(s, seq![b, t, Dim::Fixed(hidden)], s.weights),
{
    let d = seq![b, t, Dim::Fixed(hidden)];
    let inner = seq![b, t, Dim::Fixed(mlp.up_proj.out_dim)];
    assert(with_last(d, Dim::Fixed(mlp.up_proj.out_dim)) =~= inner);
    assert(with_last(inner, Dim::Fixed(hidden)) =~= d);
    let gate = x.project(Projection::Own(mlp.gate_proj));
    assert(gate.has(s, inner, s.weights));
    let lhs = gate.apply(Unary::Activate(mlp.act_fn));
    assert(lhs.has(s, inner, s.weights));
    let rhs = x.project(Projection::Own(mlp.up_proj));
    assert(rhs.has(s, inner, s.weights));
    let product = lhs.combine(Binary::Mul, rhs);
    assert(product.has(s, inner, s.weights));
    assert(product.project(Projection::Own(mlp.down_proj)).has(s, d, s.weights));
}

/// Keys or values, repeated for each query head.
proof fn lemma_repeated_fits(
    s: Setting,
    x: Term,
    b: Dim,
    kv_heads: usize,
    groups: usize,
    heads: usize,
    len: Dim,
    width: usize,
)
    requires
        x.has(s, seq![b, Dim::Fixed(kv_heads), len, Dim::Fixed(width)], s.weights),
        kv_heads * groups == heads,
    ensures
        x.apply(Unary::RepeatKv(groups)).apply(Unary::Contiguous).has(
            s,
            seq![b, Dim::Fixed(heads), len, Dim::Fixed(width)],
            s.weights,
        ),
{
    let d = seq![b, Dim::Fixed(heads), len, Dim::Fixed(width)];
    let more = x.apply(Unary::RepeatKv(groups));
    assert(more.dims() =~= d);
    assert(more.has(s, d, s.weights));
    assert(more.apply(Unary::Contiguous).has(s, d, s.weights));
}

/// Whether a mask, where there is one, covers the positions at hand and those in a cache.
pub open spec fn mask_fits(s: Setting, mask: Option<Term>, b: Dim, t: Dim, layer: usize) -> bool {
    mask matches Some(m) ==> (s.cached)(layer) <= usize::MAX && m.has(
        s,
        seq![b, Dim::Fixed(1), t, Dim::Fixed((s.cached)(layer) as usize)],
        s.weights,
    )
}

/// Queries find keys and values of as many heads and of the same width.
pub proof fn lemma_attend_fits(
    s: Setting,
    att: Attention,
    q: Term,
    k: Term,
    v: Term,
    mask: Option<Term>,
    b: Dim,
    t: Dim,
    source: usize,
)
    requires
        q.has(s, seq![b, Dim::Fixed(att.num_heads), t, Dim::Fixed(att.head_dim)], s.weights),
        k.has(
            s,
            seq![b, Dim::Fixed(att.num_kv_heads), Dim::Cached(source), Dim::Fixed(att.head_dim)],
            s.weights,
        ),
        v.has(
            s,
            seq![b, Dim::Fixed(att.num_kv_heads), Dim::Cached(source), Dim::Fixed(att.head_dim)],
            s.weights,
        ),
        att.num_kv_heads * att.num_kv_groups == att.num_heads,
        mask_fits(s, mask, b, t, source),
    ensures
        att.attend(q, k, v, mask).has(
            s,
            seq![b, Dim::Fixed(att.num_heads), t, Dim::Fixed(att.head_dim)],
            s.weights,
        ),
{
    let h = Dim::Fixed(att.num_heads);
    let w = Dim::Fixed(att.head_dim);
    let len = Dim::Cached(source);
    lemma_repeated_fits(
        s,
        k,
        b,
        att.num_kv_heads,
        att.num_kv_groups,
        att.num_heads,
        len,
        att.head_dim,
    );
    lemma_repeated_fits(
        s,
        v,
        b,
        att.num_kv_heads,
        att.num_kv_groups,
        att.num_heads,
        len,
        att.head_dim,
    );
    let k_all = k.apply(Unary::RepeatKv(att.num_kv_groups)).apply(Unary::Contiguous);
    let v_all = v.apply(Unary::RepeatKv(att.num_kv_groups)).apply(Unary::Contiguous);
    let d = seq![b, h, t, w];
    if att.use_flash_attn {
        let qt = q.apply(Unary::Transpose(1, 2));
        let kt = k_all.apply(Unary::Transpose(1, 2));
        let vt = v_all.apply(Unary::Transpose(1, 2));
        assert(qt.dims() =~= seq![b, t, h, w]);
        assert(kt.dims() =~= seq![b, len, h, w]);
        assert(vt.dims() =~= seq![b, len, h, w]);
        assert(qt.has(s, seq![b, t, h, w], s.weights));
        assert(kt.has(s, seq![b, len, h, w], s.weights));
        assert(vt.has(s, seq![b, len, h, w], s.weights));
        let out = Term::FlashAttn {
            q: Box::new(qt),
            k: Box::new(kt),
            v: Box::new(vt),
            causal: mask is Some,
        };
        assert(out.has(s, seq![b, t, h, w], s.weights));
        let back = out.apply(Unary::Transpose(1, 2));
        assert(back.dims() =~= d);
        assert(back.has(s, d, s.weights));
    } else {
        let kt = k_all.apply(Unary::Transpose(2, 3));
        assert(kt.dims() =~= seq![b, h, w, len]);
        assert(kt.has(s, seq![b, h, w, len], s.weights));
        let scores = q.combine(Binary::Matmul, kt);
        let sd = seq![b, h, t, len];
        assert(scores.dims() =~= sd);
        assert(scores.has(s, sd, s.weights));
        let masked = match mask {
            Some(m) => scores.combine(Binary::BroadcastAdd, m),
            None => scores,
        };
        assert(masked.has(s, sd, s.weights)) by {
            if let Some(m) = mask {
                let n = (s.cached)(source) as usize;
                let md = seq![b, Dim::Fixed(1), t, Dim::Fixed(n)];
                assert(broadcast_dims(sd, md) =~= sd);
                assert(s.broadcasts(sd, md));
            }
        }
        let probs = masked.apply(Unary::SoftmaxLast);
        assert(probs.has(s, sd, s.weights));
        let out = probs.combine(Binary::Matmul, v_all);
        assert(out.dims() =~= d);
        assert(out.has(s, d, s.weights));
    }
}

/// The heads side by side give hidden states again.
proof fn lemma_merge_fits(
    s: Setting,
    att: Attention,
    xs: Term,
    heads: Term,
    b: Dim,
    t: Dim,
    hidden: usize,
)
    requires
        heads.has(s, seq![b, Dim::Fixed(att.num_heads), t, Dim::Fixed(att.head_dim)], s.weights),
        xs.dims() == seq![b, t, Dim::Fixed(hidden)],
        att.num_heads * att.head_dim <= usize::MAX,
        att.o_proj.in_dim == att.num_heads * att.head_dim,
        att.o_proj.out_dim == hidden,
    ensures
        att.merge_heads(xs, heads).has(s, seq![b, t, Dim::Fixed(hidden)], s.weights),
{
    let back = heads.apply(Unary::Transpose(1, 2));
    let four = seq![b, t, Dim::Fixed(att.num_heads), Dim::Fixed(att.head_dim)];
    assert(back.dims() =~= four);
    assert(back.has(s, four, s.weights));
    let three = seq![b, t, Dim::Fixed(att.o_proj.in_dim)];
    lemma_count_merged(s, b, t, att.num_heads, att.head_dim);
    let flat = back.reshape(three);
    assert(flat.has(s, three, s.weights));
    assert(with_last(three, Dim::Fixed(hidden)) =~= seq![b, t, Dim::Fixed(hidden)]);
    lemma_project_fits(s, Projection::Own(att.o_proj), flat, three);
    assert(dim_from_last(back.dims(), 1) == Dim::Fixed(att.num_heads));
    assert(dim_from_last(back.dims(), 0) == Dim::Fixed(att.head_dim));
}

/// Whether the widths of a layer's attention agree with each other.
pub open spec fn attention_sound(att: Attention, hidden: usize) -> bool {
    &&& att.num_heads * att.head_dim <= usize::MAX
    &&& att.num_kv_heads * att.num_kv_groups == att.num_heads
    &&& att.head_dim % 2 == 0
    &&& att.q_proj.in_dim == hidden
    &&& att.q_proj.out_dim == att.num_heads * att.head_dim
    &&& att.q_norm.weight.len == att.head_dim
    &&& att.o_proj.in_dim == att.num_heads * att.head_dim
    &&& att.o_proj.out_dim == hidden
    &&& !att.is_kv_shared_layer ==> {
        &&& att.num_kv_heads * att.head_dim <= usize::MAX
        &&& att.k_proj matches Some(l) && l.in_dim == hidden && l.out_dim == att.num_kv_heads
            * att.head_dim
        &&& att.v_proj matches Some(l) && l.in_dim == hidden && l.out_dim == att.num_kv_heads
            * att.head_dim
        &&& att.k_norm matches Some(n) && n.weight.len == att.head_dim
    }
}

/// Whether angle tables are wide enough for heads and long enough for positions.
pub open spec fn tables_fit(
    s: Setting,
    tables: Tables,
    head_dim: usize,
    positions: usize,
) -> bool {
    let d = seq![Dim::Fixed(positions), Dim::Fixed(head_dim / 2)];
    tables.sin.has(s, d, s.weights) && tables.cos.has(s, d, s.weights)
}

/// Whether keys and values of a cache have as many heads, as wide, as given.
pub open spec fn kv_fits(
    s: Setting,
    kv: (Term, Term),
    b: Dim,
    kv_heads: usize,
    source: usize,
    head_dim: usize,
) -> bool {
    let d = seq![b, Dim::Fixed(kv_heads), Dim::Cached(source), Dim::Fixed(head_dim)];
    kv.0.has(s, d, s.weights) && kv.1.has(s, d, s.weights)
}

/// Whether an append, where there is one, puts keys and values of `t` positions into a
/// cache, with as many heads, as wide, as given.
pub open spec fn append_fits(
    s: Setting,
    action: Option<Term>,
    b: Dim,
    kv_heads: usize,
    t: Dim,
    head_dim: usize,
) -> bool {
    let d = seq![b, Dim::Fixed(kv_heads), t, Dim::Fixed(head_dim)];
    action matches Some(a) ==> (a matches Term::Append { k, v, .. } && k.has(s, d, s.weights)
        && v.has(s, d, s.weights))
}

/// Attention gives hidden states for hidden states, puts keys and values of the
/// positions at hand into its cache, and stores some that fit others of its kind.
pub proof fn lemma_attention_fits(
    s: Setting,
    att: Attention,
    tables: Tables,
    xs: Term,
    shared: Option<(Term, Term)>,
    mask: Option<Term>,
    offset: usize,
    positions: usize,
    b: Dim,
    t: Dim,
    hidden: usize,
    source: usize,
)
    requires
        attention_sound(att, hidden),
        tables_fit(s, tables, att.head_dim, positions),
        xs.has(s, seq![b, t, Dim::Fixed(hidden)], s.weights),
        offset + s.size(t) <= positions,
        att.is_kv_shared_layer ==> (shared matches Some(kv) ==> kv_fits(
            s,
            kv,
            b,
            att.num_kv_heads,
            source,
            att.head_dim,
        )),
        !att.is_kv_shared_layer ==> source == att.layer_idx,
        mask_fits(s, mask, b, t, source),
    ensures
        att.attention(s.weights, tables, xs, shared, mask, offset) matches Ok(a) ==> {
            &&& a.out.has(s, seq![b, t, Dim::Fixed(hidden)], s.weights)
            &&& append_fits(s, a.action, b, att.num_kv_heads, t, att.head_dim)
            &&& a.stored matches Some(kv) ==> kv_fits(
                s,
                kv,
                b,
                att.num_kv_heads,
                att.layer_idx,
                att.head_dim,
            )
        },
{
    reveal(Attention::attention);
    if att.attention(s.weights, tables, xs, shared, mask, offset) is Ok {
        let half = att.head_dim / 2;
        assert(2 * half == att.head_dim);
        let split = split_heads(
            xs.project(Projection::Own(att.q_proj)),
            b,
            t,
            att.num_heads,
            att.head_dim,
        );
        let qd = seq![b, Dim::Fixed(att.num_heads), t, Dim::Fixed(att.head_dim)];
        lemma_heads_fit(s, att.q_proj, xs, b, t, att.num_heads, att.head_dim);
        lemma_norm_fits(s, att.q_norm, split, qd);
        let plain = att.queries(s.weights, xs);
        assert(plain.has(s, qd, s.weights));
        lemma_turned_fits(s, tables, plain, positions, half, offset, b, att.num_heads, t);
        let q = turned(plain, tables.sin, tables.cos, offset, t);
        let action = Term::Append {
            layer: att.layer_idx,
            fresh: att.kv_cache.empty,
            k: Box::new(att.keys(s.weights, tables, xs, offset)),
            v: Box::new(att.values(xs)),
        };
        let (k, v) = if att.is_kv_shared_layer {
            shared->0
        } else {
            (Term::CachedKeys(Box::new(action)), Term::CachedValues(Box::new(action)))
        };
        if !att.is_kv_shared_layer {
            lemma_own_kv_fits(s, att, tables, xs, offset, positions, b, t, hidden);
        }
        assert(kv_fits(s, (k, v), b, att.num_kv_heads, source, att.head_dim));
        lemma_attend_fits(s, att, q, k, v, mask, b, t, source);
        lemma_merge_fits(s, att, xs, att.attend(q, k, v, mask), b, t, hidden);
    }
}

/// The keys and values that a layer puts into its cache.
pub proof fn lemma_own_kv_fits(
    s: Setting,
    att: Attention,
    tables: Tables,
    xs: Term,
    offset: usize,
    positions: usize,
    b: Dim,
    t: Dim,
    hidden: usize,
)
    requires
        attention_sound(att, hidden),
        !att.is_kv_shared_layer,
        tables_fit(s, tables, att.head_dim, positions),
        xs.has(s, seq![b, t, Dim::Fixed(hidden)], s.weights),
        offset + s.size(t) <= positions,
        att.queries(s.weights, xs).dims() == seq![
            b,
            Dim::Fixed(att.num_heads),
            t,
            Dim::Fixed(att.head_dim),
        ],
    ensures
        ({
            let action = Term::Append {
                layer: att.layer_idx,
                fresh: att.kv_cache.empty,
                k: Box::new(att.keys(s.weights, tables, xs, offset)),
                v: Box::new(att.values(xs)),
            };
            &&& append_fits(s, Some(action), b, att.num_kv_heads, t, att.head_dim)
            &&& kv_fits(
                s,
                (Term::CachedKeys(Box::new(action)), Term::CachedValues(Box::new(action))),
                b,
                att.num_kv_heads,
                att.layer_idx,
                att.head_dim,
            )
        }),
{
    let half = att.head_dim / 2;
    assert(2 * half == att.head_dim);
    let kd = seq![b, Dim::Fixed(att.num_kv_heads), t, Dim::Fixed(att.head_dim)];
    let k_split = split_heads(
        xs.project(Projection::Own(att.k_proj->0)),
        b,
        t,
        att.num_kv_heads,
        att.head_dim,
    );
    lemma_heads_fit(s, att.k_proj->0, xs, b, t, att.num_kv_heads, att.head_dim);
    lemma_norm_fits(s, att.k_norm->0, k_split, kd);
    let k_normed = rms_norm(att.k_norm->0, s.weights, k_split);
    lemma_turned_fits(s, tables, k_normed, positions, half, offset, b, att.num_kv_heads, t);
    let k = att.keys(s.weights, tables, xs, offset);
    assert(k.has(s, kd, s.weights));
    let v_split = split_heads(
        xs.project(Projection::Own(att.v_proj->0)),
        b,
        t,
        att.num_kv_heads,
        att.head_dim,
    );
    lemma_heads_fit(s, att.v_proj->0, xs, b, t, att.num_kv_heads, att.head_dim);
    lemma_plain_norm_fits(s, att.rms_norm_eps, v_split, kd, s.weights);
    let v = att.values(xs);
    assert(v.has(s, kd, s.weights));
    lemma_cached_fits(
        s,
        att.layer_idx,
        att.kv_cache.empty,
        k,
        v,
        b,
        att.num_kv_heads,
        t,
        att.head_dim,
    );
}

/// What a cache hands back after an append.
proof fn lemma_cached_fits(
    s: Setting,
    layer: usize,
    fresh: bool,
    k: Term,
    v: Term,
    b: Dim,
    kv_heads: usize,
    t: Dim,
    head_dim: usize,
)
    requires
        k.has(s, seq![b, Dim::Fixed(kv_heads), t, Dim::Fixed(head_dim)], s.weights),
        v.has(s, seq![b, Dim::Fixed(kv_heads), t, Dim::Fixed(head_dim)], s.weights),
    ensures
        ({
            let action = Term::Append { layer, fresh, k: Box::new(k), v: Box::new(v) };
            kv_fits(
                s,
                (Term::CachedKeys(Box::new(action)), Term::CachedValues(Box::new(action))),
                b,
                kv_heads,
                layer,
                head_dim,
            )
        }),
{
    let action = Term::Append { layer, fresh, k: Box::new(k), v: Box::new(v) };
    let cd = seq![b, Dim::Fixed(kv_heads), Dim::Cached(layer), Dim::Fixed(head_dim)];
    assert(action.fits(s));
    let keys = Term::CachedKeys(Box::new(action));
    let values = Term::CachedValues(Box::new(action));
    reveal_with_fuel(Term::dims, 2);
    reveal_with_fuel(Term::dtype, 2);
    reveal_with_fuel(Term::cached_dims, 2);
    reveal_with_fuel(Term::cached_dtype, 2);
    assert(keys.dims() =~= cd);
    assert(values.dims() =~= cd);
    assert(keys.has(s, cd, s.weights));
    assert(values.has(s, cd, s.weights));
}

} // verus!
