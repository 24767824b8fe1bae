//! The numbers that the blocks of a decoder compute.

use crate::attention::{split_heads, Attention, Tables};
use crate::depend::weightless;
use crate::fitting::{lemma_table_fits, lemma_turned_fits};
use crate::mask::blocks;
use crate::mlp::{feed_forward, MLP};
use crate::norm::{internal_dtype, plain_norm, rms_norm, RmsNorm};
use crate::numbers::{
    aligned, along, entries, entry, lemma_aligned, lemma_applied, lemma_combined, lemma_linear,
    lemma_projected_entry, lemma_reshaped_entry, lemma_rms, lemma_share, lemma_total, total,
    Numbers,
};
use crate::rotary::{angles, both_halves, rotate_half, rows, turned};
use crate::term::{
    broadcast_dims, dim_from_last, Activation, Binary, DType, Dim, F64Bits, Linear, Module,
    ParamName, Projection, Scalar, Term, Unary, VarPath,
};
use vstd::prelude::*;

verus! {

/// Division by a tensor of extent one along the last axis.
proof fn lemma_divided(m: Numbers, wide: Term, root: Term, at: Seq<int>)
    requires
        wide.dims().len() > 0,
        m.within(wide.dims(), at),
        root.dims() == wide.dims().update(wide.dims().len() - 1, Dim::Fixed(1)),
    ensures
        entry(m, wide.combine(Binary::BroadcastDiv, root), at) == entry(m, wide, at) / entry(
            m,
            root,
            along(at, 0),
        ),
        wide.combine(Binary::BroadcastDiv, root).dims() == wide.dims(),
{
    let n = wide.dims().len() as int;
    lemma_aligned(m, wide.dims(), at);
    assert forall|i: int| 0 <= i < at.len() implies aligned(root.dims(), at)[i] == along(
        at,
        0,
    )[i] by {
        assert(0 <= at[i] < m.s.size(wide.dims()[i]));
    }
    assert(aligned(root.dims(), at) =~= along(at, 0));
    lemma_combined(m, wide, Binary::BroadcastDiv, root, at);
    let d = broadcast_dims(wide.dims(), root.dims());
    assert forall|i: int| 0 <= i < n implies d[i] == wide.dims()[i] by {
        assert(dim_from_last(wide.dims(), n - 1 - i) == wide.dims()[i]);
        assert(dim_from_last(root.dims(), n - 1 - i) == root.dims()[i]);
    }
    assert(d =~= wide.dims());
}

/// The root mean square along the last axis, as it is computed by a sum.
proof fn lemma_summed_root(m: Numbers, y: Term, cast: DType, eps: F64Bits, at: Seq<int>)
    requires
        y.dims().len() > 0,
        at.len() == y.dims().len(),
    ensures
        ({
            let wide = y.apply(Unary::Cast(cast));
            let root = wide.apply(Unary::Sqr).apply(Unary::SumLast).apply(
                Unary::DivScalar(Scalar::Extent(y.dims().last())),
            ).apply(Unary::AddScalar(Scalar::Given(eps))).apply(Unary::Sqrt);
            &&& root.dims() == y.dims().update(y.dims().len() - 1, Dim::Fixed(1))
            &&& entry(m, root, along(at, 0)) == m.rms(
                m.s.size(y.dims().last()) as int,
                |j: int| (m.cast)(cast, entry(m, y, along(at, j))),
                (m.given)(eps),
            )
        }),
{
    let size = m.s.size(y.dims().last()) as int;
    let wide = y.apply(Unary::Cast(cast));
    let squares = wide.apply(Unary::Sqr);
    let sum = squares.apply(Unary::SumLast);
    let mean = sum.apply(Unary::DivScalar(Scalar::Extent(y.dims().last())));
    let shifted = mean.apply(Unary::AddScalar(Scalar::Given(eps)));
    let root = shifted.apply(Unary::Sqrt);
    let zero = along(at, 0);
    lemma_squares(m, y, cast, at, size);
    assert(wide.dims() == y.dims());
    assert(squares.dims() == wide.dims());
    assert(sum.dims() == y.dims().update(y.dims().len() - 1, Dim::Fixed(1)));
    assert(mean.dims() == sum.dims());
    assert(shifted.dims() == mean.dims());
    assert(root.dims() == shifted.dims());
    lemma_applied(m, squares, Unary::SumLast, zero);
    lemma_applied(m, sum, Unary::DivScalar(Scalar::Extent(y.dims().last())), zero);
    lemma_applied(m, mean, Unary::AddScalar(Scalar::Given(eps)), zero);
    lemma_applied(m, shifted, Unary::Sqrt, zero);
}

/// The sum of squares along the last axis.
proof fn lemma_squares(m: Numbers, y: Term, cast: DType, at: Seq<int>, n: int)
    requires
        at.len() > 0,
    ensures
        ({
            let squares = y.apply(Unary::Cast(cast)).apply(Unary::Sqr);
            let f = entries(m, squares);
            let g = |j: int| (m.cast)(cast, entry(m, y, along(at, j)));
            total(n, |j: int| f(along(along(at, 0), j))) == total(n, |j: int| g(j) * g(j))
        }),
{
    let wide = y.apply(Unary::Cast(cast));
    let squares = wide.apply(Unary::Sqr);
    let f = entries(m, squares);
    let g = |j: int| (m.cast)(cast, entry(m, y, along(at, j)));
    let h = |j: int| f(along(along(at, 0), j));
    let gg = |j: int| g(j) * g(j);
    assert forall|j: int| 0 <= j < n implies #[trigger] h(j) == gg(j) by {
        assert(along(along(at, 0), j) =~= along(at, j));
        lemma_applied(m, y, Unary::Cast(cast), along(at, j));
        lemma_applied(m, wide, Unary::Sqr, along(at, j));
    }
    lemma_total(n, h, gg);
}

/// The numbers of a normalized tensor: each divided by the root mean square along the last
/// axis, times its weight.
pub proof fn lemma_norm_numbers(m: Numbers, norm: RmsNorm, weights: DType, y: Term, at: Seq<int>)
    requires
        y.dims().len() > 0,
        m.within(y.dims(), at),
        norm.weight.name == ParamName::Weight,
        y.dims().last() == Dim::Fixed(norm.weight.len),
    ensures
        ({
            let wide = internal_dtype(y.dtype());
            entry(m, rms_norm(norm, weights, y), at) == (m.cast)(
                y.dtype(),
                (m.cast)(wide, entry(m, y, at)) / m.rms(
                    m.s.size(y.dims().last()) as int,
                    |j: int| (m.cast)(wide, entry(m, y, along(at, j))),
                    (m.given)(norm.eps),
                ),
            ) * (m.weight)(norm.weight.path, seq![at.last()])
        }),
{
    let n = y.dims().len() as int;
    let cast = internal_dtype(y.dtype());
    let wide = y.apply(Unary::Cast(cast));
    let root = wide.apply(Unary::Sqr).apply(Unary::SumLast).apply(
        Unary::DivScalar(Scalar::Extent(y.dims().last())),
    ).apply(Unary::AddScalar(Scalar::Given(norm.eps))).apply(Unary::Sqrt);
    lemma_summed_root(m, y, cast, norm.eps, at);
    let normed = wide.combine(Binary::BroadcastDiv, root);
    lemma_divided(m, wide, root, at);
    lemma_applied(m, y, Unary::Cast(cast), at);
    let narrow = normed.apply(Unary::Cast(y.dtype()));
    lemma_applied(m, normed, Unary::Cast(y.dtype()), at);
    let weight = Term::Param(norm.weight, weights);
    assert(narrow.dims() == y.dims());
    lemma_aligned(m, narrow.dims(), at);
    assert(0 <= at[n - 1] < m.s.size(y.dims()[n - 1]));
    assert(aligned(weight.dims(), at) =~= seq![at.last()]);
    assert(entry(m, weight, seq![at.last()]) == (m.weight)(norm.weight.path, seq![at.last()])) by {
        reveal(entries);
    }
    lemma_combined(m, narrow, Binary::BroadcastMul, weight, at);
}

/// The numbers of a tensor normalized without a weight.
pub proof fn lemma_plain_norm_numbers(m: Numbers, eps: F64Bits, y: Term, at: Seq<int>)
    requires
        y.dims().len() > 0,
        m.within(y.dims(), at),
    ensures
        entry(m, plain_norm(eps, y), at) == (m.cast)(
            y.dtype(),
            (m.cast)(DType::F32, entry(m, y, at)) / m.rms(
                m.s.size(y.dims().last()) as int,
                |j: int| (m.cast)(DType::F32, entry(m, y, along(at, j))),
                (m.given)(eps),
            ),
        ),
{
    let wide = y.apply(Unary::Cast(DType::F32));
    let squares = wide.apply(Unary::Sqr);
    let mean = squares.apply(Unary::MeanLast);
    let shifted = mean.apply(Unary::AddScalar(Scalar::Given(eps)));
    let root = shifted.apply(Unary::Sqrt);
    let zero = along(at, 0);
    lemma_squares(m, y, DType::F32, at, m.s.size(y.dims().last()) as int);
    assert(wide.dims() == y.dims());
    assert(squares.dims() == wide.dims());
    assert(mean.dims() == y.dims().update(y.dims().len() - 1, Dim::Fixed(1)));
    assert(shifted.dims() == mean.dims());
    assert(root.dims() == shifted.dims());
    lemma_applied(m, squares, Unary::MeanLast, zero);
    lemma_applied(m, mean, Unary::AddScalar(Scalar::Given(eps)), zero);
    lemma_applied(m, shifted, Unary::Sqrt, zero);
    let normed = wide.combine(Binary::BroadcastDiv, root);
    lemma_divided(m, wide, root, at);
    lemma_applied(m, y, Unary::Cast(DType::F32), at);
    lemma_applied(m, normed, Unary::Cast(y.dtype()), at);
}

/// The numbers of projected vectors.
pub proof fn lemma_project_numbers(m: Numbers, p: Projection, y: Term, b: int, t: int, o: int)
    requires
        y.dims().len() == 3,
    ensures
        m.of3(y.project(p), b, t, o) == m.linear(
            match p {
                Projection::Own(l) => l.path,
                Projection::Tied(e) => e.path,
            },
            match p {
                Projection::Own(l) => l.bias,
                Projection::Tied(_) => false,
            },
            m.s.size(y.dims()[2]) as int,
            |k: int| m.of3(y, b, t, k),
            o,
        ),
{
    let at = seq![b, t, o];
    let n = m.s.size(y.dims()[2]) as int;
    let all = entries(m, y);
    let f = |k: int| all(along(at, k));
    let g = |k: int| m.of3(y, b, t, k);
    assert forall|k: int| 0 <= k < n implies #[trigger] f(k) == g(k) by {
        assert(along(at, k) =~= seq![b, t, k]);
    }
    lemma_projected_entry(m, y, p, at);
    match p {
        Projection::Own(l) => {
            lemma_linear(m, l.path, l.bias, n, f, g, o);
        },
        Projection::Tied(e) => {
            lemma_linear(m, e.path, false, n, f, g, o);
        },
    }
}

/// Where an entry of heads side by side stands.
pub proof fn lemma_head_places(m: Numbers, b: Dim, t: Dim, heads: usize, width: usize, at: Seq<int>)
    requires
        heads * width <= usize::MAX,
        m.within(seq![b, t, Dim::Fixed(heads), Dim::Fixed(width)], at),
    ensures
        ({
            let three = seq![b, t, Dim::Fixed((heads * width) as usize)];
            let four = seq![b, t, Dim::Fixed(heads), Dim::Fixed(width)];
            let from = seq![at[0], at[1], at[2] * width + at[3]];
            m.within(three, from) && m.flat(three, from) == m.flat(four, at)
        }),
{
    let n = (heads * width) as usize;
    let three = seq![b, t, Dim::Fixed(n)];
    let four = seq![b, t, Dim::Fixed(heads), Dim::Fixed(width)];
    let from = seq![at[0], at[1], at[2] * width + at[3]];
    assert(0 <= at[0] < m.s.size(four[0]));
    assert(0 <= at[1] < m.s.size(four[1]));
    assert(0 <= at[2] < m.s.size(four[2]));
    assert(0 <= at[3] < m.s.size(four[3]));
    let (h, e) = (at[2], at[3]);
    assert(0 <= h * width + e < heads * width) by (nonlinear_arith)
        requires
            0 <= h < heads,
            0 <= e < width,
    ;
    let two = seq![b, t];
    let i = seq![at[0], at[1]];
    assert(three.drop_last() =~= two && from.drop_last() =~= i);
    let mid = four.drop_last();
    assert(mid.drop_last() =~= two && at.drop_last().drop_last() =~= i);
    let q = m.flat(two, i);
    assert(m.flat(three, from) == q * n + (h * width + e));
    assert(at.drop_last().last() == h && mid.last() == Dim::Fixed(heads));
    assert(m.flat(mid, at.drop_last()) == q * heads + h);
    assert(m.flat(four, at) == (q * heads + h) * width + e);
    assert((q * heads + h) * width + e == q * (heads * width) + (h * width + e))
        by (nonlinear_arith);
}

/// The index of an entry of three axes.
pub proof fn lemma_within3(m: Numbers, d: Seq<Dim>, b: int, i: int, j: int)
    requires
        d.len() == 3,
        0 <= b < m.s.size(d[0]),
        0 <= i < m.s.size(d[1]),
        0 <= j < m.s.size(d[2]),
    ensures
        m.within(d, seq![b, i, j]),
{
}

/// The index of an entry of four axes.
pub proof fn lemma_within4(m: Numbers, d: Seq<Dim>, b: int, h: int, i: int, j: int)
    requires
        d.len() == 4,
        0 <= b < m.s.size(d[0]),
        0 <= h < m.s.size(d[1]),
        0 <= i < m.s.size(d[2]),
        0 <= j < m.s.size(d[3]),
    ensures
        m.within(d, seq![b, h, i, j]),
{
}

/// The numbers of normalized vectors of three axes.
pub proof fn lemma_norm3(m: Numbers, norm: RmsNorm, weights: DType, y: Term, b: int, t: int, c: int)
    requires
        y.dims().len() == 3,
        0 <= b < m.s.size(y.dims()[0]),
        0 <= t < m.s.size(y.dims()[1]),
        0 <= c < norm.weight.len,
        norm.weight.name == ParamName::Weight,
        y.dims()[2] == Dim::Fixed(norm.weight.len),
    ensures
        ({
            let wide = internal_dtype(y.dtype());
            m.of3(rms_norm(norm, weights, y), b, t, c) == (m.cast)(
                y.dtype(),
                (m.cast)(wide, m.of3(y, b, t, c)) / m.rms(
                    norm.weight.len as int,
                    |j: int| (m.cast)(wide, m.of3(y, b, t, j)),
                    (m.given)(norm.eps),
                ),
            ) * (m.weight)(norm.weight.path, seq![c])
        }),
{
    let at = seq![b, t, c];
    lemma_within3(m, y.dims(), b, t, c);
    lemma_norm_numbers(m, norm, weights, y, at);
    let wide = internal_dtype(y.dtype());
    let f = |j: int| (m.cast)(wide, entry(m, y, along(at, j)));
    let g = |j: int| (m.cast)(wide, m.of3(y, b, t, j));
    let n = norm.weight.len as int;
    assert forall|j: int| 0 <= j < n implies #[trigger] f(j) == g(j) by {
        assert(along(at, j) =~= seq![b, t, j]);
    }
    lemma_rms(m, n, f, g, (m.given)(norm.eps));
}

/// The numbers of normalized vectors of four axes.
pub proof fn lemma_norm4(
    m: Numbers,
    norm: RmsNorm,
    weights: DType,
    y: Term,
    b: int,
    h: int,
    t: int,
    e: int,
)
    requires
        y.dims().len() == 4,
        0 <= b < m.s.size(y.dims()[0]),
        0 <= h < m.s.size(y.dims()[1]),
        0 <= t < m.s.size(y.dims()[2]),
        0 <= e < norm.weight.len,
        norm.weight.name == ParamName::Weight,
        y.dims()[3] == Dim::Fixed(norm.weight.len),
    ensures
        ({
            let wide = internal_dtype(y.dtype());
            m.of4(rms_norm(norm, weights, y), b, h, t, e) == (m.cast)(
                y.dtype(),
                (m.cast)(wide, m.of4(y, b, h, t, e)) / m.rms(
                    norm.weight.len as int,
                    |j: int| (m.cast)(wide, m.of4(y, b, h, t, j)),
                    (m.given)(norm.eps),
                ),
            ) * (m.weight)(norm.weight.path, seq![e])
        }),
{
    let at = seq![b, h, t, e];
    lemma_within4(m, y.dims(), b, h, t, e);
    lemma_norm_numbers(m, norm, weights, y, at);
    let wide = internal_dtype(y.dtype());
    let f = |j: int| (m.cast)(wide, entry(m, y, along(at, j)));
    let g = |j: int| (m.cast)(wide, m.of4(y, b, h, t, j));
    let n = norm.weight.len as int;
    assert forall|j: int| 0 <= j < n implies #[trigger] f(j) == g(j) by {
        assert(along(at, j) =~= seq![b, h, t, j]);
    }
    lemma_rms(m, n, f, g, (m.given)(norm.eps));
}

/// The numbers of vectors of four axes normalized without a weight.
pub proof fn lemma_plain_norm4(
    m: Numbers,
    eps: F64Bits,
    y: Term,
    width: usize,
    b: int,
    h: int,
    t: int,
    e: int,
)
    requires
        y.dims().len() == 4,
        0 <= b < m.s.size(y.dims()[0]),
        0 <= h < m.s.size(y.dims()[1]),
        0 <= t < m.s.size(y.dims()[2]),
        0 <= e < width,
        y.dims()[3] == Dim::Fixed(width),
    ensures
        m.of4(plain_norm(eps, y), b, h, t, e) == (m.cast)(
            y.dtype(),
            (m.cast)(DType::F32, m.of4(y, b, h, t, e)) / m.rms(
                width as int,
                |j: int| (m.cast)(DType::F32, m.of4(y, b, h, t, j)),
                (m.given)(eps),
            ),
        ),
{
    let at = seq![b, h, t, e];
    lemma_within4(m, y.dims(), b, h, t, e);
    lemma_plain_norm_numbers(m, eps, y, at);
    let f = |j: int| (m.cast)(DType::F32, entry(m, y, along(at, j)));
    let g = |j: int| (m.cast)(DType::F32, m.of4(y, b, h, t, j));
    assert forall|j: int| 0 <= j < width implies #[trigger] f(j) == g(j) by {
        assert(along(at, j) =~= seq![b, h, t, j]);
    }
    lemma_rms(m, width as int, f, g, (m.given)(eps));
}

/// The numbers of projected hidden states, head by head.
pub proof fn lemma_heads_numbers(
    m: Numbers,
    l: Linear,
    xs: Term,
    bd: Dim,
    td: Dim,
    heads: usize,
    width: usize,
    b: int,
    h: int,
    t: int,
    e: int,
)
    requires
        xs.dims() == seq![bd, td, Dim::Fixed(l.in_dim)],
        heads * width <= usize::MAX,
        l.out_dim == heads * width,
        0 <= b < m.s.size(bd),
        0 <= h < heads,
        0 <= t < m.s.size(td),
        0 <= e < width,
    ensures
        m.of4(split_heads(xs.project(Projection::Own(l)), bd, td, heads, width), b, h, t, e)
            == m.linear(
            l.path,
            l.bias,
            l.in_dim as int,
            |k: int| m.of3(xs, b, t, k),
            h * width + e,
        ),
{
    let flat = xs.project(Projection::Own(l));
    let four = seq![bd, td, Dim::Fixed(heads), Dim::Fixed(width)];
    let shaped = flat.reshape(four);
    let at = seq![b, h, t, e];
    let from = seq![b, t, h, e];
    lemma_applied(m, shaped, Unary::Transpose(1, 2), at);
    assert(at.update(1, at[2]).update(2, at[1]) =~= from);
    lemma_within4(m, four, b, t, h, e);
    lemma_head_places(m, bd, td, heads, width, from);
    assert(flat.dims() =~= seq![bd, td, Dim::Fixed((heads * width) as usize)]);
    let place = seq![b, t, h * width + e];
    assert(seq![from[0], from[1], from[2] * width + from[3]] =~= place);
    lemma_reshaped_entry(m, flat, four, from, place);
    lemma_project_numbers(m, Projection::Own(l), xs, b, t, h * width + e);
}

/// The numbers of an angle table for both halves of a head.
proof fn lemma_halves_numbers(
    m: Numbers,
    table: Term,
    positions: usize,
    half: usize,
    offset: usize,
    td: Dim,
    b: int,
    h: int,
    t: int,
    e: int,
)
    requires
        table.has(m.s, seq![Dim::Fixed(positions), Dim::Fixed(half)], m.s.weights),
        offset + m.s.size(td) <= positions,
        2 * half <= usize::MAX,
        0 <= t < m.s.size(td),
        0 <= e < 2 * half,
    ensures
        ({
            let d = both_halves(rows(table, offset, td)).dims();
            entry(m, both_halves(rows(table, offset, td)), aligned(d, seq![b, h, t, e])) == m.of2(
                table,
                offset + t,
                if e < half {
                    e
                } else {
                    e - half
                },
            )
        }),
{
    lemma_table_fits(m.s, table, positions, half, offset, td);
    let some = rows(table, offset, td);
    assert(some.dims() =~= seq![td, Dim::Fixed(half)]);
    let twice = some.combine(Binary::CatLast, some);
    let once = twice.apply(Unary::UnsqueezeFirst);
    let all = once.apply(Unary::UnsqueezeFirst);
    let at = aligned(all.dims(), seq![b, h, t, e]);
    assert(at =~= seq![0, 0, t, e]);
    lemma_applied(m, once, Unary::UnsqueezeFirst, at);
    lemma_applied(m, twice, Unary::UnsqueezeFirst, at.skip(1));
    let place = seq![t, e];
    assert(at.skip(1).skip(1) =~= place);
    lemma_combined(m, some, Binary::CatLast, some, place);
    let i = if e < half {
        e
    } else {
        e - half
    };
    assert(along(place, e - half) =~= seq![t, e - half]);
    let from = seq![t, i];
    lemma_applied(m, table, Unary::Narrow { axis: 0, start: offset, len: td }, from);
    assert(from.update(0, from[0] + offset) =~= seq![offset + t, i]);
}

/// The numbers of heads rotated by angle tables, half a head apart.
pub proof fn lemma_turned_numbers(
    m: Numbers,
    tables: Tables,
    y: Term,
    positions: usize,
    half: usize,
    offset: usize,
    bd: Dim,
    heads: usize,
    td: Dim,
    b: int,
    h: int,
    t: int,
    e: int,
)
    requires
        2 * half <= usize::MAX,
        y.has(m.s, seq![bd, Dim::Fixed(heads), td, Dim::Fixed((2 * half) as usize)], m.s.weights),
        tables.sin.has(m.s, seq![Dim::Fixed(positions), Dim::Fixed(half)], m.s.weights),
        tables.cos.has(m.s, seq![Dim::Fixed(positions), Dim::Fixed(half)], m.s.weights),
        offset + m.s.size(td) <= positions,
        0 <= b < m.s.size(bd),
        0 <= h < heads,
        0 <= t < m.s.size(td),
        0 <= e < 2 * half,
    ensures
        m.of4(turned(y, tables.sin, tables.cos, offset, td), b, h, t, e) == if e < half {
            m.of4(y, b, h, t, e) * m.of2(tables.cos, offset + t, e) + (-m.of4(
                y,
                b,
                h,
                t,
                e + half,
            )) * m.of2(tables.sin, offset + t, e)
        } else {
            m.of4(y, b, h, t, e) * m.of2(tables.cos, offset + t, e - half) + m.of4(
                y,
                b,
                h,
                t,
                e - half,
            ) * m.of2(tables.sin, offset + t, e - half)
        },
{
    let w = (2 * half) as usize;
    let at = seq![b, h, t, e];
    let d = y.dims();
    lemma_within4(m, d, b, h, t, e);
    lemma_aligned(m, d, at);
    lemma_turned_fits(m.s, tables, y, positions, half, offset, bd, heads, td);
    lemma_halves_numbers(m, tables.cos, positions, half, offset, td, b, h, t, e);
    lemma_halves_numbers(m, tables.sin, positions, half, offset, td, b, h, t, e);
    let cos = both_halves(rows(tables.cos, offset, td));
    let sin = both_halves(rows(tables.sin, offset, td));
    let straight = y.combine(Binary::BroadcastMul, cos);
    lemma_combined(m, y, Binary::BroadcastMul, cos, at);
    let low = Unary::NarrowLast { start: 0, count: w / 2 };
    let high = Unary::NarrowLast { start: w / 2, count: (w - w / 2) as usize };
    let (first, second) = (y.apply(low), y.apply(high));
    let negated = second.apply(Unary::Neg);
    let turn = negated.combine(Binary::CatLast, first);
    assert(rotate_half(y) == turn);
    assert(second.dims() == d.update(3, Dim::Fixed(half)));
    assert(negated.dims() == second.dims());
    assert(first.dims() == d.update(3, Dim::Fixed(half)));
    assert(turn.dims() =~= d);
    lemma_combined(m, negated, Binary::CatLast, first, at);
    if e < half {
        lemma_applied(m, second, Unary::Neg, at);
        lemma_applied(m, y, high, at);
        assert(along(at, e + half) =~= seq![b, h, t, e + half]);
    } else {
        let from = along(at, e - half);
        lemma_applied(m, y, low, from);
        assert(along(from, e - half) =~= seq![b, h, t, e - half]);
    }
    let across = turn.combine(Binary::BroadcastMul, sin);
    lemma_combined(m, turn, Binary::BroadcastMul, sin, at);
    lemma_combined(m, straight, Binary::Add, across, at);
}

/// The numbers of a table of angles.
pub proof fn lemma_angle_numbers(
    m: Numbers,
    inv_freq: Term,
    positions: usize,
    dtype: DType,
    p: int,
    i: int,
)
    requires
        positions <= u32::MAX,
        0 <= p < positions,
    ensures
        m.of2(angles(inv_freq, positions, dtype), p, i) == (m.cast)(dtype, p as real) * m.of2(
            inv_freq,
            0,
            i,
        ),
{
    let count = Term::Arange(positions as u32);
    let typed = count.apply(Unary::Cast(dtype));
    let column = seq![Dim::Fixed(positions), Dim::Fixed(1)];
    let t = typed.reshape(column);
    let at = seq![p, i];
    lemma_combined(m, t, Binary::Matmul, inv_freq, at);
    let (f, g) = (entries(m, t), entries(m, inv_freq));
    let h = |k: int| f(along(at, k)) * g(at.update(at.len() - 2, k));
    assert(total(1, h) == h(0)) by {
        reveal_with_fuel(total, 2);
    }
    assert(along(at, 0) =~= seq![p, 0]);
    assert(at.update(0, 0) =~= seq![0, i]);
    let row = seq![Dim::Fixed(positions)];
    assert(count.dims() =~= row);
    assert(typed.dims() == row);
    assert(m.flat(row, seq![p]) == p && m.flat(column, seq![p, 0]) == p) by {
        assert(row.drop_last() =~= Seq::empty());
        assert(column.drop_last() =~= row);
        assert(seq![p, 0].drop_last() =~= seq![p]);
        reveal_with_fuel(Numbers::flat, 3);
        assert(m.flat(row.drop_last(), seq![p].drop_last()) == 0);
        assert(0 * m.s.size(row.last()) == 0) by (nonlinear_arith);
    }
    lemma_reshaped_entry(m, typed, column, seq![p, 0], seq![p]);
    lemma_applied(m, count, Unary::Cast(dtype), seq![p]);
    assert(entry(m, count, seq![p]) == p as real) by {
        reveal(entries);
    }
}

/// The numbers of keys or values repeated for the queries that share them.
proof fn lemma_repeated_numbers(m: Numbers, y: Term, times: usize, b: int, h: int, j: int, e: int)
    ensures
        m.of4(y.apply(Unary::RepeatKv(times)).apply(Unary::Contiguous), b, h, j, e) == m.of4(
            y,
            b,
            h / (times as int),
            j,
            e,
        ),
{
    let at = seq![b, h, j, e];
    let more = y.apply(Unary::RepeatKv(times));
    lemma_applied(m, more, Unary::Contiguous, at);
    lemma_applied(m, y, Unary::RepeatKv(times), at);
    assert(at.update(1, at[1] / (times as int)) =~= seq![b, h / (times as int), j, e]);
}

/// The score of a query with a key.
proof fn lemma_score_numbers(
    m: Numbers,
    q: Term,
    k: Term,
    times: usize,
    width: usize,
    b: int,
    h: int,
    i: int,
    j: int,
)
    requires
        q.dims().len() == 4,
        q.dims()[3] == Dim::Fixed(width),
    ensures
        ({
            let keys = k.apply(Unary::RepeatKv(times)).apply(Unary::Contiguous);
            m.of4(q.combine(Binary::Matmul, keys.apply(Unary::Transpose(2, 3))), b, h, i, j)
                == total(
                width as int,
                |c: int| m.of4(q, b, h, i, c) * m.of4(k, b, h / (times as int), j, c),
            )
        }),
{
    let keys = k.apply(Unary::RepeatKv(times)).apply(Unary::Contiguous);
    let kt = keys.apply(Unary::Transpose(2, 3));
    let at = seq![b, h, i, j];
    lemma_combined(m, q, Binary::Matmul, kt, at);
    let (f, g) = (entries(m, q), entries(m, kt));
    let x = |c: int| f(along(at, c)) * g(at.update(at.len() - 2, c));
    let y = |c: int| m.of4(q, b, h, i, c) * m.of4(k, b, h / (times as int), j, c);
    assert forall|c: int| 0 <= c < width implies #[trigger] x(c) == y(c) by {
        assert(along(at, c) =~= seq![b, h, i, c]);
        let from = at.update(2, c);
        assert(from =~= seq![b, h, c, j]);
        lemma_applied(m, keys, Unary::Transpose(2, 3), from);
        assert(from.update(2, from[3]).update(3, from[2]) =~= seq![b, h, j, c]);
        lemma_repeated_numbers(m, k, times, b, h, j, c);
    }
    lemma_total(width as int, x, y);
}

/// The numbers of values weighted by the shares of scores, where a mask that is added has
/// nothing but zeros where it does not hide.
pub proof fn lemma_attend_numbers(
    m: Numbers,
    att: Attention,
    q: Term,
    k: Term,
    v: Term,
    mask: Option<Term>,
    n: int,
    b: int,
    h: int,
    i: int,
    e: int,
)
    requires
        !att.use_flash_attn,
        q.dims().len() == 4,
        q.dims()[3] == Dim::Fixed(att.head_dim),
        k.dims().len() == 4,
        m.s.size(k.dims()[2]) == n,
        mask matches Some(x) ==> {
            &&& x.dims().len() == 4
            &&& m.s.size(x.dims()[3]) == n
            &&& forall|at: Seq<int>| #[trigger] entry(m, x, at) == 0 as real
        },
        0 <= b < m.s.size(q.dims()[0]),
        0 <= h < m.s.size(q.dims()[1]),
        0 <= i < m.s.size(q.dims()[2]),
        broadcast_last_kept(q, k, mask),
    ensures
        m.of4(att.attend(q, k, v, mask), b, h, i, e) == total(
            n,
            |j: int|
                m.share(
                    n,
                    |j: int| !(mask matches Some(x) && blocks(x, i, j)),
                    |j: int|
                        total(
                            att.head_dim as int,
                            |c: int|
                                m.of4(q, b, h, i, c) * m.of4(
                                    k,
                                    b,
                                    h / (att.num_kv_groups as int),
                                    j,
                                    c,
                                ),
                        ),
                    j,
                ) * m.of4(v, b, h / (att.num_kv_groups as int), j, e),
        ),
{
    let times = att.num_kv_groups;
    let keys = k.apply(Unary::RepeatKv(times)).apply(Unary::Contiguous);
    let values = v.apply(Unary::RepeatKv(times)).apply(Unary::Contiguous);
    let kt = keys.apply(Unary::Transpose(2, 3));
    let scores = q.combine(Binary::Matmul, kt);
    let masked = match mask {
        Some(x) => scores.combine(Binary::BroadcastAdd, x),
        None => scores,
    };
    let probs = masked.apply(Unary::SoftmaxLast);
    let out = probs.combine(Binary::Matmul, values);
    assert(out == att.attend(q, k, v, mask));
    assert(keys.dims()[2] == k.dims()[2] && keys.dims().len() == 4) by {
        assert(k.apply(Unary::RepeatKv(times)).dims()[2] == k.dims()[2]);
    }
    assert(kt.dims().len() == 4 && kt.dims()[3] == k.dims()[2]);
    let d = scores.dims();
    assert(d == q.dims().update(3, k.dims()[2]));
    assert(masked.dims() == d);
    assert(probs.dims() == d);
    let at = seq![b, h, i, e];
    lemma_combined(m, probs, Binary::Matmul, values, at);
    let (f, g) = (entries(m, probs), entries(m, values));
    let x = |j: int| f(along(at, j)) * g(at.update(at.len() - 2, j));
    let counts = |j: int| !(mask matches Some(x) && blocks(x, i, j));
    let score = |j: int|
        total(
            att.head_dim as int,
            |c: int| m.of4(q, b, h, i, c) * m.of4(k, b, h / (times as int), j, c),
        );
    let y = |j: int| m.share(n, counts, score, j) * m.of4(v, b, h / (times as int), j, e);
    assert forall|j: int| 0 <= j < n implies #[trigger] x(j) == y(j) by {
        let place = along(at, j);
        assert(place =~= seq![b, h, i, j]);
        lemma_applied(m, masked, Unary::SoftmaxLast, place);
        let all = entries(m, masked);
        let shares = masked.apply(Unary::SoftmaxLast);
        let counted = |l: int| !weightless(shares, place[place.len() - 2], l);
        let scored = |l: int| all(along(place, l));
        assert forall|l: int| 0 <= l < n implies #[trigger] counted(l) == counts(l) by {}
        assert forall|l: int| 0 <= l < n implies #[trigger] scored(l) == score(l) by {
            let here = seq![b, h, i, l];
            assert(along(place, l) =~= here);
            lemma_score_numbers(m, q, k, times, att.head_dim, b, h, i, l);
            if let Some(x) = mask {
                lemma_combined(m, scores, Binary::BroadcastAdd, x, here);
                lemma_within4(m, d, b, h, i, l);
                lemma_aligned(m, d, here);
                assert(entry(m, x, aligned(x.dims(), here)) == 0 as real);
                assert(entry(m, masked, here) == entry(m, scores, here) + (0 as real));
            }
        }
        lemma_share(m, n, counted, scored, counts, score, j);
        assert(at.update(2, j) =~= seq![b, h, j, e]);
        lemma_repeated_numbers(m, v, times, b, h, j, e);
    }
    lemma_total(n, x, y);
}

/// The numbers of fused attention: it is handed the queries, and the keys and values
/// repeated for the queries that share them, with the positions before the heads.
pub proof fn lemma_fused_numbers(
    m: Numbers,
    att: Attention,
    q: Term,
    k: Term,
    v: Term,
    mask: Option<Term>,
) -> (n: (Term, Term, Term))
    requires
        att.use_flash_attn,
    ensures
        forall|b: int, t: int, h: int, e: int| #[trigger]
            m.of4(n.0, b, t, h, e) == m.of4(q, b, h, t, e),
        forall|b: int, j: int, h: int, e: int| #[trigger]
            m.of4(n.1, b, j, h, e) == m.of4(k, b, h / (att.num_kv_groups as int), j, e),
        forall|b: int, j: int, h: int, e: int| #[trigger]
            m.of4(n.2, b, j, h, e) == m.of4(v, b, h / (att.num_kv_groups as int), j, e),
        forall|b: int, h: int, t: int, e: int| #[trigger]
            m.of4(att.attend(q, k, v, mask), b, h, t, e) == (m.fused)(
                entries(m, n.0),
                entries(m, n.1),
                entries(m, n.2),
                mask is Some,
                seq![b, t, h, e],
            ),
{
    let times = att.num_kv_groups;
    let keys = k.apply(Unary::RepeatKv(times)).apply(Unary::Contiguous);
    let values = v.apply(Unary::RepeatKv(times)).apply(Unary::Contiguous);
    let turn = Unary::Transpose(1, 2);
    let (fq, fk, fv) = (q.apply(turn), keys.apply(turn), values.apply(turn));
    let fused = Term::FlashAttn {
        q: Box::new(fq),
        k: Box::new(fk),
        v: Box::new(fv),
        causal: mask is Some,
    };
    assert(att.attend(q, k, v, mask) == fused.apply(turn));
    assert forall|b: int, t: int, h: int, e: int| #[trigger]
        m.of4(fq, b, t, h, e) == m.of4(q, b, h, t, e) by {
        let at = seq![b, t, h, e];
        lemma_applied(m, q, turn, at);
        assert(at.update(1, at[2]).update(2, at[1]) =~= seq![b, h, t, e]);
    }
    assert forall|b: int, j: int, h: int, e: int| #[trigger]
        m.of4(fk, b, j, h, e) == m.of4(k, b, h / (times as int), j, e) by {
        let at = seq![b, j, h, e];
        lemma_applied(m, keys, turn, at);
        assert(at.update(1, at[2]).update(2, at[1]) =~= seq![b, h, j, e]);
        lemma_repeated_numbers(m, k, times, b, h, j, e);
    }
    assert forall|b: int, j: int, h: int, e: int| #[trigger]
        m.of4(fv, b, j, h, e) == m.of4(v, b, h / (times as int), j, e) by {
        let at = seq![b, j, h, e];
        lemma_applied(m, values, turn, at);
        assert(at.update(1, at[2]).update(2, at[1]) =~= seq![b, h, j, e]);
        lemma_repeated_numbers(m, v, times, b, h, j, e);
    }
    assert forall|b: int, h: int, t: int, e: int| #[trigger]
        m.of4(att.attend(q, k, v, mask), b, h, t, e) == (m.fused)(
            entries(m, fq),
            entries(m, fk),
            entries(m, fv),
            mask is Some,
            seq![b, t, h, e],
        ) by {
        let at = seq![b, h, t, e];
        lemma_applied(m, fused, turn, at);
        assert(at.update(1, at[2]).update(2, at[1]) =~= seq![b, t, h, e]);
        reveal(entries);
    }
    (fq, fk, fv)
}

/// Whether scores of queries and keys keep their extents under a mask.
pub open spec fn broadcast_last_kept(q: Term, k: Term, mask: Option<Term>) -> bool {
    mask matches Some(x) ==> broadcast_dims(q.dims().update(3, k.dims()[2]), x.dims())
        == q.dims().update(3, k.dims()[2])
}

/// The numbers of heads side by side through the output projection.
pub proof fn lemma_merge_numbers(
    m: Numbers,
    att: Attention,
    xs: Term,
    heads: Term,
    bd: Dim,
    td: Dim,
    hidden: usize,
    b: int,
    t: int,
    o: int,
)
    requires
        heads.dims() == seq![bd, Dim::Fixed(att.num_heads), td, Dim::Fixed(att.head_dim)],
        xs.dims() == seq![bd, td, Dim::Fixed(hidden)],
        att.num_heads * att.head_dim <= usize::MAX,
        0 <= b < m.s.size(bd),
        0 <= t < m.s.size(td),
    ensures
        m.of3(att.merge_heads(xs, heads), b, t, o) == m.linear(
            att.o_proj.path,
            att.o_proj.bias,
            att.num_heads * att.head_dim,
            |c: int| m.of4(heads, b, c / (att.head_dim as int), t, c % (att.head_dim as int)),
            o,
        ),
{
    let back = heads.apply(Unary::Transpose(1, 2));
    let four = seq![bd, td, Dim::Fixed(att.num_heads), Dim::Fixed(att.head_dim)];
    assert(back.dims() =~= four);
    let n = att.num_heads * att.head_dim;
    let three = seq![bd, td, Dim::Fixed(n as usize)];
    assert(dim_from_last(back.dims(), 1) == Dim::Fixed(att.num_heads));
    assert(dim_from_last(back.dims(), 0) == Dim::Fixed(att.head_dim));
    let flat = back.reshape(three);
    assert(att.merge_heads(xs, heads) == flat.project(Projection::Own(att.o_proj)));
    lemma_project_numbers(m, Projection::Own(att.o_proj), flat, b, t, o);
    let w = att.head_dim as int;
    let f = |c: int| m.of3(flat, b, t, c);
    let g = |c: int| m.of4(heads, b, c / w, t, c % w);
    assert forall|c: int| 0 <= c < n implies #[trigger] f(c) == g(c) by {
        let (h, e) = (c / w, c % w);
        let heads_count = att.num_heads as int;
        assert(w > 0) by (nonlinear_arith)
            requires
                0 <= c < heads_count * w,
                0 <= w,
        ;
        assert(0 <= h < heads_count && 0 <= e < w && h * w + e == c) by (nonlinear_arith)
            requires
                h == c / w,
                e == c % w,
                0 <= c < heads_count * w,
                w > 0,
        ;
        let at = seq![b, t, h, e];
        lemma_within4(m, four, b, t, h, e);
        lemma_head_places(m, bd, td, att.num_heads, att.head_dim, at);
        assert(seq![at[0], at[1], at[2] * w + at[3]] =~= seq![b, t, c]);
        lemma_reshaped_entry(m, back, three, seq![b, t, c], at);
        lemma_applied(m, heads, Unary::Transpose(1, 2), at);
        assert(at.update(1, at[2]).update(2, at[1]) =~= seq![b, h, t, e]);
    }
    lemma_linear(m, att.o_proj.path, att.o_proj.bias, n, f, g, o);
}

/// The numbers behind a feed-forward block.
pub proof fn lemma_fed_numbers(m: Numbers, mlp: MLP, y: Term, b: int, t: int, o: int)
    requires
        y.dims().len() == 3,
    ensures
        m.of3(feed_forward(mlp, y), b, t, o) == m.linear(
            mlp.down_proj.path,
            mlp.down_proj.bias,
            mlp.gate_proj.out_dim as int,
            |k: int|
                (m.act)(
                    mlp.act_fn,
                    m.linear(
                        mlp.gate_proj.path,
                        mlp.gate_proj.bias,
                        m.s.size(y.dims()[2]) as int,
                        |c: int| m.of3(y, b, t, c),
                        k,
                    ),
                ) * m.linear(
                    mlp.up_proj.path,
                    mlp.up_proj.bias,
                    m.s.size(y.dims()[2]) as int,
                    |c: int| m.of3(y, b, t, c),
                    k,
                ),
            o,
        ),
{
    let (gp, up) = (Projection::Own(mlp.gate_proj), Projection::Own(mlp.up_proj));
    let gate = y.project(gp);
    let lhs = gate.apply(Unary::Activate(mlp.act_fn));
    let rhs = y.project(up);
    let inner = lhs.combine(Binary::Mul, rhs);
    assert(gate.dims().len() == 3 && gate.dims()[2] == Dim::Fixed(mlp.gate_proj.out_dim));
    assert(lhs.dims() == gate.dims());
    assert(inner.dims() == lhs.dims());
    lemma_project_numbers(m, Projection::Own(mlp.down_proj), inner, b, t, o);
    let n = mlp.gate_proj.out_dim as int;
    let size = m.s.size(y.dims()[2]) as int;
    let f = |k: int| m.of3(inner, b, t, k);
    let g = |k: int|
        (m.act)(
            mlp.act_fn,
            m.linear(
                mlp.gate_proj.path,
                mlp.gate_proj.bias,
                size,
                |c: int| m.of3(y, b, t, c),
                k,
            ),
        ) * m.linear(
            mlp.up_proj.path,
            mlp.up_proj.bias,
            size,
            |c: int| m.of3(y, b, t, c),
            k,
        );
    assert forall|k: int| 0 <= k < n implies #[trigger] f(k) == g(k) by {
        let at = seq![b, t, k];
        lemma_combined(m, lhs, Binary::Mul, rhs, at);
        lemma_applied(m, gate, Unary::Activate(mlp.act_fn), at);
        lemma_project_numbers(m, gp, y, b, t, k);
        lemma_project_numbers(m, up, y, b, t, k);
    }
    lemma_linear(m, mlp.down_proj.path, mlp.down_proj.bias, n, f, g, o);
}

/// What a normalization does, in numbers: each entry is divided by the root of the mean of
/// the squares along the last axis, with the given amount added, and scaled by its weight.
/// Half-width numbers are widened for the division and narrowed again behind it.
pub proof fn law_norm_divides_by_the_root(
    m: Numbers,
    dim: usize,
    eps: F64Bits,
    path: VarPath,
    weights: DType,
    y: Term,
    at: Seq<int>,
)
    requires
        y.dims().len() > 0,
        y.dims().last() == Dim::Fixed(dim),
        m.within(y.dims(), at),
    ensures
        ({
            let wide = match y.dtype() {
                DType::F16 | DType::BF16 => DType::F32,
                d => d,
            };
            let squares = |j: int|
                (m.cast)(wide, entry(m, y, at.update(at.len() - 1, j))) * (m.cast)(
                    wide,
                    entry(m, y, at.update(at.len() - 1, j)),
                );
            entry(m, rms_norm(RmsNorm::at(dim, eps, path), weights, y), at) == (m.cast)(
                y.dtype(),
                (m.cast)(wide, entry(m, y, at)) / (m.sqrt)(
                    total(dim as int, squares) / (dim as real) + (m.given)(eps),
                ),
            ) * (m.weight)(path, seq![at.last()])
        }),
{
    let wide = internal_dtype(y.dtype());
    lemma_norm_numbers(m, RmsNorm::at(dim, eps, path), weights, y, at);
    let f = |j: int| (m.cast)(wide, entry(m, y, along(at, j)));
    let g = |j: int| f(j) * f(j);
    let squares = |j: int|
        (m.cast)(wide, entry(m, y, at.update(at.len() - 1, j))) * (m.cast)(
            wide,
            entry(m, y, at.update(at.len() - 1, j)),
        );
    lemma_total(dim as int, g, squares);
}

/// What the normalization of values does, in numbers: each entry is divided by the root of
/// the mean of the squares along the last axis, with the given amount added.
pub proof fn law_plain_norm_divides_by_the_root(
    m: Numbers,
    dim: usize,
    eps: F64Bits,
    y: Term,
    at: Seq<int>,
)
    requires
        y.dims().len() > 0,
        y.dims().last() == Dim::Fixed(dim),
        m.within(y.dims(), at),
    ensures
        ({
            let squares = |j: int|
                (m.cast)(DType::F32, entry(m, y, at.update(at.len() - 1, j))) * (m.cast)(
                    DType::F32,
                    entry(m, y, at.update(at.len() - 1, j)),
                );
            entry(m, plain_norm(eps, y), at) == (m.cast)(
                y.dtype(),
                (m.cast)(DType::F32, entry(m, y, at)) / (m.sqrt)(
                    total(dim as int, squares) / (dim as real) + (m.given)(eps),
                ),
            )
        }),
{
    lemma_plain_norm_numbers(m, eps, y, at);
    let f = |j: int| (m.cast)(DType::F32, entry(m, y, along(at, j)));
    let g = |j: int| f(j) * f(j);
    let squares = |j: int|
        (m.cast)(DType::F32, entry(m, y, at.update(at.len() - 1, j))) * (m.cast)(
            DType::F32,
            entry(m, y, at.update(at.len() - 1, j)),
        );
    lemma_total(dim as int, g, squares);
}

/// What a feed-forward block does, in numbers: its activated gate is multiplied with the
/// upward projection, and the product projected down.
pub proof fn law_feed_forward_is_gated(
    m: Numbers,
    hidden: usize,
    inner: usize,
    act: Activation,
    bias: bool,
    vb: VarPath,
    y: Term,
    b: int,
    t: int,
    o: int,
)
    requires
        y.dims().len() == 3,
        y.dims()[2] == Dim::Fixed(hidden),
    ensures
        ({
            let path = |module: Module|
                VarPath { layer: vb.layer, block: vb.block, module: Some(module) };
            let x = |c: int| m.of3(y, b, t, c);
            let h = hidden as int;
            m.of3(feed_forward(MLP::at(hidden, inner, act, bias, vb), y), b, t, o) == m.linear(
                path(Module::DownProj),
                bias,
                inner as int,
                |k: int|
                    (m.act)(act, m.linear(path(Module::GateProj), bias, h, x, k)) * m.linear(
                        path(Module::UpProj),
                        bias,
                        h,
                        x,
                        k,
                    ),
                o,
            )
        }),
{
    let mlp = MLP::at(hidden, inner, act, bias, vb);
    let h = hidden as int;
    lemma_fed_numbers(m, mlp, y, b, t, o);
    let x = |c: int| m.of3(y, b, t, c);
    let f = |k: int|
        (m.act)(
            mlp.act_fn,
            m.linear(
                mlp.gate_proj.path,
                mlp.gate_proj.bias,
                m.s.size(y.dims()[2]) as int,
                |c: int| m.of3(y, b, t, c),
                k,
            ),
        ) * m.linear(
            mlp.up_proj.path,
            mlp.up_proj.bias,
            m.s.size(y.dims()[2]) as int,
            |c: int| m.of3(y, b, t, c),
            k,
        );
    let path = |module: Module| VarPath { layer: vb.layer, block: vb.block, module: Some(module) };
    let g = |k: int|
        (m.act)(act, m.linear(path(Module::GateProj), bias, h, x, k)) * m.linear(
            path(Module::UpProj),
            bias,
            h,
            x,
            k,
        );
    lemma_linear(m, mlp.down_proj.path, bias, inner as int, f, g, o);
}

/// A common factor of the squares comes out of their sum.
proof fn lemma_total_scaled(
    n: int,
    f: spec_fn(int) -> real,
    g: spec_fn(int) -> real,
    factor: real,
)
    requires
        forall|j: int| 0 <= j < n ==> #[trigger] g(j) == factor * f(j),
    ensures
        total(n, |j: int| g(j) * g(j)) == (factor * factor) * total(n, |j: int| f(j) * f(j)),
    decreases n,
{
    let (ff, gg) = (|j: int| f(j) * f(j), |j: int| g(j) * g(j));
    if n > 0 {
        lemma_total_scaled(n - 1, f, g, factor);
        let (x, y) = (f(n - 1), total(n - 1, ff));
        assert(g(n - 1) == factor * x);
        assert((factor * x) * (factor * x) + (factor * factor) * y == (factor * factor) * (x * x
            + y)) by (nonlinear_arith);
        assert((factor * factor) * y + (factor * x) * (factor * x) == (factor * factor) * (y + x
            * x)) by (nonlinear_arith);
    } else {
        assert((factor * factor) * (0 as real) == 0 as real) by (nonlinear_arith);
    }
}

/// A normalization that adds nothing to the mean forgets the scale of its vectors: where the
/// vectors of one tensor are those of another times a positive number, both become the same.
pub proof fn law_norm_forgets_scale(
    m: Numbers,
    dim: usize,
    eps: F64Bits,
    path: VarPath,
    weights: DType,
    y: Term,
    z: Term,
    at: Seq<int>,
    factor: real,
)
    requires
        y.dims().len() > 0,
        y.dims().last() == Dim::Fixed(dim),
        z.dims() == y.dims(),
        z.dtype() == y.dtype(),
        m.within(y.dims(), at),
        0 < dim,
        factor > 0 as real,
        forall|i: Seq<int>| #[trigger] entry(m, z, i) == factor * entry(m, y, i),
        (m.given)(eps) == 0 as real,
        forall|d: DType, r: real| #[trigger] (m.cast)(d, r) == r,
        forall|r: real|
            r >= 0 as real ==> (#[trigger] (m.sqrt)(r)) >= 0 as real && (m.sqrt)(r) * (m.sqrt)(r)
                == r,
        exists|j: int|
            0 <= j < dim && #[trigger] entry(m, y, at.update(at.len() - 1, j)) != 0 as real,
    ensures
        ({
            let norm = RmsNorm::at(dim, eps, path);
            entry(m, rms_norm(norm, weights, z), at) == entry(m, rms_norm(norm, weights, y), at)
        }),
{
    law_norm_divides_by_the_root(m, dim, eps, path, weights, y, at);
    law_norm_divides_by_the_root(m, dim, eps, path, weights, z, at);
    let n = dim as int;
    let wide = internal_dtype(y.dtype());
    let f = |j: int| (m.cast)(wide, entry(m, y, at.update(at.len() - 1, j)));
    let g = |j: int| (m.cast)(wide, entry(m, z, at.update(at.len() - 1, j)));
    let (ff, gg) = (|j: int| f(j) * f(j), |j: int| g(j) * g(j));
    let of_y = |j: int|
        (m.cast)(wide, entry(m, y, at.update(at.len() - 1, j))) * (m.cast)(
            wide,
            entry(m, y, at.update(at.len() - 1, j)),
        );
    let of_z = |j: int|
        (m.cast)(wide, entry(m, z, at.update(at.len() - 1, j))) * (m.cast)(
            wide,
            entry(m, z, at.update(at.len() - 1, j)),
        );
    lemma_total(n, of_y, ff);
    lemma_total(n, of_z, gg);
    lemma_total_scaled(n, f, g, factor);
    let j = choose|j: int|
        0 <= j < dim && #[trigger] entry(m, y, at.update(at.len() - 1, j)) != 0 as real;
    assert(f(j) != 0 as real);
    lemma_squares_add_up(n, f, j);
    let (sum, count) = (total(n, ff), n as real);
    let (mean, scaled) = (sum / count, total(n, gg) / count);
    assert(mean >= 0 as real) by (nonlinear_arith)
        requires
            mean == sum / count,
            sum > 0 as real,
            count > 0 as real,
    ;
    lemma_squares_add_up(n, g, j);
    let grown = total(n, gg);
    assert(scaled >= 0 as real) by (nonlinear_arith)
        requires
            scaled == grown / count,
            grown >= 0 as real,
            count > 0 as real,
    ;
    lemma_same_ratio(
        entry(m, y, at),
        factor,
        sum,
        count,
        (m.sqrt)(mean + 0 as real),
        (m.sqrt)(scaled + 0 as real),
    );
}

/// Sums of squares are not negative, and above zero where one of the numbers is not zero.
proof fn lemma_squares_add_up(n: int, f: spec_fn(int) -> real, j: int)
    requires
        0 <= n,
    ensures
        total(n, |j: int| f(j) * f(j)) >= 0 as real,
        0 <= j < n && f(j) != 0 as real ==> total(n, |j: int| f(j) * f(j)) > 0 as real,
    decreases n,
{
    if n > 0 {
        lemma_squares_add_up(n - 1, f, j);
        let x = f(n - 1);
        assert(x * x >= 0 as real) by (nonlinear_arith);
        assert(x != 0 as real ==> x * x > 0 as real) by (nonlinear_arith);
    }
}

/// A number and the root by which it is divided grow alike.
proof fn lemma_same_ratio(x: real, factor: real, sum: real, count: real, root: real, grown: real)
    requires
        factor > 0 as real,
        sum > 0 as real,
        count > 0 as real,
        root >= 0 as real,
        grown >= 0 as real,
        root * root == sum / count,
        grown * grown == ((factor * factor) * sum) / count,
    ensures
        (factor * x) / grown == x / root,
{
    let mean = sum / count;
    assert(mean > 0 as real && ((factor * factor) * sum) / count == (factor * factor) * mean)
        by (nonlinear_arith)
        requires
            sum > 0 as real,
            count > 0 as real,
            mean == sum / count,
    ;
    assert(root > 0 as real) by (nonlinear_arith)
        requires
            root >= 0 as real,
            root * root == mean,
            mean > 0 as real,
    ;
    let other = factor * root;
    assert(other > 0 as real && other * other == grown * grown) by (nonlinear_arith)
        requires
            other == factor * root,
            factor > 0 as real,
            root > 0 as real,
            root * root == mean,
            grown * grown == (factor * factor) * mean,
    ;
    assert(grown == other) by (nonlinear_arith)
        requires
            other > 0 as real,
            grown >= 0 as real,
            other * other == grown * grown,
    ;
    assert((factor * x) / grown == x / root) by (nonlinear_arith)
        requires
            grown == factor * root,
            factor > 0 as real,
            root > 0 as real,
    ;
}

} // verus!
