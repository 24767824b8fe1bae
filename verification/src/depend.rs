//! On which positions of its input a position of a tensor depends.

use crate::mask::blocks;
use crate::sizes::Setting;
use crate::term::{Binary, DType, Dim, Param, Projection, Term, Unary};
use vstd::prelude::*;

verus! {

/// Whether a term is an input that the caller hands in, with positions along axis one.
pub open spec fn is_input(x: Term) -> bool {
    x is Embeds || x is TokenIds
}

/// Whether position `i` of `t` along `axis` may depend on position `d` of the input `x`.
///
/// Operations on single elements keep positions apart, and so do operations along an
/// axis other than `axis`. A cache hands back the positions that it held before, which
/// do not depend on `x`, and behind them those just appended. Where a score is minus
/// infinity under a mask, its weight is zero, so that neither the score nor the value
/// that it weighs counts. Wherever nothing better is known, every position of `x` that
/// goes into `t` counts.
#[verifier::opaque]
pub open spec fn reaches(s: Setting, t: Term, x: Term, axis: int, i: int, d: int) -> bool
    decreases t,
{
    if !x.part_of(t) {
        false
    } else if t == x {
        axis == 1 ==> d == i
    } else {
        match t {
            Term::Apply(op, y) => match op {
                Unary::Transpose(a, b) => reaches(
                    s,
                    *y,
                    x,
                    if axis == a {
                        b as int
                    } else if axis == b {
                        a as int
                    } else {
                        axis
                    },
                    i,
                    d,
                ),
                Unary::Squeeze(k) => reaches(
                    s,
                    *y,
                    x,
                    if axis < k {
                        axis
                    } else {
                        axis + 1
                    },
                    i,
                    d,
                ),
                Unary::SoftmaxLast => axis == y.dims().len() - 2 ==> exists|j: int| #[trigger]
                    is_column(s, *y, j) && entry_reaches(s, *y, x, i, j, d),
                _ => rowwise(op, axis, y.dims().len()) ==> reaches(s, *y, x, axis, i, d),
            },
            Term::Combine(Binary::Matmul, a, b) => axis == a.dims().len() - 2 ==> {
                ||| reaches(s, *a, x, axis, i, d)
                ||| exists|j: int| #[trigger]
                    is_column(s, *a, j) && !weightless(*a, i, j) && reaches(s, *b, x, axis, j, d)
            },
            Term::Combine(op, a, b) => (op == Binary::CatLast ==> axis < a.dims().len() - 1) ==> {
                let (ka, kb) = (
                    axis - (t.dims().len() - a.dims().len()),
                    axis - (t.dims().len() - b.dims().len()),
                );
                ||| if 0 <= ka && a.dims()[ka] == t.dims()[axis] {
                    reaches(s, *a, x, ka, i, d)
                } else {
                    x.part_of(*a)
                }
                ||| if 0 <= kb && b.dims()[kb] == t.dims()[axis] {
                    reaches(s, *b, x, kb, i, d)
                } else {
                    x.part_of(*b)
                }
            },
            Term::Reshape(y, dims) => (axis < y.dims().len() && axis < dims.len() && y.dims().take(
                axis + 1,
            ) == dims.take(axis + 1)) ==> reaches(s, *y, x, axis, i, d),
            Term::Project(_, y) => axis < y.dims().len() - 1 ==> reaches(s, *y, x, axis, i, d),
            Term::Lookup(_, _, ids) => axis < ids.dims().len() ==> reaches(s, *ids, x, axis, i, d),
            Term::CachedKeys(a) => match *a {
                Term::Append { layer, k, .. } => axis == 2 ==> {
                    let held = (s.cached)(layer) - s.size(k.dims()[2]);
                    held <= i && reaches(s, *k, x, 2, i - held, d)
                },
                _ => true,
            },
            Term::CachedValues(a) => match *a {
                Term::Append { layer, v, .. } => axis == 2 ==> {
                    let held = (s.cached)(layer) - s.size(v.dims()[2]);
                    held <= i && reaches(s, *v, x, 2, i - held, d)
                },
                _ => true,
            },
            _ => true,
        }
    }
}

/// Whether the score in row `i` and column `j` of `t`, where it counts, may depend on
/// position `d` of the input `x`.
#[verifier::opaque]
pub open spec fn entry_reaches(s: Setting, t: Term, x: Term, i: int, j: int, d: int) -> bool
    decreases t,
{
    match t {
        Term::Combine(Binary::BroadcastAdd, scores, mask) => {
            ||| x.part_of(*mask)
            ||| !blocks(*mask, i, j) && entry_reaches(s, *scores, x, i, j, d)
        },
        Term::Combine(Binary::Matmul, a, b) => {
            ||| reaches(s, *a, x, a.dims().len() - 2, i, d)
            ||| reaches(s, *b, x, b.dims().len() - 1, j, d)
        },
        _ => true,
    }
}

/// Whether `j` is a place along the last axis of `t`.
pub open spec fn is_column(s: Setting, t: Term, j: int) -> bool {
    0 <= j < s.size(t.dims().last())
}

/// Whether the weight in row `i` and column `j` is zero because of a mask.
pub open spec fn weightless(weights: Term, i: int, j: int) -> bool {
    match weights {
        Term::Apply(Unary::SoftmaxLast, y) => match *y {
            Term::Combine(Binary::BroadcastAdd, _, mask) => blocks(*mask, i, j),
            _ => false,
        },
        _ => false,
    }
}

/// Whether an operation on a tensor of `rank` axes works on each position along `axis`
/// by itself.
pub open spec fn rowwise(op: Unary, axis: int, rank: nat) -> bool {
    match op {
        Unary::SumLast | Unary::MeanLast | Unary::NarrowLast { .. } => axis < rank - 1,
        Unary::Narrow { axis: k, .. } => axis != k,
        Unary::RepeatKv(_) => axis != 1,
        Unary::Transpose(_, _) | Unary::Squeeze(_) | Unary::UnsqueezeFirst
        | Unary::SoftmaxLast => false,
        _ => true,
    }
}

/// Whether each position of `t` along `axis` depends only on positions of `x` up to its
/// own, where the first `held` positions of `t` come before those of `x`.
pub open spec fn looks_back(s: Setting, t: Term, x: Term, axis: int, held: int) -> bool {
    forall|i: int, d: int|
        0 <= i < s.size(t.dims()[axis]) && #[trigger] reaches(s, t, x, axis, i, d) ==> 0 <= d <= i
            - held
}

/// An input looks back.
pub proof fn lemma_input(s: Setting, x: Term)
    ensures
        looks_back(s, x, x, 1, 0),
{
    reveal(reaches);
}

/// An operation on each position by itself keeps looking back.
pub proof fn lemma_rowwise(s: Setting, y: Term, op: Unary, x: Term, axis: int, held: int)
    requires
        is_input(x),
        0 <= axis < y.dims().len(),
        rowwise(op, axis, y.dims().len()),
        looks_back(s, y, x, axis, held),
    ensures
        looks_back(s, y.apply(op), x, axis, held),
        y.apply(op).dims().len() == y.dims().len(),
        y.apply(op).dims()[axis] == y.dims()[axis],
{
    let t = y.apply(op);
    assert forall|i: int, d: int|
        0 <= i < s.size(t.dims()[axis]) && #[trigger] reaches(s, t, x, axis, i, d) implies 0 <= d
        <= i - held by {
        assert(reaches(s, y, x, axis, i, d)) by {
            reveal(reaches);
        }
    }
}

/// A transposed tensor looks back along the axis where the positions then are.
pub proof fn lemma_transposed(s: Setting, y: Term, a: usize, b: usize, x: Term, held: int)
    requires
        is_input(x),
        a < y.dims().len(),
        b < y.dims().len(),
        a != b,
        looks_back(s, y, x, a as int, held),
    ensures
        looks_back(s, y.apply(Unary::Transpose(a, b)), x, b as int, held),
        looks_back(s, y.apply(Unary::Transpose(b, a)), x, b as int, held),
{
    assert forall|i: int, d: int|
        #![trigger reaches(s, y.apply(Unary::Transpose(a, b)), x, b as int, i, d)]
        0 <= i < s.size(y.dims()[a as int]) && reaches(
            s,
            y.apply(Unary::Transpose(a, b)),
            x,
            b as int,
            i,
            d,
        ) implies 0 <= d <= i - held by {
        assert(reaches(s, y, x, a as int, i, d)) by {
            reveal(reaches);
        }
    }
    assert forall|i: int, d: int|
        #![trigger reaches(s, y.apply(Unary::Transpose(b, a)), x, b as int, i, d)]
        0 <= i < s.size(y.dims()[a as int]) && reaches(
            s,
            y.apply(Unary::Transpose(b, a)),
            x,
            b as int,
            i,
            d,
        ) implies 0 <= d <= i - held by {
        assert(reaches(s, y, x, a as int, i, d)) by {
            reveal(reaches);
        }
    }
}

/// A tensor looks back after the removal of a later axis.
pub proof fn lemma_squeezed(s: Setting, y: Term, k: usize, x: Term, axis: int, held: int)
    requires
        is_input(x),
        0 <= axis < k < y.dims().len(),
        looks_back(s, y, x, axis, held),
    ensures
        looks_back(s, y.apply(Unary::Squeeze(k)), x, axis, held),
{
    let t = y.apply(Unary::Squeeze(k));
    assert(t.dims()[axis] == y.dims()[axis]);
    assert forall|i: int, d: int|
        0 <= i < s.size(t.dims()[axis]) && #[trigger] reaches(s, t, x, axis, i, d) implies 0 <= d
        <= i - held by {
        assert(reaches(s, y, x, axis, i, d)) by {
            reveal(reaches);
        }
    }
}

/// A tensor looks back under other extents that are the same up to the positions.
pub proof fn lemma_reshaped(s: Setting, y: Term, dims: Seq<Dim>, x: Term, axis: int, held: int)
    requires
        is_input(x),
        0 <= axis < y.dims().len(),
        axis < dims.len(),
        y.dims().take(axis + 1) == dims.take(axis + 1),
        looks_back(s, y, x, axis, held),
    ensures
        looks_back(s, y.reshape(dims), x, axis, held),
{
    let t = y.reshape(dims);
    assert(t.dims() == dims);
    assert(y.dims().take(axis + 1)[axis] == y.dims()[axis]);
    assert(dims.take(axis + 1)[axis] == dims[axis]);
    assert(t.dims()[axis] == y.dims()[axis]);
    assert forall|i: int, d: int|
        0 <= i < s.size(t.dims()[axis]) && #[trigger] reaches(s, t, x, axis, i, d) implies 0 <= d
        <= i - held by {
        assert(reaches(s, y, x, axis, i, d)) by {
            reveal(reaches);
        }
    }
}

/// A projection of the last axis keeps looking back.
pub proof fn lemma_projected(s: Setting, y: Term, p: Projection, x: Term, axis: int, held: int)
    requires
        is_input(x),
        0 <= axis < y.dims().len() - 1,
        looks_back(s, y, x, axis, held),
    ensures
        looks_back(s, y.project(p), x, axis, held),
{
    let t = y.project(p);
    assert(t.dims()[axis] == y.dims()[axis]);
    assert forall|i: int, d: int|
        0 <= i < s.size(t.dims()[axis]) && #[trigger] reaches(s, t, x, axis, i, d) implies 0 <= d
        <= i - held by {
        assert(reaches(s, y, x, axis, i, d)) by {
            reveal(reaches);
        }
    }
}

/// Whether an operation works on two tensors element by element.
pub open spec fn elementwise(op: Binary) -> bool {
    match op {
        Binary::Matmul | Binary::CatLast => false,
        _ => true,
    }
}

/// Two tensors with the same positions, taken together, look back.
pub proof fn lemma_together(
    s: Setting,
    a: Term,
    op: Binary,
    b: Term,
    x: Term,
    axis: int,
    held: int,
)
    requires
        is_input(x),
        0 <= axis < a.dims().len(),
        a.dims().len() == b.dims().len(),
        elementwise(op) || (op == Binary::CatLast && axis < a.dims().len() - 1),
        a.dims()[axis] == b.dims()[axis],
        looks_back(s, a, x, axis, held),
        looks_back(s, b, x, axis, held),
    ensures
        looks_back(s, a.combine(op, b), x, axis, held),
        a.combine(op, b).dims().len() == a.dims().len(),
        a.combine(op, b).dims()[axis] == a.dims()[axis],
{
    let t = a.combine(op, b);
    assert(t.dims().len() == a.dims().len());
    assert(t.dims()[axis] == a.dims()[axis]);
    assert forall|i: int, d: int|
        0 <= i < s.size(t.dims()[axis]) && #[trigger] reaches(s, t, x, axis, i, d) implies 0 <= d
        <= i - held by {
        assert(reaches(s, a, x, axis, i, d) || reaches(s, b, x, axis, i, d)) by {
            reveal(reaches);
        }
    }
}

/// A tensor taken together with one that the input does not go into looks back.
pub proof fn lemma_with_free(
    s: Setting,
    a: Term,
    op: Binary,
    b: Term,
    x: Term,
    axis: int,
    held: int,
)
    requires
        is_input(x),
        0 <= axis < a.dims().len(),
        elementwise(op),
        b.dims().len() <= a.dims().len(),
        a.combine(op, b).dims()[axis] == a.dims()[axis],
        !x.part_of(b),
        looks_back(s, a, x, axis, held),
    ensures
        looks_back(s, a.combine(op, b), x, axis, held),
        a.combine(op, b).dims().len() == a.dims().len(),
{
    let t = a.combine(op, b);
    assert(t.dims().len() == a.dims().len());
    assert forall|i: int, d: int|
        0 <= i < s.size(t.dims()[axis]) && #[trigger] reaches(s, t, x, axis, i, d) implies 0 <= d
        <= i - held by {
        assert(reaches(s, a, x, axis, i, d)) by {
            reveal(reaches);
            let kb = axis - (t.dims().len() - b.dims().len());
            assert(!reaches(s, b, x, kb, i, d));
        }
    }
}

/// An input does not go into a weight.
pub proof fn lemma_param_free(x: Term, p: Param, dtype: DType)
    requires
        is_input(x),
    ensures
        !x.part_of(Term::Param(p, dtype)),
{
    reveal(Term::part_of);
}

/// What a cache hands back looks back, behind the positions that it held before.
pub proof fn lemma_cached(s: Setting, layer: usize, fresh: bool, k: Term, v: Term, x: Term)
    requires
        is_input(x),
        k.dims().len() == 4,
        v.dims().len() == 4,
        s.size(k.dims()[2]) == s.size(v.dims()[2]),
        looks_back(s, k, x, 2, 0),
        looks_back(s, v, x, 2, 0),
    ensures
        ({
            let action = Term::Append { layer, fresh, k: Box::new(k), v: Box::new(v) };
            let held = (s.cached)(layer) - s.size(k.dims()[2]);
            &&& looks_back(s, Term::CachedKeys(Box::new(action)), x, 2, held)
            &&& looks_back(s, Term::CachedValues(Box::new(action)), x, 2, held)
        }),
{
    let action = Term::Append { layer, fresh, k: Box::new(k), v: Box::new(v) };
    let held = (s.cached)(layer) - s.size(k.dims()[2]);
    let keys = Term::CachedKeys(Box::new(action));
    let values = Term::CachedValues(Box::new(action));
    reveal_with_fuel(Term::dims, 2);
    reveal_with_fuel(Term::cached_dims, 2);
    assert(keys.dims()[2] == Dim::Cached(layer));
    assert(values.dims()[2] == Dim::Cached(layer));
    assert forall|i: int, d: int|
        0 <= i < s.size(keys.dims()[2]) && #[trigger] reaches(s, keys, x, 2, i, d) implies 0 <= d
        <= i - held by {
        assert(held <= i && reaches(s, k, x, 2, i - held, d)) by {
            reveal(reaches);
        }
    }
    assert forall|i: int, d: int|
        0 <= i < s.size(values.dims()[2]) && #[trigger] reaches(s, values, x, 2, i, d) implies 0
        <= d <= i - held by {
        assert(held <= i && reaches(s, v, x, 2, i - held, d)) by {
            reveal(reaches);
        }
    }
}

} // verus!
