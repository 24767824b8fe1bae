//! Which extents and element types operations need of their operands.

use crate::term::{dim_from_last, Binary, DType, Dim, Term, Unary};
use vstd::prelude::*;

verus! {

/// What is known of a run besides its tape.
pub struct Setting {
    /// The element type of the weights.
    pub weights: DType,
    /// How many positions the cache of each layer hands back.
    pub cached: spec_fn(usize) -> nat,
}

impl Setting {
    /// The number that an extent stands for.
    pub open spec fn size(self, d: Dim) -> nat {
        match d {
            Dim::Fixed(n) => n as nat,
            Dim::Cached(layer) => (self.cached)(layer),
        }
    }

    /// The number of elements of a tensor.
    pub open spec fn count(self, dims: Seq<Dim>) -> nat
        decreases dims.len(),
    {
        if dims.len() == 0 {
            1
        } else {
            self.count(dims.drop_last()) * self.size(dims.last())
        }
    }

    /// Whether two axes can be matched by broadcasting.
    pub open spec fn matches(self, a: Dim, b: Dim) -> bool {
        self.size(a) == self.size(b) || a == Dim::Fixed(1) || b == Dim::Fixed(1)
    }

    /// Whether two tensors have the same extents.
    pub open spec fn same(self, a: Seq<Dim>, b: Seq<Dim>) -> bool {
        &&& a.len() == b.len()
        &&& forall|i: int| 0 <= i < a.len() ==> self.size(#[trigger] a[i]) == self.size(b[i])
    }

    /// Whether two tensors can be matched by broadcasting.
    pub open spec fn broadcasts(self, a: Seq<Dim>, b: Seq<Dim>) -> bool {
        forall|k: int|
            0 <= k < a.len() && k < b.len() ==> self.matches(
                #[trigger] dim_from_last(a, k),
                dim_from_last(b, k),
            )
    }

    /// Whether an operation accepts a tensor of these extents.
    pub open spec fn accepts(self, op: Unary, dims: Seq<Dim>) -> bool {
        match op {
            Unary::SumLast | Unary::MeanLast | Unary::SoftmaxLast => dims.len() > 0,
            Unary::Squeeze(axis) => axis < dims.len() && self.size(dims[axis as int]) == 1,
            Unary::Narrow { axis, start, len } => axis < dims.len() && start + self.size(len)
                <= self.size(dims[axis as int]),
            Unary::NarrowLast { start, count } => dims.len() > 0 && start + count <= self.size(
                dims.last(),
            ),
            Unary::Transpose(a, b) => a < dims.len() && b < dims.len(),
            Unary::RepeatKv(_) => dims.len() == 4,
            _ => true,
        }
    }

    /// Whether an operation accepts two tensors of these extents.
    pub open spec fn accepts_both(self, op: Binary, a: Seq<Dim>, b: Seq<Dim>) -> bool {
        match op {
            Binary::Add | Binary::Mul => self.same(a, b),
            Binary::BroadcastAdd | Binary::BroadcastMul | Binary::BroadcastDiv => self.broadcasts(
                a,
                b,
            ),
            Binary::Matmul => {
                &&& a.len() >= 2
                &&& a.len() == b.len()
                &&& self.same(a.take(a.len() - 2), b.take(b.len() - 2))
                &&& self.size(a[a.len() - 1]) == self.size(b[b.len() - 2])
            },
            Binary::CatLast => {
                &&& a.len() >= 1
                &&& a.len() == b.len()
                &&& self.same(a.drop_last(), b.drop_last())
            },
        }
    }
}

impl Term {
    /// Whether every operation in the term finds operands with fitting extents and
    /// element types.
    pub open spec fn fits(self, s: Setting) -> bool
        decreases self,
    {
        match self {
            Term::TokenIds(_) | Term::Embeds(_, _) | Term::Param(_, _) | Term::InvFreq { .. }
            | Term::Arange(_) | Term::Zeros(_) => true,
            Term::Mask { size, blocked } => blocked.len() == size * size,
            Term::Apply(op, x) => x.fits(s) && s.accepts(op, x.dims()),
            Term::Combine(op, a, b) => {
                &&& a.fits(s)
                &&& b.fits(s)
                &&& a.dtype() == b.dtype()
                &&& s.accepts_both(op, a.dims(), b.dims())
            },
            Term::Reshape(x, dims) => x.fits(s) && s.count(x.dims()) == s.count(dims),
            Term::Expand(x, dims) => {
                &&& x.fits(s)
                &&& x.dims().len() <= dims.len()
                &&& s.broadcasts(x.dims(), dims)
            },
            Term::Project(p, x) => {
                &&& x.fits(s)
                &&& x.dtype() == s.weights
                &&& x.dims().len() >= 2
                &&& s.size(x.dims().last()) == p.in_dim()
            },
            Term::Lookup(_, _, ids) => ids.fits(s) && ids.dtype() == DType::U32,
            Term::FlashAttn { q, k, v, .. } => {
                &&& q.fits(s)
                &&& k.fits(s)
                &&& v.fits(s)
                &&& q.dtype() == k.dtype()
                &&& q.dtype() == v.dtype()
                &&& q.dims().len() == 4
                &&& s.same(k.dims(), v.dims())
                &&& k.dims().len() == 4
                &&& s.size(q.dims()[0]) == s.size(k.dims()[0])
                &&& s.size(q.dims()[2]) == s.size(k.dims()[2])
                &&& s.size(q.dims()[3]) == s.size(k.dims()[3])
            },
            Term::Append { k, v, .. } => {
                &&& k.fits(s)
                &&& v.fits(s)
                &&& k.dims().len() == 4
                &&& v.dims().len() == 4
            },
            Term::CachedKeys(a) => a.is_append() && a.fits(s),
            Term::CachedValues(a) => a.is_append() && a.fits(s),
        }
    }

    /// Whether the term fits and has these extents and this element type.
    pub open spec fn has(self, s: Setting, dims: Seq<Dim>, dtype: DType) -> bool {
        &&& self.fits(s)
        &&& self.dims() == dims
        &&& self.dtype() == dtype
    }
}

/// The number of elements does not change where two axes are merged.
pub proof fn lemma_count_merged(s: Setting, b: Dim, t: Dim, m: usize, n: usize)
    requires
        m * n <= usize::MAX,
    ensures
        s.count(seq![b, t, Dim::Fixed((m * n) as usize)]) == s.count(
            seq![b, t, Dim::Fixed(m), Dim::Fixed(n)],
        ),
{
    let three = seq![b, t, Dim::Fixed((m * n) as usize)];
    let four = seq![b, t, Dim::Fixed(m), Dim::Fixed(n)];
    assert(three.drop_last() =~= seq![b, t]);
    assert(four.drop_last() =~= seq![b, t, Dim::Fixed(m)]);
    assert(four.drop_last().drop_last() =~= seq![b, t]);
    let c = s.count(seq![b, t]);
    assert(s.count(four.drop_last()) == c * (m as nat));
    assert(s.count(four) == (c * (m as nat)) * (n as nat));
    assert(s.count(three) == c * ((m * n) as nat));
    assert((c * (m as nat)) * (n as nat) == c * ((m as nat) * (n as nat))) by (nonlinear_arith);
}

/// The number of elements of a column is its height.
pub proof fn lemma_count_column(s: Setting, n: usize)
    ensures
        s.count(seq![Dim::Fixed(n)]) == s.count(seq![Dim::Fixed(n), Dim::Fixed(1)]),
{
    let row = seq![Dim::Fixed(n)];
    let column = seq![Dim::Fixed(n), Dim::Fixed(1)];
    assert(column.drop_last() =~= row);
    assert(s.count(column) == s.count(row) * 1);
}

} // verus!
