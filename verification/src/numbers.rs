//! What the numbers in a tensor are, up to rounding.

use crate::depend::weightless;
use crate::sizes::Setting;
use crate::term::{
    Activation, Binary, DType, Dim, F64Bits, ParamName, Precision, Projection, Scalar, Term, Unary,
    VarPath,
};
use vstd::arithmetic::div_mod::lemma_fundamental_div_mod_converse;
use vstd::prelude::*;

verus! {

/// The numbers that a run starts from, and the functions of which it makes use.
pub struct Numbers {
    /// The element type of the weights, and how many positions caches hand back.
    pub s: Setting,
    /// The entries of the weights of a checkpoint, by their place and index.
    pub weight: spec_fn(VarPath, Seq<int>) -> real,
    /// The entries of the biases of a checkpoint.
    pub bias: spec_fn(VarPath, int) -> real,
    /// The entries of the scales of layers of a checkpoint.
    pub scalar: spec_fn(VarPath, int) -> real,
    /// The tokens that the caller hands in.
    pub token: spec_fn(Seq<int>) -> int,
    /// The embeddings that the caller hands in.
    pub embed: spec_fn(Seq<int>) -> real,
    /// How many positions the cache of each layer held before.
    pub held: spec_fn(usize) -> int,
    /// The keys that the cache of each layer held before.
    pub keys: spec_fn(usize, Seq<int>) -> real,
    /// The values that the cache of each layer held before.
    pub values: spec_fn(usize, Seq<int>) -> real,
    /// What fused attention gives for queries, keys and values, one position after the
    /// other and head by head at each, with or without hiding later positions.
    pub fused: spec_fn(
        spec_fn(Seq<int>) -> real,
        spec_fn(Seq<int>) -> real,
        spec_fn(Seq<int>) -> real,
        bool,
        Seq<int>,
    ) -> real,
    pub given: spec_fn(F64Bits) -> real,
    pub act: spec_fn(Activation, real) -> real,
    pub sqrt: spec_fn(real) -> real,
    pub exp: spec_fn(real) -> real,
    pub sin: spec_fn(real) -> real,
    pub cos: spec_fn(real) -> real,
    pub tanh: spec_fn(real) -> real,
    /// Powers, taken in some precision.
    pub pow: spec_fn(Precision, real, real) -> real,
    /// A number as an element of some type.
    pub cast: spec_fn(DType, real) -> real,
}

/// The sum of the first `n` values of a function.
pub open spec fn total(n: int, f: spec_fn(int) -> real) -> real
    decreases n,
{
    if n <= 0 {
        0 as real
    } else {
        total(n - 1, f) + f(n - 1)
    }
}

impl Numbers {
    /// The root of the mean square of the first `n` values of a function, with something
    /// added to the mean.
    pub open spec fn rms(self, n: int, f: spec_fn(int) -> real, eps: real) -> real {
        (self.sqrt)(total(n, |j: int| f(j) * f(j)) / (n as real) + eps)
    }

    /// The share of place `j` among those of `n` places that count, by the exponentials of
    /// their scores.
    pub open spec fn share(
        self,
        n: int,
        counts: spec_fn(int) -> bool,
        score: spec_fn(int) -> real,
        j: int,
    ) -> real {
        let part = |k: int|
            if counts(k) {
                (self.exp)(score(k))
            } else {
                0 as real
            };
        part(j) / total(n, part)
    }

    /// Output `o` of a linear layer with the weights at `path`, over `n` inputs.
    pub open spec fn linear(
        self,
        path: VarPath,
        bias: bool,
        n: int,
        f: spec_fn(int) -> real,
        o: int,
    ) -> real {
        total(n, |k: int| (self.weight)(path, seq![o, k]) * f(k)) + if bias {
            (self.bias)(path, o)
        } else {
            0 as real
        }
    }

    /// The number that a scalar stands for.
    pub open spec fn scalar_of(self, x: Scalar) -> real {
        match x {
            Scalar::Given(bits) => (self.given)(bits),
            Scalar::Extent(d) => self.s.size(d) as real,
            Scalar::Sqrt(n) => (self.sqrt)(n as real),
            Scalar::RecipSqrt(n) => (1 as real) / (self.sqrt)(n as real),
        }
    }

    /// Whether `at` is the index of an entry of a tensor of these extents.
    pub open spec fn within(self, dims: Seq<Dim>, at: Seq<int>) -> bool {
        &&& at.len() == dims.len()
        &&& forall|i: int| 0 <= i < dims.len() ==> 0 <= #[trigger] at[i] < self.s.size(dims[i])
    }

    /// The place of an entry in the row-major order of all entries.
    pub open spec fn flat(self, dims: Seq<Dim>, at: Seq<int>) -> int
        decreases dims.len(),
    {
        if dims.len() == 0 {
            0
        } else {
            self.flat(dims.drop_last(), at.drop_last()) * self.s.size(dims.last()) + at.last()
        }
    }

    /// The index of the entry at a place of the row-major order.
    pub open spec fn unflat(self, dims: Seq<Dim>, n: int) -> Seq<int>
        decreases dims.len(),
    {
        if dims.len() == 0 {
            Seq::empty()
        } else {
            let w = self.s.size(dims.last()) as int;
            self.unflat(dims.drop_last(), n / w).push(n % w)
        }
    }

    /// An entry of a tensor of two axes.
    pub open spec fn of2(self, t: Term, i: int, j: int) -> real {
        entry(self, t, seq![i, j])
    }

    /// An entry of a tensor of three axes.
    pub open spec fn of3(self, t: Term, b: int, i: int, j: int) -> real {
        entry(self, t, seq![b, i, j])
    }

    /// An entry of a tensor of four axes.
    pub open spec fn of4(self, t: Term, b: int, h: int, i: int, j: int) -> real {
        entry(self, t, seq![b, h, i, j])
    }
}

/// The index of the entry of a tensor of extents `dims` that is matched by broadcasting
/// with the entry at `at`.
pub open spec fn aligned(dims: Seq<Dim>, at: Seq<int>) -> Seq<int> {
    Seq::new(
        dims.len(),
        |i: int|
            if dims[i] == Dim::Fixed(1) {
                0
            } else {
                at[at.len() - dims.len() + i]
            },
    )
}

/// `at` with another index along the last axis.
pub open spec fn along(at: Seq<int>, j: int) -> Seq<int> {
    at.update(at.len() - 1, j)
}

/// An entry after an operation on a tensor with entries `f`.
pub open spec fn unary_entry(
    m: Numbers,
    op: Unary,
    y: Term,
    f: spec_fn(Seq<int>) -> real,
    at: Seq<int>,
) -> real {
    let n = m.s.size(y.dims().last()) as int;
    match op {
        Unary::Cast(d) => (m.cast)(d, f(at)),
        Unary::Contiguous => f(at),
        Unary::Sqr => f(at) * f(at),
        Unary::Sqrt => (m.sqrt)(f(at)),
        Unary::Neg => -f(at),
        Unary::Sin => (m.sin)(f(at)),
        Unary::Cos => (m.cos)(f(at)),
        Unary::Tanh => (m.tanh)(f(at)),
        Unary::SoftmaxLast => m.share(
            n,
            |j: int| !weightless(y.apply(op), at[at.len() - 2], j),
            |j: int| f(along(at, j)),
            at.last(),
        ),
        Unary::SumLast => total(n, |j: int| f(along(at, j))),
        Unary::MeanLast => total(n, |j: int| f(along(at, j))) / (n as real),
        Unary::AddScalar(x) => f(at) + m.scalar_of(x),
        Unary::MulScalar(x) => f(at) * m.scalar_of(x),
        Unary::DivScalar(x) => f(at) / m.scalar_of(x),
        Unary::Activate(a) => (m.act)(a, f(at)),
        Unary::UnsqueezeFirst => f(at.skip(1)),
        Unary::Squeeze(k) => f(at.insert(k as int, 0)),
        Unary::Narrow { axis, start, .. } => f(at.update(axis as int, at[axis as int] + start)),
        Unary::NarrowLast { start, .. } => f(along(at, at.last() + start)),
        Unary::Transpose(a, b) => f(
            at.update(a as int, at[b as int]).update(b as int, at[a as int]),
        ),
        Unary::RepeatKv(times) => f(at.update(1, at[1] / (times as int))),
    }
}

/// An entry after an operation on two tensors with entries `f` and `g`.
pub open spec fn binary_entry(
    m: Numbers,
    op: Binary,
    a: Term,
    b: Term,
    f: spec_fn(Seq<int>) -> real,
    g: spec_fn(Seq<int>) -> real,
    at: Seq<int>,
) -> real {
    let n = m.s.size(a.dims().last()) as int;
    let (i, j) = (aligned(a.dims(), at), aligned(b.dims(), at));
    match op {
        Binary::Add => f(at) + g(at),
        Binary::Mul => f(at) * g(at),
        Binary::BroadcastAdd => f(i) + g(j),
        Binary::BroadcastMul => f(i) * g(j),
        Binary::BroadcastDiv => f(i) / g(j),
        Binary::Matmul => total(n, |k: int| f(along(at, k)) * g(at.update(at.len() - 2, k))),
        Binary::CatLast => if at.last() < n {
            f(at)
        } else {
            g(along(at, at.last() - n))
        },
    }
}

/// An entry after a projection of a tensor with entries `f`.
pub open spec fn projected_entry(
    m: Numbers,
    p: Projection,
    y: Term,
    f: spec_fn(Seq<int>) -> real,
    at: Seq<int>,
) -> real {
    let (path, bias) = match p {
        Projection::Own(l) => (l.path, l.bias),
        Projection::Tied(e) => (e.path, false),
    };
    m.linear(
        path,
        bias,
        m.s.size(y.dims().last()) as int,
        |k: int| f(along(at, k)),
        at.last(),
    )
}

/// An entry of what a cache hands back: what it held, unless it is fresh, and then what is
/// appended, with entries `f`.
pub open spec fn cached_entry(
    held: int,
    before: spec_fn(Seq<int>) -> real,
    f: spec_fn(Seq<int>) -> real,
    at: Seq<int>,
) -> real {
    if at[2] < held {
        before(at)
    } else {
        f(at.update(2, at[2] - held))
    }
}

/// The entries of a tensor. Element types make a difference where a tensor is cast; apart
/// from that, operations are exact.
#[verifier::opaque]
pub open spec fn entries(m: Numbers, t: Term) -> spec_fn(Seq<int>) -> real
    decreases t,
{
    match t {
        Term::TokenIds(_) => |at: Seq<int>| (m.token)(at) as real,
        Term::Embeds(_, _) => m.embed,
        Term::Param(p, _) => |at: Seq<int>|
            match p.name {
                ParamName::Weight => (m.weight)(p.path, at),
                ParamName::LayerScalar => (m.scalar)(p.path, at[0]),
            },
        Term::InvFreq { numerators, head_dim, theta, precision } => |at: Seq<int>|
            match numerators[at[1]] {
                Some(k) => (1 as real) / (m.pow)(
                    precision,
                    (m.given)(theta),
                    (k as real) / (head_dim as real),
                ),
                None => 0 as real,
            },
        Term::Arange(_) => |at: Seq<int>| at[0] as real,
        Term::Zeros(_) => |at: Seq<int>| 0 as real,
        Term::Mask { .. } => |at: Seq<int>| 0 as real,
        Term::Apply(op, y) => {
            let f = entries(m, *y);
            |at: Seq<int>| unary_entry(m, op, *y, f, at)
        },
        Term::Combine(op, a, b) => {
            let (f, g) = (entries(m, *a), entries(m, *b));
            |at: Seq<int>| binary_entry(m, op, *a, *b, f, g, at)
        },
        Term::Reshape(y, dims) => {
            let f = entries(m, *y);
            |at: Seq<int>| f(m.unflat(y.dims(), m.flat(dims, at)))
        },
        Term::Expand(y, _) => {
            let f = entries(m, *y);
            |at: Seq<int>| f(aligned(y.dims(), at))
        },
        Term::Project(p, y) => {
            let f = entries(m, *y);
            |at: Seq<int>| projected_entry(m, p, *y, f, at)
        },
        Term::Lookup(e, _, ids) => match *ids {
            Term::TokenIds(_) => |at: Seq<int>|
                (m.weight)(e.path, seq![(m.token)(at.drop_last()), at.last()]),
            _ => |at: Seq<int>| 0 as real,
        },
        Term::FlashAttn { q, k, v, causal } => {
            let (f, g, h) = (entries(m, *q), entries(m, *k), entries(m, *v));
            |at: Seq<int>| (m.fused)(f, g, h, causal, at)
        },
        Term::Append { .. } => |at: Seq<int>| 0 as real,
        Term::CachedKeys(a) => match *a {
            Term::Append { layer, fresh, k, .. } => {
                let f = entries(m, *k);
                |at: Seq<int>|
                    cached_entry(
                        if fresh {
                            0
                        } else {
                            (m.held)(layer)
                        },
                        |i: Seq<int>| (m.keys)(layer, i),
                        f,
                        at,
                    )
            },
            _ => |at: Seq<int>| 0 as real,
        },
        Term::CachedValues(a) => match *a {
            Term::Append { layer, fresh, v, .. } => {
                let f = entries(m, *v);
                |at: Seq<int>|
                    cached_entry(
                        if fresh {
                            0
                        } else {
                            (m.held)(layer)
                        },
                        |i: Seq<int>| (m.values)(layer, i),
                        f,
                        at,
                    )
            },
            _ => |at: Seq<int>| 0 as real,
        },
    }
}

/// The entry of a tensor at an index.
pub open spec fn entry(m: Numbers, t: Term, at: Seq<int>) -> real {
    entries(m, t)(at)
}

/// An entry after an operation.
pub proof fn lemma_applied(m: Numbers, y: Term, op: Unary, at: Seq<int>)
    ensures
        entry(m, y.apply(op), at) == unary_entry(m, op, y, entries(m, y), at),
{
    reveal(entries);
}

/// An entry after an operation on two tensors.
pub proof fn lemma_combined(m: Numbers, a: Term, op: Binary, b: Term, at: Seq<int>)
    ensures
        entry(m, a.combine(op, b), at) == binary_entry(
            m,
            op,
            a,
            b,
            entries(m, a),
            entries(m, b),
            at,
        ),
{
    reveal(entries);
}

/// An entry after a projection.
pub proof fn lemma_projected_entry(m: Numbers, y: Term, p: Projection, at: Seq<int>)
    ensures
        entry(m, y.project(p), at) == projected_entry(m, p, y, entries(m, y), at),
{
    reveal(entries);
}

/// Sums of functions with the same values are the same.
pub proof fn lemma_total(n: int, f: spec_fn(int) -> real, g: spec_fn(int) -> real)
    requires
        forall|k: int| 0 <= k < n ==> #[trigger] f(k) == g(k),
    ensures
        total(n, f) == total(n, g),
    decreases n,
{
    if n > 0 {
        lemma_total(n - 1, f, g);
    }
}

/// So are roots of mean squares.
pub proof fn lemma_rms(
    m: Numbers,
    n: int,
    f: spec_fn(int) -> real,
    g: spec_fn(int) -> real,
    eps: real,
)
    requires
        forall|k: int| 0 <= k < n ==> #[trigger] f(k) == g(k),
    ensures
        m.rms(n, f, eps) == m.rms(n, g, eps),
{
    lemma_total(n, |j: int| f(j) * f(j), |j: int| g(j) * g(j));
}

/// So are outputs of linear layers.
pub proof fn lemma_linear(
    m: Numbers,
    path: VarPath,
    bias: bool,
    n: int,
    f: spec_fn(int) -> real,
    g: spec_fn(int) -> real,
    o: int,
)
    requires
        forall|k: int| 0 <= k < n ==> #[trigger] f(k) == g(k),
    ensures
        m.linear(path, bias, n, f, o) == m.linear(path, bias, n, g, o),
{
    lemma_total(
        n,
        |k: int| (m.weight)(path, seq![o, k]) * f(k),
        |k: int| (m.weight)(path, seq![o, k]) * g(k),
    );
}

/// So are shares.
pub proof fn lemma_share(
    m: Numbers,
    n: int,
    counts: spec_fn(int) -> bool,
    score: spec_fn(int) -> real,
    others: spec_fn(int) -> bool,
    other: spec_fn(int) -> real,
    j: int,
)
    requires
        0 <= j < n,
        forall|k: int| 0 <= k < n ==> #[trigger] counts(k) == others(k),
        forall|k: int| 0 <= k < n ==> #[trigger] score(k) == other(k),
    ensures
        m.share(n, counts, score, j) == m.share(n, others, other, j),
{
    let f = |k: int|
        if counts(k) {
            (m.exp)(score(k))
        } else {
            0 as real
        };
    let g = |k: int|
        if others(k) {
            (m.exp)(other(k))
        } else {
            0 as real
        };
    assert forall|k: int| 0 <= k < n implies #[trigger] f(k) == g(k) by {
        assert(counts(k) == others(k));
        assert(score(k) == other(k));
    }
    lemma_total(n, f, g);
    assert(f(j) == g(j));
}

/// An index within its tensor is matched with itself.
pub proof fn lemma_aligned(m: Numbers, dims: Seq<Dim>, at: Seq<int>)
    requires
        m.within(dims, at),
    ensures
        aligned(dims, at) == at,
{
    assert forall|i: int| 0 <= i < dims.len() implies aligned(dims, at)[i] == at[i] by {
        assert(0 <= at[i] < m.s.size(dims[i]));
    }
    assert(aligned(dims, at) =~= at);
}

/// The index of an entry is found again from its place.
pub proof fn lemma_unflat(m: Numbers, dims: Seq<Dim>, at: Seq<int>)
    requires
        m.within(dims, at),
    ensures
        m.unflat(dims, m.flat(dims, at)) == at,
    decreases dims.len(),
{
    if dims.len() == 0 {
        assert(at =~= Seq::empty());
    } else {
        let (d, i) = (dims.drop_last(), at.drop_last());
        assert forall|k: int| 0 <= k < d.len() implies 0 <= #[trigger] i[k] < m.s.size(d[k]) by {
            assert(0 <= at[k] < m.s.size(dims[k]));
        }
        lemma_unflat(m, d, i);
        let w = m.s.size(dims.last()) as int;
        assert(0 <= at[dims.len() - 1] < w);
        let q = m.flat(d, i);
        lemma_fundamental_div_mod_converse(q * w + at.last(), w, q, at.last());
        assert(i.push(at.last()) =~= at);
    }
}

/// A tensor under other extents has the same entries in the same order.
pub proof fn lemma_reshaped_entry(m: Numbers, y: Term, dims: Seq<Dim>, at: Seq<int>, from: Seq<int>)
    requires
        m.within(y.dims(), from),
        m.flat(y.dims(), from) == m.flat(dims, at),
    ensures
        entry(m, y.reshape(dims), at) == entry(m, y, from),
{
    lemma_unflat(m, y.dims(), from);
    reveal(entries);
}

} // verus!
