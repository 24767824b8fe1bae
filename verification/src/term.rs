//! Tensor expressions: what an operation on a tape stands for.

use vstd::prelude::*;

verus! {

/// Element types of a tensor.
#[derive(Clone, Copy, PartialEq, Eq, Structural, Debug)]
pub enum DType {
    U8,
    U32,
    I64,
    BF16,
    F16,
    F32,
    F64,
}

/// A double-precision number, carried by its IEEE 754 bit pattern.
#[derive(Clone, Copy, PartialEq, Eq, Structural, Debug)]
pub struct F64Bits {
    pub bits: u64,
}

/// The extent of a tensor along one axis.
///
/// The number of positions that a key/value cache hands back is known only to
/// the cache, so that extent is named by the layer that owns the cache.
#[derive(Clone, Copy, PartialEq, Eq, Structural, Debug)]
pub enum Dim {
    Fixed(usize),
    Cached(usize),
}

/// A scalar operand.
#[derive(Clone, Copy, PartialEq, Eq, Structural, Debug)]
pub enum Scalar {
    /// A number that the configuration gives.
    Given(F64Bits),
    /// An extent, as a number.
    Extent(Dim),
    /// The square root of a count.
    Sqrt(usize),
    /// One over the square root of a count.
    RecipSqrt(usize),
}

/// An activation function, by its position in the executor's table.
#[derive(Clone, Copy, PartialEq, Eq, Structural, Debug)]
pub struct Activation {
    pub index: usize,
}

/// Blocks of a decoder layer that group weights.
#[derive(Clone, Copy, PartialEq, Eq, Structural, Hash, Debug)]
pub enum Block {
    SelfAttn,
    Mlp,
}

/// Modules of the decoder that own weights.
#[derive(Clone, Copy, PartialEq, Eq, Structural, Hash, Debug)]
pub enum Module {
    EmbedTokens,
    EmbedTokensPerLayer,
    PerLayerModelProjection,
    PerLayerProjectionNorm,
    Norm,
    LmHead,
    QProj,
    KProj,
    VProj,
    OProj,
    QNorm,
    KNorm,
    GateProj,
    UpProj,
    DownProj,
    InputLayernorm,
    PostAttentionLayernorm,
    PreFeedforwardLayernorm,
    PostFeedforwardLayernorm,
    PerLayerInputGate,
    PerLayerProjection,
    PostPerLayerInputNorm,
}

/// A place in a checkpoint, below the root of the language model.
#[derive(Clone, Copy, PartialEq, Eq, Structural, Hash, Debug)]
pub struct VarPath {
    pub layer: Option<usize>,
    pub block: Option<Block>,
    pub module: Option<Module>,
}

/// The last component of a weight's name.
#[derive(Clone, Copy, PartialEq, Eq, Structural, Hash, Debug)]
pub enum ParamName {
    Weight,
    LayerScalar,
}

/// A weight vector of `len` elements.
#[derive(Clone, Copy, PartialEq, Eq, Structural, Debug)]
pub struct Param {
    pub path: VarPath,
    pub name: ParamName,
    pub len: usize,
}

/// A linear layer with the weights found at `path`.
#[derive(Clone, Copy, PartialEq, Eq, Structural, Debug)]
pub struct Linear {
    pub path: VarPath,
    pub in_dim: usize,
    pub out_dim: usize,
    pub bias: bool,
}

/// An embedding table of `rows` vectors of `cols` elements.
#[derive(Clone, Copy, PartialEq, Eq, Structural, Debug)]
pub struct Embedding {
    pub path: VarPath,
    pub rows: usize,
    pub cols: usize,
}

/// The weights of a matrix product with the last axis of a tensor.
#[derive(Clone, Copy, PartialEq, Eq, Structural, Debug)]
pub enum Projection {
    /// A linear layer of its own.
    Own(Linear),
    /// An embedding table used as a linear layer without bias.
    Tied(Embedding),
}

impl Projection {
    /// The number of elements that it takes.
    pub open spec fn in_dim(self) -> usize {
        match self {
            Projection::Own(l) => l.in_dim,
            Projection::Tied(e) => e.cols,
        }
    }

    /// The number of elements that it gives.
    pub open spec fn out_dim(self) -> usize {
        match self {
            Projection::Own(l) => l.out_dim,
            Projection::Tied(e) => e.rows,
        }
    }

    /// Returns the number of elements that the projection gives.
    pub fn width(&self) -> (r: usize)
        ensures
            r == self.out_dim(),
    {
        match self {
            Projection::Own(l) => l.out_dim,
            Projection::Tied(e) => e.rows,
        }
    }
}

/// In which precision the powers of a rotary base are taken.
#[derive(Clone, Copy, PartialEq, Eq, Structural, Debug)]
pub enum Precision {
    Single,
    Double,
}

/// Operations on one tensor.
#[derive(Clone, Copy, PartialEq, Eq, Structural, Debug)]
pub enum Unary {
    Cast(DType),
    Sqr,
    Sqrt,
    Neg,
    Sin,
    Cos,
    Tanh,
    /// Softmax along the last axis.
    SoftmaxLast,
    Contiguous,
    /// Sum along the last axis, which stays with extent one.
    SumLast,
    /// Mean along the last axis, which stays with extent one.
    MeanLast,
    AddScalar(Scalar),
    MulScalar(Scalar),
    DivScalar(Scalar),
    Activate(Activation),
    /// A new axis of extent one in front of all others.
    UnsqueezeFirst,
    /// Removal of an axis of extent one.
    Squeeze(usize),
    /// The `len` positions from `start` on along `axis`.
    Narrow { axis: usize, start: usize, len: Dim },
    /// The `count` positions from `start` on along the last axis.
    NarrowLast { start: usize, count: usize },
    Transpose(usize, usize),
    /// Each key/value head repeated this many times in a row.
    RepeatKv(usize),
}

/// Operations on two tensors.
#[derive(Clone, Copy, PartialEq, Eq, Structural, Debug)]
pub enum Binary {
    Add,
    Mul,
    BroadcastAdd,
    BroadcastMul,
    BroadcastDiv,
    Matmul,
    /// Concatenation along the last axis.
    CatLast,
}

/// A tensor expression.
pub enum Term {
    /// Token identifiers handed in by the caller.
    TokenIds(Seq<Dim>),
    /// Embeddings handed in by the caller.
    Embeds(Seq<Dim>, DType),
    /// A weight vector of the checkpoint, in the element type of the model.
    Param(Param, DType),
    /// A row of inverse frequencies. Entry `i` is `1 / theta^(n / head_dim)`
    /// where `numerators[i]` is `Some(n)`, and zero where it is `None`.
    InvFreq { numerators: Seq<Option<usize>>, head_dim: usize, theta: F64Bits, precision: Precision },
    /// The numbers from zero up to a bound, which is left out.
    Arange(u32),
    Zeros(Seq<Dim>),
    /// A square matrix, row by row: minus infinity where `blocked`, else zero.
    Mask { size: usize, blocked: Seq<bool> },
    Apply(Unary, Box<Term>),
    Combine(Binary, Box<Term>, Box<Term>),
    Reshape(Box<Term>, Seq<Dim>),
    Expand(Box<Term>, Seq<Dim>),
    Project(Projection, Box<Term>),
    /// The rows of an embedding table that the identifiers select.
    Lookup(Embedding, DType, Box<Term>),
    /// Fused attention with unit scale over queries, keys and values.
    FlashAttn { q: Box<Term>, k: Box<Term>, v: Box<Term>, causal: bool },
    /// Keys and values appended to the cache of a layer; `fresh` where the
    /// cache held nothing before.
    Append { layer: usize, fresh: bool, k: Box<Term>, v: Box<Term> },
    /// The keys that a cache holds after an append.
    CachedKeys(Box<Term>),
    /// The values that a cache holds after an append.
    CachedValues(Box<Term>),
}

/// A product of extents, at most what a machine word holds.
pub open spec fn capped_mul(a: usize, b: usize) -> usize {
    if a * b <= usize::MAX {
        (a * b) as usize
    } else {
        usize::MAX
    }
}

/// A sum of extents, at most what a machine word holds.
pub open spec fn capped_add(a: usize, b: usize) -> usize {
    if a + b <= usize::MAX {
        (a + b) as usize
    } else {
        usize::MAX
    }
}

/// The extent of two axes merged into one.
pub open spec fn dim_mul(a: Dim, b: Dim) -> Dim {
    match (a, b) {
        (Dim::Fixed(m), Dim::Fixed(n)) => Dim::Fixed(capped_mul(m, n)),
        _ => a,
    }
}

/// The extent of two axes laid end to end.
pub open spec fn dim_add(a: Dim, b: Dim) -> Dim {
    match (a, b) {
        (Dim::Fixed(m), Dim::Fixed(n)) => Dim::Fixed(capped_add(m, n)),
        _ => a,
    }
}

/// The extent of two axes matched by broadcasting.
pub open spec fn dim_broadcast(a: Dim, b: Dim) -> Dim {
    if a == Dim::Fixed(1) {
        b
    } else {
        a
    }
}

/// The extent at distance `k` from the last axis, one beyond the first axis.
pub open spec fn dim_from_last(dims: Seq<Dim>, k: int) -> Dim {
    if k < dims.len() {
        dims[dims.len() - 1 - k]
    } else {
        Dim::Fixed(1)
    }
}

/// The extents of two tensors matched by broadcasting, aligned at the last axis.
pub open spec fn broadcast_dims(a: Seq<Dim>, b: Seq<Dim>) -> Seq<Dim> {
    let n = if a.len() >= b.len() {
        a.len()
    } else {
        b.len()
    };
    Seq::new(n, |i: int| dim_broadcast(dim_from_last(a, n - 1 - i), dim_from_last(b, n - 1 - i)))
}

/// `dims` with another extent along the last axis.
pub open spec fn with_last(dims: Seq<Dim>, d: Dim) -> Seq<Dim> {
    if dims.len() == 0 {
        dims
    } else {
        dims.update(dims.len() - 1, d)
    }
}

/// `dims` with another extent along `axis`, where there is such an axis.
pub open spec fn with_axis(dims: Seq<Dim>, axis: int, d: Dim) -> Seq<Dim> {
    if 0 <= axis < dims.len() {
        dims.update(axis, d)
    } else {
        dims
    }
}

/// The extents of the result of an operation on one tensor.
pub open spec fn unary_dims(op: Unary, dims: Seq<Dim>) -> Seq<Dim> {
    match op {
        Unary::SumLast | Unary::MeanLast => with_last(dims, Dim::Fixed(1)),
        Unary::UnsqueezeFirst => seq![Dim::Fixed(1)] + dims,
        Unary::Squeeze(axis) => if axis < dims.len() {
            dims.remove(axis as int)
        } else {
            dims
        },
        Unary::Narrow { axis, start, len } => with_axis(dims, axis as int, len),
        Unary::NarrowLast { start, count } => with_last(dims, Dim::Fixed(count)),
        Unary::Transpose(a, b) => if a < dims.len() && b < dims.len() {
            dims.update(a as int, dims[b as int]).update(b as int, dims[a as int])
        } else {
            dims
        },
        Unary::RepeatKv(n) => if 1 < dims.len() {
            dims.update(1, dim_mul(dims[1], Dim::Fixed(n)))
        } else {
            dims
        },
        _ => dims,
    }
}

/// The extents of the result of an operation on two tensors.
pub open spec fn binary_dims(op: Binary, a: Seq<Dim>, b: Seq<Dim>) -> Seq<Dim> {
    match op {
        Binary::Add | Binary::Mul => a,
        Binary::BroadcastAdd | Binary::BroadcastMul | Binary::BroadcastDiv => broadcast_dims(a, b),
        Binary::Matmul => with_last(a, dim_from_last(b, 0)),
        Binary::CatLast => with_last(a, dim_add(dim_from_last(a, 0), dim_from_last(b, 0))),
    }
}

impl Term {
    /// The extents of the tensor, whenever the operations in it succeed.
    pub open spec fn dims(self) -> Seq<Dim>
        decreases self,
    {
        match self {
            Term::TokenIds(dims) => dims,
            Term::Embeds(dims, _) => dims,
            Term::Param(p, _) => seq![Dim::Fixed(p.len)],
            Term::InvFreq { numerators, .. } => seq![
                Dim::Fixed(1),
                Dim::Fixed(numerators.len() as usize),
            ],
            Term::Arange(n) => seq![Dim::Fixed(n as usize)],
            Term::Zeros(dims) => dims,
            Term::Mask { size, .. } => seq![Dim::Fixed(size), Dim::Fixed(size)],
            Term::Apply(op, x) => unary_dims(op, x.dims()),
            Term::Combine(op, a, b) => binary_dims(op, a.dims(), b.dims()),
            Term::Reshape(_, dims) => dims,
            Term::Expand(_, dims) => dims,
            Term::Project(p, x) => with_last(x.dims(), Dim::Fixed(p.out_dim())),
            Term::Lookup(e, _, ids) => ids.dims().push(Dim::Fixed(e.cols)),
            Term::FlashAttn { q, .. } => q.dims(),
            Term::Append { layer, k, .. } => with_axis(k.dims(), 2, Dim::Cached(layer)),
            Term::CachedKeys(a) => a.cached_dims(true),
            Term::CachedValues(a) => a.cached_dims(false),
        }
    }

    /// The extents of the keys, or else the values, of a cache after an append.
    pub open spec fn cached_dims(self, keys: bool) -> Seq<Dim>
        decreases self,
    {
        match self {
            Term::Append { layer, k, v, .. } => if keys {
                with_axis(k.dims(), 2, Dim::Cached(layer))
            } else {
                with_axis(v.dims(), 2, Dim::Cached(layer))
            },
            _ => Seq::empty(),
        }
    }

    /// The element type of the tensor.
    pub open spec fn dtype(self) -> DType
        decreases self,
    {
        match self {
            Term::TokenIds(_) => DType::U32,
            Term::Embeds(_, d) => d,
            Term::Param(_, d) => d,
            Term::InvFreq { .. } => DType::F32,
            Term::Arange(_) => DType::U32,
            Term::Zeros(_) => DType::F32,
            Term::Mask { .. } => DType::F32,
            Term::Apply(Unary::Cast(d), _) => d,
            Term::Apply(_, x) => x.dtype(),
            Term::Combine(_, a, _) => a.dtype(),
            Term::Reshape(x, _) => x.dtype(),
            Term::Expand(x, _) => x.dtype(),
            Term::Project(_, x) => x.dtype(),
            Term::Lookup(_, d, _) => d,
            Term::FlashAttn { q, .. } => q.dtype(),
            Term::Append { k, .. } => k.dtype(),
            Term::CachedKeys(a) => a.cached_dtype(true),
            Term::CachedValues(a) => a.cached_dtype(false),
        }
    }

    /// The element type of the keys, or else the values, of a cache after an append.
    pub open spec fn cached_dtype(self, keys: bool) -> DType
        decreases self,
    {
        match self {
            Term::Append { k, v, .. } => if keys {
                k.dtype()
            } else {
                v.dtype()
            },
            _ => DType::F32,
        }
    }

    /// Whether this term is `t` or stands somewhere within it.
    #[verifier::opaque]
    pub open spec fn part_of(self, t: Term) -> bool
        decreases t,
    {
        self == t || match t {
            Term::Apply(_, x) => self.part_of(*x),
            Term::Combine(_, a, b) => self.part_of(*a) || self.part_of(*b),
            Term::Reshape(x, _) => self.part_of(*x),
            Term::Expand(x, _) => self.part_of(*x),
            Term::Project(_, x) => self.part_of(*x),
            Term::Lookup(_, _, x) => self.part_of(*x),
            Term::FlashAttn { q, k, v, .. } => self.part_of(*q) || self.part_of(*k)
                || self.part_of(*v),
            Term::Append { k, v, .. } => self.part_of(*k) || self.part_of(*v),
            Term::CachedKeys(a) => self.part_of(*a),
            Term::CachedValues(a) => self.part_of(*a),
            _ => false,
        }
    }

    /// The term of an operation on this one.
    pub open spec fn apply(self, op: Unary) -> Term {
        Term::Apply(op, Box::new(self))
    }

    /// The term of an operation on this one and another.
    pub open spec fn combine(self, op: Binary, other: Term) -> Term {
        Term::Combine(op, Box::new(self), Box::new(other))
    }

    /// The term of this tensor under other extents.
    pub open spec fn reshape(self, dims: Seq<Dim>) -> Term {
        Term::Reshape(Box::new(self), dims)
    }

    /// The term of this tensor through a projection.
    pub open spec fn project(self, p: Projection) -> Term {
        Term::Project(p, Box::new(self))
    }

    /// Whether the term stands for an action on a cache, and not for a value alone.
    pub open spec fn is_append(self) -> bool {
        self is Append
    }
}

} // verus!
