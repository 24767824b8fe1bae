//! A tape of tensor operations.

use crate::parts::{lemma_part_self, lemma_parts_within, parts};
use crate::refusal::Refusal;
use crate::shape;
use crate::term::{
    Binary, DType, Dim, Embedding, F64Bits, Param, Precision, Projection, Term, Unary,
};
use vstd::prelude::*;

verus! {

/// One recorded operation; operands are given by their places on the tape.
#[derive(Clone, PartialEq, Eq, Debug)]
pub enum Op {
    TokenIds,
    Embeds,
    Param(Param),
    InvFreq {
        numerators: Vec<Option<usize>>,
        head_dim: usize,
        theta: F64Bits,
        precision: Precision,
    },
    Arange(u32),
    Zeros,
    Mask { size: usize, blocked: Vec<bool> },
    Apply(Unary, usize),
    Combine(Binary, usize, usize),
    Reshape(usize),
    Expand(usize),
    Project(Projection, usize),
    Lookup(Embedding, usize),
    FlashAttn { q: usize, k: usize, v: usize, causal: bool },
    Append { layer: usize, fresh: bool, k: usize, v: usize },
    CachedKeys(usize),
    CachedValues(usize),
}

impl Op {
    /// The places of the operands, in order.
    pub open spec fn places(self) -> Seq<usize> {
        match self {
            Op::Apply(_, x) | Op::Project(_, x) | Op::Lookup(_, x) => seq![x],
            Op::Reshape(x) | Op::Expand(x) | Op::CachedKeys(x) | Op::CachedValues(x) => seq![x],
            Op::Combine(_, a, b) => seq![a, b],
            Op::FlashAttn { q, k, v, .. } => seq![q, k, v],
            Op::Append { k, v, .. } => seq![k, v],
            _ => Seq::empty(),
        }
    }

    /// Whether every operand stands before place `n`.
    pub open spec fn operands_below(self, n: nat) -> bool {
        forall|i: int| 0 <= i < self.places().len() ==> #[trigger] self.places()[i] < n
    }

    /// Returns the places of the operands, in order.
    pub fn operands(&self) -> (r: Vec<usize>)
        ensures
            r@ == self.places(),
    {
        let r: Vec<usize> = match self {
            Op::Apply(_, x) | Op::Project(_, x) | Op::Lookup(_, x) => vec![*x],
            Op::Reshape(x) | Op::Expand(x) | Op::CachedKeys(x) | Op::CachedValues(x) => vec![*x],
            Op::Combine(_, a, b) => vec![*a, *b],
            Op::FlashAttn { q, k, v, .. } => vec![*q, *k, *v],
            Op::Append { k, v, .. } => vec![*k, *v],
            _ => vec![],
        };
        assert(r@ =~= self.places());
        r
    }

    /// The term of the operation, given the terms that stand before it.
    pub open spec fn meaning(self, dims: Seq<Dim>, dtype: DType, terms: Seq<Term>) -> Term {
        match self {
            Op::TokenIds => Term::TokenIds(dims),
            Op::Embeds => Term::Embeds(dims, dtype),
            Op::Param(p) => Term::Param(p, dtype),
            Op::InvFreq { numerators, head_dim, theta, precision } => Term::InvFreq {
                numerators: numerators@,
                head_dim,
                theta,
                precision,
            },
            Op::Arange(n) => Term::Arange(n),
            Op::Zeros => Term::Zeros(dims),
            Op::Mask { size, blocked } => Term::Mask { size, blocked: blocked@ },
            Op::Apply(op, x) => Term::Apply(op, Box::new(terms[x as int])),
            Op::Combine(op, a, b) => Term::Combine(
                op,
                Box::new(terms[a as int]),
                Box::new(terms[b as int]),
            ),
            Op::Reshape(x) => Term::Reshape(Box::new(terms[x as int]), dims),
            Op::Expand(x) => Term::Expand(Box::new(terms[x as int]), dims),
            Op::Project(p, x) => Term::Project(p, Box::new(terms[x as int])),
            Op::Lookup(e, x) => Term::Lookup(e, dtype, Box::new(terms[x as int])),
            Op::FlashAttn { q, k, v, causal } => Term::FlashAttn {
                q: Box::new(terms[q as int]),
                k: Box::new(terms[k as int]),
                v: Box::new(terms[v as int]),
                causal,
            },
            Op::Append { layer, fresh, k, v } => Term::Append {
                layer,
                fresh,
                k: Box::new(terms[k as int]),
                v: Box::new(terms[v as int]),
            },
            Op::CachedKeys(x) => Term::CachedKeys(Box::new(terms[x as int])),
            Op::CachedValues(x) => Term::CachedValues(Box::new(terms[x as int])),
        }
    }
}

/// An operation with the extents and the element type of its result.
#[derive(Clone, PartialEq, Eq, Debug)]
pub struct Node {
    pub op: Op,
    pub dims: Vec<Dim>,
    pub dtype: DType,
}

impl Node {
    /// Whether the node, at place `i` of a tape with these terms, is recorded
    /// as what its operation means.
    pub open spec fn recorded(self, i: int, terms: Seq<Term>) -> bool {
        &&& self.op.operands_below(i as nat)
        &&& terms[i] == self.op.meaning(self.dims@, self.dtype, terms)
        &&& self.dims@ == terms[i].dims()
        &&& self.dtype == terms[i].dtype()
    }
}

/// A tensor: a place on a tape, with the term recorded there.
#[derive(Clone, Copy)]
pub struct Tensor {
    id: usize,
    term: Ghost<Term>,
}

impl Tensor {
    /// The place on the tape.
    pub closed spec fn place(self) -> usize {
        self.id
    }

    /// Returns the place on the tape.
    pub fn id(&self) -> (r: usize)
        ensures
            r == self.place(),
    {
        self.id
    }
}

impl View for Tensor {
    type V = Term;

    closed spec fn view(&self) -> Term {
        self.term@
    }
}

/// Operations in the order in which they are carried out.
#[derive(Clone)]
pub struct Tape {
    /// The recorded operations.
    pub nodes: Vec<Node>,
    /// The element type of the weights.
    pub dtype: DType,
    /// What each operation stands for.
    pub terms: Ghost<Seq<Term>>,
}

/// The actions on caches among `terms`, in order.
#[verifier::opaque]
pub open spec fn actions(terms: Seq<Term>) -> Seq<Term>
    decreases terms.len(),
{
    if terms.len() == 0 {
        Seq::empty()
    } else if terms.last().is_append() {
        actions(terms.drop_last()).push(terms.last())
    } else {
        actions(terms.drop_last())
    }
}

impl Tape {
    /// Every node is recorded as what its operation means.
    #[verifier::opaque]
    pub open spec fn wf(self) -> bool {
        &&& self.terms@.len() == self.nodes@.len()
        &&& forall|i: int|
            0 <= i < self.nodes@.len() ==> (#[trigger] self.nodes@[i]).recorded(i, self.terms@)
    }

    /// Whether `x` is a tensor of this tape.
    #[verifier::opaque]
    pub open spec fn holds(self, x: Tensor) -> bool {
        x.place() < self.terms@.len() && self.terms@[x.place() as int] == x@
    }

    /// The actions on caches, in order.
    pub open spec fn actions(self) -> Seq<Term> {
        actions(self.terms@)
    }

    /// Whether this tape is `old` with more operations behind it.
    #[verifier::opaque]
    pub open spec fn extends(self, old: Tape) -> bool {
        &&& self.wf()
        &&& self.dtype == old.dtype
        &&& old.terms@.len() <= self.terms@.len()
        &&& forall|i: int| 0 <= i < old.terms@.len() ==> #[trigger] self.terms@[i] == old.terms@[i]
    }

    /// Whether all that stands on this tape behind `old` is in `kept`.
    #[verifier::opaque]
    pub open spec fn adds(self, old: Tape, kept: Set<Term>) -> bool {
        &&& old.terms@.len() <= self.terms@.len()
        &&& forall|i: int|
            old.terms@.len() <= i < self.terms@.len() ==> kept.contains(#[trigger] self.terms@[i])
    }

    /// Whether this tape is `old` with more operations behind it, all of them in `kept`
    /// and none of which acts on a cache.
    pub open spec fn computes(self, old: Tape, kept: Set<Term>) -> bool {
        &&& self.extends(old)
        &&& self.actions() == old.actions()
        &&& self.adds(old, kept)
    }

    /// An empty tape for a model with weights of the given element type.
    pub fn new(dtype: DType) -> (r: Tape)
        ensures
            r.wf(),
            r.dtype == dtype,
            r.nodes@.len() == 0,
            r.actions() == Seq::<Term>::empty(),
    {
        reveal(Tape::wf);
        reveal(actions);
        Tape { nodes: Vec::new(), dtype, terms: Ghost(Seq::empty()) }
    }

    /// Returns the number of operations on the tape.
    pub fn len(&self) -> (r: usize)
        ensures
            r == self.nodes@.len(),
    {
        self.nodes.len()
    }

    /// Takes back every operation from place `len` on.
    pub fn truncate(&mut self, len: usize)
        requires
            old(self).wf(),
            len <= old(self).nodes@.len(),
        ensures
            final(self).wf(),
            final(self).dtype == old(self).dtype,
            final(self).nodes@ == old(self).nodes@.take(len as int),
            final(self).terms@ == old(self).terms@.take(len as int),
    {
        reveal(Tape::wf);
        self.nodes.truncate(len);
        self.terms = Ghost(self.terms@.take(len as int));
        assert forall|i: int| 0 <= i < self.nodes@.len() implies (
        #[trigger] self.nodes@[i]).recorded(i, self.terms@) by {
            assert(old(self).nodes@[i].recorded(i, old(self).terms@));
            lemma_meaning_of_prefix(self.nodes@[i], i, old(self).terms@, self.terms@);
        }
    }

    fn push(&mut self, op: Op, dims: Vec<Dim>, dtype: DType) -> (r: Tensor)
        requires
            old(self).wf(),
            op.operands_below(old(self).terms@.len()),
            ({
                let t = op.meaning(dims@, dtype, old(self).terms@);
                t.dims() == dims@ && t.dtype() == dtype
            }),
        ensures
            final(self).extends(*old(self)),
            final(self).holds(r),
            r@ == op.meaning(dims@, dtype, old(self).terms@),
            final(self).terms@ == old(self).terms@.push(r@),
            final(self).adds(*old(self), parts(r@)),
            r@.is_append() ==> final(self).actions() == old(self).actions().push(r@),
            !r@.is_append() ==> final(self).actions() == old(self).actions(),
    {
        reveal(Tape::wf);
        reveal(Tape::holds);
        reveal(Tape::extends);
        reveal(Tape::adds);
        reveal(actions);
        let ghost t = op.meaning(dims@, dtype, self.terms@);
        let ghost before = *self;
        proof {
            lemma_part_self(t);
        }
        let id: usize = self.nodes.len();
        self.nodes.push(Node { op, dims, dtype });
        self.terms = Ghost(self.terms@.push(t));
        proof {
            assert(self.terms@.drop_last() =~= before.terms@);
            assert forall|i: int| 0 <= i < self.nodes@.len() implies (
            #[trigger] self.nodes@[i]).recorded(i, self.terms@) by {
                if i < before.nodes@.len() {
                    assert(before.nodes@[i].recorded(i, before.terms@));
                    lemma_meaning_of_prefix(self.nodes@[i], i, before.terms@, self.terms@);
                } else {
                    lemma_meaning_of_prefix_op(op, dims@, dtype, i, before.terms@, self.terms@);
                }
            }
        }
        Tensor { id, term: Ghost(t) }
    }

    /// The element type of a tensor.
    pub fn dtype(&self, x: &Tensor) -> (r: DType)
        requires
            self.wf(),
            self.holds(*x),
        ensures
            r == x@.dtype(),
    {
        reveal(Tape::wf);
        reveal(Tape::holds);
        assert(self.nodes@[x.id as int].recorded(x.id as int, self.terms@));
        self.nodes[x.id].dtype
    }

    /// The extents of a tensor.
    pub fn dims(&self, x: &Tensor) -> (r: &Vec<Dim>)
        requires
            self.wf(),
            self.holds(*x),
        ensures
            r@ == x@.dims(),
    {
        reveal(Tape::wf);
        reveal(Tape::holds);
        assert(self.nodes@[x.id as int].recorded(x.id as int, self.terms@));
        &self.nodes[x.id].dims
    }

    /// The extent of a tensor along its last axis.
    pub fn last_dim(&self, x: &Tensor) -> (r: Result<Dim, Refusal>)
        requires
            self.wf(),
            self.holds(*x),
        ensures
            r == if x@.dims().len() == 0 {
                Err::<Dim, Refusal>(Refusal::NoAxis)
            } else {
                Ok(x@.dims().last())
            },
    {
        let dims = self.dims(x);
        let n: usize = dims.len();
        if n == 0 {
            Err(Refusal::NoAxis)
        } else {
            Ok(dims[n - 1])
        }
    }

    /// The extents of a tensor that has two axes.
    pub fn dims2(&self, x: &Tensor) -> (r: Result<(Dim, Dim), Refusal>)
        requires
            self.wf(),
            self.holds(*x),
        ensures
            r == if x@.dims().len() == 2 {
                Ok((x@.dims()[0], x@.dims()[1]))
            } else {
                Err(Refusal::Rank { expected: 2, found: x@.dims().len() as usize })
            },
    {
        let dims = self.dims(x);
        if dims.len() == 2 {
            Ok((dims[0], dims[1]))
        } else {
            Err(Refusal::Rank { expected: 2, found: dims.len() })
        }
    }

    /// The extents of a tensor that has three axes.
    pub fn dims3(&self, x: &Tensor) -> (r: Result<(Dim, Dim, Dim), Refusal>)
        requires
            self.wf(),
            self.holds(*x),
        ensures
            r == if x@.dims().len() == 3 {
                Ok((x@.dims()[0], x@.dims()[1], x@.dims()[2]))
            } else {
                Err(Refusal::Rank { expected: 3, found: x@.dims().len() as usize })
            },
    {
        let dims = self.dims(x);
        if dims.len() == 3 {
            Ok((dims[0], dims[1], dims[2]))
        } else {
            Err(Refusal::Rank { expected: 3, found: dims.len() })
        }
    }

    /// The extents of a tensor that has four axes.
    pub fn dims4(&self, x: &Tensor) -> (r: Result<(Dim, Dim, Dim, Dim), Refusal>)
        requires
            self.wf(),
            self.holds(*x),
        ensures
            r == if x@.dims().len() == 4 {
                Ok((x@.dims()[0], x@.dims()[1], x@.dims()[2], x@.dims()[3]))
            } else {
                Err(Refusal::Rank { expected: 4, found: x@.dims().len() as usize })
            },
    {
        let dims = self.dims(x);
        if dims.len() == 4 {
            Ok((dims[0], dims[1], dims[2], dims[3]))
        } else {
            Err(Refusal::Rank { expected: 4, found: dims.len() })
        }
    }

    /// Token identifiers of the given extents, handed in by the caller.
    pub fn token_ids(&mut self, sizes: &Vec<usize>) -> (r: Tensor)
        requires
            old(self).wf(),
        ensures
            final(self).computes(*old(self), parts(r@)),
            final(self).holds(r),
            r@ == Term::TokenIds(shape::fixed_dims(sizes@)),
    {
        self.push(Op::TokenIds, shape::fix_dims(sizes), DType::U32)
    }

    /// Embeddings of the given extents and element type, handed in by the caller.
    pub fn embeds(&mut self, sizes: &Vec<usize>, dtype: DType) -> (r: Tensor)
        requires
            old(self).wf(),
        ensures
            final(self).computes(*old(self), parts(r@)),
            final(self).holds(r),
            r@ == Term::Embeds(shape::fixed_dims(sizes@), dtype),
    {
        self.push(Op::Embeds, shape::fix_dims(sizes), dtype)
    }

    /// A weight vector.
    pub fn param(&mut self, p: Param) -> (r: Tensor)
        requires
            old(self).wf(),
        ensures
            final(self).computes(*old(self), parts(r@)),
            final(self).holds(r),
            r@ == Term::Param(p, old(self).dtype),
    {
        let dims: Vec<Dim> = vec![Dim::Fixed(p.len)];
        assert(dims@ =~= seq![Dim::Fixed(p.len)]);
        let dtype = self.dtype;
        self.push(Op::Param(p), dims, dtype)
    }

    /// A row of inverse frequencies.
    pub fn inv_freq(
        &mut self,
        numerators: Vec<Option<usize>>,
        head_dim: usize,
        theta: F64Bits,
        precision: Precision,
    ) -> (r: Tensor)
        requires
            old(self).wf(),
        ensures
            final(self).computes(*old(self), parts(r@)),
            final(self).holds(r),
            r@ == (Term::InvFreq { numerators: numerators@, head_dim, theta, precision }),
    {
        let dims: Vec<Dim> = vec![Dim::Fixed(1), Dim::Fixed(numerators.len())];
        assert(dims@ =~= seq![Dim::Fixed(1), Dim::Fixed(numerators@.len() as usize)]);
        self.push(Op::InvFreq { numerators, head_dim, theta, precision }, dims, DType::F32)
    }

    /// The numbers from zero up to a bound, which is left out.
    pub fn arange(&mut self, end: u32) -> (r: Tensor)
        requires
            old(self).wf(),
        ensures
            final(self).computes(*old(self), parts(r@)),
            final(self).holds(r),
            r@ == Term::Arange(end),
    {
        let dims: Vec<Dim> = vec![Dim::Fixed(end as usize)];
        assert(dims@ =~= seq![Dim::Fixed(end as usize)]);
        self.push(Op::Arange(end), dims, DType::U32)
    }

    /// A tensor of zeros.
    pub fn zeros(&mut self, sizes: &Vec<usize>) -> (r: Tensor)
        requires
            old(self).wf(),
        ensures
            final(self).computes(*old(self), parts(r@)),
            final(self).holds(r),
            r@ == Term::Zeros(shape::fixed_dims(sizes@)),
    {
        self.push(Op::Zeros, shape::fix_dims(sizes), DType::F32)
    }

    /// A square matrix, row by row: minus infinity where `blocked`, else zero.
    pub fn mask(&mut self, size: usize, blocked: Vec<bool>) -> (r: Tensor)
        requires
            old(self).wf(),
        ensures
            final(self).computes(*old(self), parts(r@)),
            final(self).holds(r),
            r@ == (Term::Mask { size, blocked: blocked@ }),
    {
        let dims: Vec<Dim> = vec![Dim::Fixed(size), Dim::Fixed(size)];
        assert(dims@ =~= seq![Dim::Fixed(size), Dim::Fixed(size)]);
        self.push(Op::Mask { size, blocked }, dims, DType::F32)
    }

    /// An operation on one tensor.
    pub fn apply(&mut self, op: Unary, x: &Tensor) -> (r: Tensor)
        requires
            old(self).wf(),
            old(self).holds(*x),
        ensures
            final(self).computes(*old(self), parts(r@)),
            final(self).holds(r),
            r@ == x@.apply(op),
    {
        reveal(Tape::holds);
        let dims = shape::unary(op, self.dims(x));
        let dtype = match op {
            Unary::Cast(d) => d,
            _ => self.dtype(x),
        };
        self.push(Op::Apply(op, x.id), dims, dtype)
    }

    /// An operation on two tensors.
    pub fn combine(&mut self, op: Binary, a: &Tensor, b: &Tensor) -> (r: Tensor)
        requires
            old(self).wf(),
            old(self).holds(*a),
            old(self).holds(*b),
        ensures
            final(self).computes(*old(self), parts(r@)),
            final(self).holds(r),
            r@ == a@.combine(op, b@),
    {
        reveal(Tape::holds);
        let dims = shape::binary(op, self.dims(a), self.dims(b));
        let dtype = self.dtype(a);
        self.push(Op::Combine(op, a.id, b.id), dims, dtype)
    }

    /// A tensor under other extents.
    pub fn reshape(&mut self, x: &Tensor, dims: Vec<Dim>) -> (r: Tensor)
        requires
            old(self).wf(),
            old(self).holds(*x),
        ensures
            final(self).computes(*old(self), parts(r@)),
            final(self).holds(r),
            r@ == x@.reshape(dims@),
    {
        reveal(Tape::holds);
        let dtype = self.dtype(x);
        self.push(Op::Reshape(x.id), dims, dtype)
    }

    /// A tensor repeated along axes of extent one.
    pub fn expand(&mut self, x: &Tensor, dims: Vec<Dim>) -> (r: Tensor)
        requires
            old(self).wf(),
            old(self).holds(*x),
        ensures
            final(self).computes(*old(self), parts(r@)),
            final(self).holds(r),
            r@ == Term::Expand(Box::new(x@), dims@),
    {
        reveal(Tape::holds);
        let dtype = self.dtype(x);
        self.push(Op::Expand(x.id), dims, dtype)
    }

    /// A tensor through a projection.
    pub fn project(&mut self, p: Projection, x: &Tensor) -> (r: Tensor)
        requires
            old(self).wf(),
            old(self).holds(*x),
        ensures
            final(self).computes(*old(self), parts(r@)),
            final(self).holds(r),
            r@ == x@.project(p),
    {
        reveal(Tape::holds);
        let dims = shape::set_last(self.dims(x), Dim::Fixed(p.width()));
        let dtype = self.dtype(x);
        self.push(Op::Project(p, x.id), dims, dtype)
    }

    /// The rows of an embedding table that token identifiers select.
    pub fn lookup(&mut self, table: Embedding, ids: &Tensor) -> (r: Tensor)
        requires
            old(self).wf(),
            old(self).holds(*ids),
        ensures
            final(self).computes(*old(self), parts(r@)),
            final(self).holds(r),
            r@ == Term::Lookup(table, old(self).dtype, Box::new(ids@)),
    {
        reveal(Tape::holds);
        let mut dims = shape::copy_dims(self.dims(ids));
        dims.push(Dim::Fixed(table.cols));
        let dtype = self.dtype;
        self.push(Op::Lookup(table, ids.id), dims, dtype)
    }

    /// Fused attention with unit scale.
    pub fn flash_attn(&mut self, q: &Tensor, k: &Tensor, v: &Tensor, causal: bool) -> (r: Tensor)
        requires
            old(self).wf(),
            old(self).holds(*q),
            old(self).holds(*k),
            old(self).holds(*v),
        ensures
            final(self).computes(*old(self), parts(r@)),
            final(self).holds(r),
            r@ == (Term::FlashAttn { q: Box::new(q@), k: Box::new(k@), v: Box::new(v@), causal }),
    {
        reveal(Tape::holds);
        let dims = shape::copy_dims(self.dims(q));
        let dtype = self.dtype(q);
        self.push(Op::FlashAttn { q: q.id, k: k.id, v: v.id, causal }, dims, dtype)
    }

    /// Appends keys and values to the cache of a layer and hands back all that
    /// it holds then.
    pub fn append(&mut self, layer: usize, fresh: bool, k: &Tensor, v: &Tensor) -> (r: (
        Tensor,
        Tensor,
    ))
        requires
            old(self).wf(),
            old(self).holds(*k),
            old(self).holds(*v),
        ensures
            final(self).extends(*old(self)),
            final(self).holds(r.0),
            final(self).holds(r.1),
            final(self).adds(*old(self), parts(r.0@).union(parts(r.1@))),
            ({
                let action = Term::Append { layer, fresh, k: Box::new(k@), v: Box::new(v@) };
                &&& final(self).actions() == old(self).actions().push(action)
                &&& r.0@ == Term::CachedKeys(Box::new(action))
                &&& r.1@ == Term::CachedValues(Box::new(action))
            }),
    {
        reveal(Tape::holds);
        let key_dims = shape::set_axis(self.dims(k), 2, Dim::Cached(layer));
        let key_dims_again = shape::copy_dims(&key_dims);
        let value_dims = shape::set_axis(self.dims(v), 2, Dim::Cached(layer));
        let key_dtype = self.dtype(k);
        let value_dtype = self.dtype(v);
        let action = self.push(
            Op::Append { layer, fresh, k: k.id, v: v.id },
            key_dims,
            key_dtype,
        );
        proof {
            reveal(Tape::extends);
            reveal_with_fuel(Term::dims, 2);
            reveal_with_fuel(Term::dtype, 2);
            reveal_with_fuel(Term::cached_dims, 2);
            reveal_with_fuel(Term::cached_dtype, 2);
        }
        let keys = self.push(Op::CachedKeys(action.id), key_dims_again, key_dtype);
        let values = self.push(Op::CachedValues(action.id), value_dims, value_dtype);
        proof {
            reveal(Tape::adds);
            reveal_with_fuel(Term::part_of, 2);
            lemma_parts_within(action@, keys@);
        }
        (keys, values)
    }
}

/// What is behind a tape that extends another extends that one too.
pub broadcast proof fn lemma_extends_trans(a: Tape, b: Tape, c: Tape)
    requires
        #[trigger] b.extends(a),
        #[trigger] c.extends(b),
    ensures
        c.extends(a),
{
    reveal(Tape::extends);
}

/// A tape that extends another holds its tensors and is well formed.
pub broadcast proof fn lemma_extends_holds(a: Tape, b: Tape, x: Tensor)
    requires
        #[trigger] b.extends(a),
        #[trigger] a.holds(x),
    ensures
        b.holds(x),
{
    reveal(Tape::extends);
    reveal(Tape::holds);
}

/// A tape that extends another is well formed and has the same weights.
pub broadcast proof fn lemma_extends_wf(a: Tape, b: Tape)
    requires
        #[trigger] b.extends(a),
    ensures
        b.wf(),
        b.dtype == a.dtype,
{
    reveal(Tape::extends);
}

/// A tape extends itself.
pub broadcast proof fn lemma_extends_self(a: Tape)
    requires
        a.wf(),
    ensures
        #[trigger] a.extends(a),
{
    reveal(Tape::extends);
}

/// What two stretches of a tape add is what they add together.
pub broadcast proof fn lemma_adds_trans(a: Tape, b: Tape, c: Tape, kept: Set<Term>)
    requires
        #[trigger] b.adds(a, kept),
        #[trigger] c.adds(b, kept),
        c.extends(b),
    ensures
        c.adds(a, kept),
{
    reveal(Tape::adds);
    reveal(Tape::extends);
    assert forall|i: int| a.terms@.len() <= i < c.terms@.len() implies kept.contains(
        #[trigger] c.terms@[i],
    ) by {
        if i < b.terms@.len() {
            assert(c.terms@[i] == b.terms@[i]);
        }
    }
}

/// What is added from a set is added from a larger one.
pub broadcast proof fn lemma_adds_within(a: Tape, b: Tape, kept: Set<Term>, more: Set<Term>)
    requires
        #[trigger] b.adds(a, kept),
        #[trigger] kept.subset_of(more),
    ensures
        b.adds(a, more),
{
    reveal(Tape::adds);
}

/// What one stretch of a tape adds from one set and the next from another is added
/// from both together.
pub proof fn lemma_adds_join(a: Tape, b: Tape, c: Tape, first: Set<Term>, second: Set<Term>)
    requires
        b.adds(a, first),
        c.adds(b, second),
        c.extends(b),
    ensures
        c.adds(a, first.union(second)),
{
    lemma_adds_within(a, b, first, first.union(second));
    lemma_adds_within(b, c, second, first.union(second));
    lemma_adds_trans(a, b, c, first.union(second));
}

/// A tape adds nothing to itself.
pub broadcast proof fn lemma_adds_self(a: Tape, kept: Set<Term>)
    ensures
        #[trigger] a.adds(a, kept),
{
    reveal(Tape::adds);
}

pub broadcast group group_adds {
    lemma_adds_trans,
    lemma_adds_within,
    lemma_adds_self,
}

pub broadcast group group_tape {
    lemma_extends_trans,
    lemma_extends_holds,
    lemma_extends_wf,
    lemma_extends_self,
}

/// The meaning of an operation rests on the terms before it alone.
proof fn lemma_meaning_of_prefix_op(
    op: Op,
    dims: Seq<Dim>,
    dtype: DType,
    n: int,
    a: Seq<Term>,
    b: Seq<Term>,
)
    requires
        0 <= n <= a.len(),
        n <= b.len(),
        op.operands_below(n as nat),
        forall|j: int| 0 <= j < n ==> a[j] == b[j],
    ensures
        op.meaning(dims, dtype, a) == op.meaning(dims, dtype, b),
{
    let p = op.places();
    assert(forall|i: int| 0 <= i < p.len() ==> a[#[trigger] p[i] as int] == b[p[i] as int]);
    assert(p.len() <= 3);
    assert(p.len() > 0 ==> a[p[0] as int] == b[p[0] as int]);
    assert(p.len() > 1 ==> a[p[1] as int] == b[p[1] as int]);
    assert(p.len() > 2 ==> a[p[2] as int] == b[p[2] as int]);
}

/// A node stays recorded on any tape that has the same terms up to it.
proof fn lemma_meaning_of_prefix(node: Node, i: int, a: Seq<Term>, b: Seq<Term>)
    requires
        0 <= i < a.len(),
        i < b.len(),
        node.recorded(i, a),
        forall|j: int| 0 <= j <= i ==> a[j] == b[j],
    ensures
        node.recorded(i, b),
{
    lemma_meaning_of_prefix_op(node.op, node.dims@, node.dtype, i, a, b);
}

/// What recorded operations stand for: each is the operation that it names on the terms at
/// its places, in the order in which it lists them, with the extents and the element type
/// that are recorded where the operation takes any.
pub proof fn law_operations_mean_what_they_name(
    terms: Seq<Term>,
    dims: Seq<Dim>,
    dtype: DType,
    x: usize,
    y: usize,
    z: usize,
    layer: usize,
    flag: bool,
)
    ensures
        Op::TokenIds.meaning(dims, dtype, terms) == Term::TokenIds(dims),
        Op::Embeds.meaning(dims, dtype, terms) == Term::Embeds(dims, dtype),
        Op::Zeros.meaning(dims, dtype, terms) == Term::Zeros(dims),
        forall|p: Param| #[trigger]
            Op::Param(p).meaning(dims, dtype, terms) == Term::Param(p, dtype),
        forall|op: Unary| #[trigger]
            Op::Apply(op, x).meaning(dims, dtype, terms) == terms[x as int].apply(op),
        forall|op: Binary| #[trigger]
            Op::Combine(op, x, y).meaning(dims, dtype, terms) == terms[x as int].combine(
                op,
                terms[y as int],
            ),
        Op::Reshape(x).meaning(dims, dtype, terms) == terms[x as int].reshape(dims),
        Op::Expand(x).meaning(dims, dtype, terms) == Term::Expand(Box::new(terms[x as int]), dims),
        forall|p: Projection| #[trigger]
            Op::Project(p, x).meaning(dims, dtype, terms) == terms[x as int].project(p),
        forall|e: Embedding| #[trigger]
            Op::Lookup(e, x).meaning(dims, dtype, terms) == Term::Lookup(
                e,
                dtype,
                Box::new(terms[x as int]),
            ),
        (Op::FlashAttn { q: x, k: y, v: z, causal: flag }).meaning(dims, dtype, terms) == (
        Term::FlashAttn {
            q: Box::new(terms[x as int]),
            k: Box::new(terms[y as int]),
            v: Box::new(terms[z as int]),
            causal: flag,
        }),
        (Op::Append { layer, fresh: flag, k: x, v: y }).meaning(dims, dtype, terms) == (
        Term::Append {
            layer,
            fresh: flag,
            k: Box::new(terms[x as int]),
            v: Box::new(terms[y as int]),
        }),
        Op::CachedKeys(x).meaning(dims, dtype, terms) == Term::CachedKeys(
            Box::new(terms[x as int]),
        ),
        Op::CachedValues(x).meaning(dims, dtype, terms) == Term::CachedValues(
            Box::new(terms[x as int]),
        ),
{
}

/// What an operation stands for rests on its operands alone: where two tapes agree at the
/// places that it lists, it stands for the same.
pub proof fn law_operations_rest_on_their_operands(
    op: Op,
    dims: Seq<Dim>,
    dtype: DType,
    terms: Seq<Term>,
    others: Seq<Term>,
)
    requires
        forall|i: int|
            0 <= i < op.places().len() ==> terms[#[trigger] op.places()[i] as int]
                == others[op.places()[i] as int],
    ensures
        op.meaning(dims, dtype, terms) == op.meaning(dims, dtype, others),
{
    let p = op.places();
    if p.len() > 0 {
        assert(terms[p[0] as int] == others[p[0] as int]);
    }
    if p.len() > 1 {
        assert(terms[p[1] as int] == others[p[1] as int]);
    }
    if p.len() > 2 {
        assert(terms[p[2] as int] == others[p[2] as int]);
    }
}

/// What a tape stands for rests on its recorded operations alone.
pub proof fn law_operations_fix_the_terms(a: Tape, b: Tape)
    requires
        a.wf(),
        b.wf(),
        a.nodes@ == b.nodes@,
    ensures
        a.terms@ == b.terms@,
{
    reveal(Tape::wf);
    lemma_same_terms(a, b, a.nodes@.len());
    assert(a.terms@ =~= b.terms@);
}

proof fn lemma_same_terms(a: Tape, b: Tape, n: nat)
    requires
        a.wf(),
        b.wf(),
        a.nodes@ == b.nodes@,
        n <= a.nodes@.len(),
    ensures
        forall|i: int| 0 <= i < n ==> #[trigger] a.terms@[i] == b.terms@[i],
    decreases n,
{
    reveal(Tape::wf);
    if n > 0 {
        let i = n - 1;
        lemma_same_terms(a, b, i as nat);
        let node = a.nodes@[i];
        assert(node.recorded(i, a.terms@));
        assert(b.nodes@[i].recorded(i, b.terms@));
        lemma_meaning_of_prefix_op(node.op, node.dims@, node.dtype, i, a.terms@, b.terms@);
    }
}

} // verus!
