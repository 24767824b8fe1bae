//! Which terms stand within others.

use crate::sizes::Setting;
use crate::term::{Binary, Dim, Projection, Term, Unary};
use vstd::prelude::*;

verus! {

/// The terms within a term, itself among them.
pub open spec fn parts(t: Term) -> Set<Term> {
    Set::new(|x: Term| x.part_of(t))
}

/// The terms within an optional term.
pub open spec fn optional_parts(t: Option<Term>) -> Set<Term> {
    match t {
        Some(t) => parts(t),
        None => Set::empty(),
    }
}

/// A term is part of itself.
pub broadcast proof fn lemma_part_self(t: Term)
    ensures
        #[trigger] t.part_of(t),
{
    reveal(Term::part_of);
}

/// The operand of an operation is part of its result.
pub broadcast proof fn lemma_part_apply(x: Term, op: Unary)
    ensures
        x.part_of(#[trigger] x.apply(op)),
{
    reveal_with_fuel(Term::part_of, 2);
}

/// The operands of an operation are parts of its result.
pub broadcast proof fn lemma_part_combine(a: Term, op: Binary, b: Term)
    ensures
        a.part_of(#[trigger] a.combine(op, b)),
        b.part_of(a.combine(op, b)),
{
    reveal_with_fuel(Term::part_of, 2);
}

/// A tensor is part of itself under other extents.
pub broadcast proof fn lemma_part_reshape(x: Term, dims: Seq<Dim>)
    ensures
        x.part_of(#[trigger] x.reshape(dims)),
{
    reveal_with_fuel(Term::part_of, 2);
}

/// A tensor is part of what a projection makes of it.
pub broadcast proof fn lemma_part_project(x: Term, p: Projection)
    ensures
        x.part_of(#[trigger] x.project(p)),
{
    reveal_with_fuel(Term::part_of, 2);
}

/// A tensor is part of itself repeated along axes.
pub proof fn lemma_part_expand(x: Term, dims: Seq<Dim>)
    ensures
        x.part_of(Term::Expand(Box::new(x), dims)),
{
    reveal_with_fuel(Term::part_of, 2);
}

/// The operands of fused attention are parts of its result.
pub proof fn lemma_part_flash(q: Term, k: Term, v: Term, causal: bool)
    ensures
        ({
            let t = Term::FlashAttn { q: Box::new(q), k: Box::new(k), v: Box::new(v), causal };
            q.part_of(t) && k.part_of(t) && v.part_of(t)
        }),
{
    reveal_with_fuel(Term::part_of, 2);
}

/// What is appended to a cache is part of what the cache hands back.
pub proof fn lemma_part_cached(layer: usize, fresh: bool, k: Term, v: Term)
    ensures
        ({
            let action = Term::Append { layer, fresh, k: Box::new(k), v: Box::new(v) };
            let keys = Term::CachedKeys(Box::new(action));
            let values = Term::CachedValues(Box::new(action));
            &&& action.part_of(keys)
            &&& action.part_of(values)
            &&& k.part_of(keys)
            &&& v.part_of(keys)
        }),
{
    reveal_with_fuel(Term::part_of, 3);
}

/// A union holds what either set holds.
pub broadcast proof fn lemma_within_union(a: Set<Term>, b: Set<Term>)
    ensures
        a.subset_of(#[trigger] a.union(b)),
        b.subset_of(a.union(b)),
{
}

pub broadcast group group_parts {
    lemma_within_union,
    lemma_part_self,
    lemma_part_apply,
    lemma_part_combine,
    lemma_part_reshape,
    lemma_part_project,
    lemma_parts_within,
}

/// A part of a part is a part.
pub proof fn lemma_part_trans(a: Term, b: Term, c: Term)
    requires
        a.part_of(b),
        b.part_of(c),
    ensures
        a.part_of(c),
    decreases c,
{
    reveal(Term::part_of);
    if b != c {
        match c {
            Term::Apply(_, x) => lemma_part_trans(a, b, *x),
            Term::Combine(_, x, y) => if b.part_of(*x) {
                lemma_part_trans(a, b, *x);
            } else {
                lemma_part_trans(a, b, *y);
            },
            Term::Reshape(x, _) => lemma_part_trans(a, b, *x),
            Term::Expand(x, _) => lemma_part_trans(a, b, *x),
            Term::Project(_, x) => lemma_part_trans(a, b, *x),
            Term::Lookup(_, _, x) => lemma_part_trans(a, b, *x),
            Term::FlashAttn { q, k, v, .. } => if b.part_of(*q) {
                lemma_part_trans(a, b, *q);
            } else if b.part_of(*k) {
                lemma_part_trans(a, b, *k);
            } else {
                lemma_part_trans(a, b, *v);
            },
            Term::Append { k, v, .. } => if b.part_of(*k) {
                lemma_part_trans(a, b, *k);
            } else {
                lemma_part_trans(a, b, *v);
            },
            Term::CachedKeys(x) => lemma_part_trans(a, b, *x),
            Term::CachedValues(x) => lemma_part_trans(a, b, *x),
            _ => {},
        }
    }
}

/// What is within a part is within the whole.
pub broadcast proof fn lemma_parts_within(a: Term, b: Term)
    requires
        #[trigger] a.part_of(b),
    ensures
        parts(a).subset_of(parts(b)),
{
    assert forall|x: Term| parts(a).contains(x) implies parts(b).contains(x) by {
        lemma_part_trans(x, a, b);
    }
}

/// Where a term fits, so do its parts.
pub proof fn lemma_parts_fit(s: Setting, x: Term, t: Term)
    requires
        t.fits(s),
        x.part_of(t),
    ensures
        x.fits(s),
    decreases t,
{
    reveal(Term::part_of);
    if x != t {
        match t {
            Term::Apply(_, y) => lemma_parts_fit(s, x, *y),
            Term::Combine(_, a, b) => if x.part_of(*a) {
                lemma_parts_fit(s, x, *a);
            } else {
                lemma_parts_fit(s, x, *b);
            },
            Term::Reshape(y, _) => lemma_parts_fit(s, x, *y),
            Term::Expand(y, _) => lemma_parts_fit(s, x, *y),
            Term::Project(_, y) => lemma_parts_fit(s, x, *y),
            Term::Lookup(_, _, y) => lemma_parts_fit(s, x, *y),
            Term::FlashAttn { q, k, v, .. } => if x.part_of(*q) {
                lemma_parts_fit(s, x, *q);
            } else if x.part_of(*k) {
                lemma_parts_fit(s, x, *k);
            } else {
                lemma_parts_fit(s, x, *v);
            },
            Term::Append { k, v, .. } => if x.part_of(*k) {
                lemma_parts_fit(s, x, *k);
            } else {
                lemma_parts_fit(s, x, *v);
            },
            Term::CachedKeys(y) => lemma_parts_fit(s, x, *y),
            Term::CachedValues(y) => lemma_parts_fit(s, x, *y),
            _ => {},
        }
    }
}

} // verus!
