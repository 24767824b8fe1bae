//! The extents of the results of tensor operations.

use crate::term::{
    binary_dims, broadcast_dims, dim_add, dim_broadcast, dim_from_last, dim_mul, unary_dims,
    with_axis, with_last, Binary, Dim, Unary,
};
use vstd::prelude::*;

verus! {

/// Copies a list of extents.
pub fn copy_dims(dims: &Vec<Dim>) -> (r: Vec<Dim>)
    ensures
        r@ == dims@,
{
    let mut r: Vec<Dim> = Vec::new();
    let n: usize = dims.len();
    for i in 0..n
        invariant
            n == dims@.len(),
            r@ == dims@.take(i as int),
    {
        r.push(dims[i]);
        assert(dims@.take(i + 1) =~= dims@.take(i as int).push(dims@[i as int]));
    }
    assert(dims@.take(n as int) =~= dims@);
    r
}

/// Extents that are all known, as a list of extents.
pub open spec fn fixed_dims(sizes: Seq<usize>) -> Seq<Dim> {
    sizes.map_values(|n: usize| Dim::Fixed(n))
}

/// Lists known extents.
pub fn fix_dims(sizes: &Vec<usize>) -> (r: Vec<Dim>)
    ensures
        r@ == fixed_dims(sizes@),
{
    let mut r: Vec<Dim> = Vec::new();
    let n: usize = sizes.len();
    for i in 0..n
        invariant
            n == sizes@.len(),
            r@ == fixed_dims(sizes@.take(i as int)),
    {
        r.push(Dim::Fixed(sizes[i]));
        assert(fixed_dims(sizes@.take(i + 1)) =~= fixed_dims(sizes@.take(i as int)).push(
            Dim::Fixed(sizes@[i as int]),
        ));
    }
    assert(sizes@.take(n as int) =~= sizes@);
    r
}

/// The extent of two axes merged into one.
pub fn merged(a: Dim, b: Dim) -> (r: Dim)
    ensures
        r == dim_mul(a, b),
{
    match (a, b) {
        (Dim::Fixed(m), Dim::Fixed(n)) => match m.checked_mul(n) {
            Some(p) => Dim::Fixed(p),
            None => Dim::Fixed(usize::MAX),
        },
        _ => a,
    }
}

/// The extent of two axes laid end to end.
pub fn joined(a: Dim, b: Dim) -> (r: Dim)
    ensures
        r == dim_add(a, b),
{
    match (a, b) {
        (Dim::Fixed(m), Dim::Fixed(n)) => match m.checked_add(n) {
            Some(p) => Dim::Fixed(p),
            None => Dim::Fixed(usize::MAX),
        },
        _ => a,
    }
}

/// The extent of two axes matched by broadcasting.
fn matched(a: Dim, b: Dim) -> (r: Dim)
    ensures
        r == dim_broadcast(a, b),
{
    match a {
        Dim::Fixed(n) => if n == 1 {
            b
        } else {
            a
        },
        Dim::Cached(_) => a,
    }
}

/// The extent at distance `k` from the last axis, one beyond the first axis.
pub fn from_last(dims: &Vec<Dim>, k: usize) -> (r: Dim)
    ensures
        r == dim_from_last(dims@, k as int),
{
    if k < dims.len() {
        dims[dims.len() - 1 - k]
    } else {
        Dim::Fixed(1)
    }
}

/// The extents of two tensors matched by broadcasting.
pub fn broadcast(a: &Vec<Dim>, b: &Vec<Dim>) -> (r: Vec<Dim>)
    ensures
        r@ == broadcast_dims(a@, b@),
{
    let n: usize = if a.len() >= b.len() {
        a.len()
    } else {
        b.len()
    };
    let mut r: Vec<Dim> = Vec::new();
    for i in 0..n
        invariant
            n == if a@.len() >= b@.len() {
                a@.len()
            } else {
                b@.len()
            },
            r@ == broadcast_dims(a@, b@).take(i as int),
    {
        r.push(matched(from_last(a, n - 1 - i), from_last(b, n - 1 - i)));
        assert(broadcast_dims(a@, b@).take(i + 1) =~= broadcast_dims(a@, b@).take(i as int).push(
            broadcast_dims(a@, b@)[i as int],
        ));
    }
    assert(broadcast_dims(a@, b@).take(n as int) =~= broadcast_dims(a@, b@));
    r
}

/// `dims` with another extent along the last axis.
pub fn set_last(dims: &Vec<Dim>, d: Dim) -> (r: Vec<Dim>)
    ensures
        r@ == with_last(dims@, d),
{
    let mut r = copy_dims(dims);
    let n: usize = r.len();
    if n > 0 {
        r.set(n - 1, d);
    }
    r
}

/// `dims` with another extent along `axis`, where there is such an axis.
pub fn set_axis(dims: &Vec<Dim>, axis: usize, d: Dim) -> (r: Vec<Dim>)
    ensures
        r@ == with_axis(dims@, axis as int, d),
{
    let mut r = copy_dims(dims);
    if axis < r.len() {
        r.set(axis, d);
    }
    r
}

/// The extents of the result of an operation on one tensor.
pub fn unary(op: Unary, dims: &Vec<Dim>) -> (r: Vec<Dim>)
    ensures
        r@ == unary_dims(op, dims@),
{
    match op {
        Unary::SumLast | Unary::MeanLast => set_last(dims, Dim::Fixed(1)),
        Unary::UnsqueezeFirst => {
            let mut r = copy_dims(dims);
            r.insert(0, Dim::Fixed(1));
            assert(r@ =~= seq![Dim::Fixed(1)] + dims@);
            r
        },
        Unary::Squeeze(axis) => {
            let mut r = copy_dims(dims);
            if axis < r.len() {
                let _ = r.remove(axis);
            }
            r
        },
        Unary::Narrow { axis, start: _, len } => set_axis(dims, axis, len),
        Unary::NarrowLast { start: _, count } => set_last(dims, Dim::Fixed(count)),
        Unary::Transpose(a, b) => {
            let mut r = copy_dims(dims);
            if a < r.len() && b < r.len() {
                r.set(a, dims[b]);
                r.set(b, dims[a]);
            }
            r
        },
        Unary::RepeatKv(n) => {
            let mut r = copy_dims(dims);
            if 1 < r.len() {
                r.set(1, merged(dims[1], Dim::Fixed(n)));
            }
            r
        },
        _ => copy_dims(dims),
    }
}

/// The extents of the result of an operation on two tensors.
pub fn binary(op: Binary, a: &Vec<Dim>, b: &Vec<Dim>) -> (r: Vec<Dim>)
    ensures
        r@ == binary_dims(op, a@, b@),
{
    match op {
        Binary::Add | Binary::Mul => copy_dims(a),
        Binary::BroadcastAdd | Binary::BroadcastMul | Binary::BroadcastDiv => broadcast(a, b),
        Binary::Matmul => set_last(a, from_last(b, 0)),
        Binary::CatLast => set_last(a, joined(from_last(a, 0), from_last(b, 0))),
    }
}

} // verus!
