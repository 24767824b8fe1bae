//! Root-mean-square normalization.

use crate::parts::{lemma_part_trans, parts};
use crate::refusal::Refusal;
use crate::tape::{Tape, Tensor};
use crate::term::{
    broadcast_dims, dim_broadcast, with_last, Binary, DType, Dim, F64Bits, Param, ParamName,
    Scalar, Term, Unary, VarPath,
};
use crate::vars::{self, Load};
use vstd::prelude::*;

verus! {

broadcast use {
    crate::tape::group_tape,
    crate::tape::group_adds,
    crate::parts::group_parts,
};

/// Normalization with a learned scale per element.
#[derive(Clone, Copy, PartialEq, Eq, Structural, Debug)]
pub struct RmsNorm {
    pub weight: Param,
    pub eps: F64Bits,
}

/// The element type in which a tensor is normalized.
pub open spec fn internal_dtype(d: DType) -> DType {
    match d {
        DType::F16 | DType::BF16 => DType::F32,
        _ => d,
    }
}

/// `x` divided by its root mean square along the last axis, in wide elements,
/// and then scaled by the weight, to which nothing is added.
pub open spec fn rms_norm(norm: RmsNorm, weights: DType, x: Term) -> Term {
    let wide = x.apply(Unary::Cast(internal_dtype(x.dtype())));
    let mean = wide.apply(Unary::Sqr).apply(Unary::SumLast).apply(
        Unary::DivScalar(Scalar::Extent(x.dims().last())),
    );
    let root = mean.apply(Unary::AddScalar(Scalar::Given(norm.eps))).apply(Unary::Sqrt);
    wide.combine(Binary::BroadcastDiv, root).apply(Unary::Cast(x.dtype())).combine(
        Binary::BroadcastMul,
        Term::Param(norm.weight, weights),
    )
}

/// `v` divided by its root mean square along the last axis, in single precision.
pub open spec fn plain_norm(eps: F64Bits, v: Term) -> Term {
    let wide = v.apply(Unary::Cast(DType::F32));
    let root = wide.apply(Unary::Sqr).apply(Unary::MeanLast).apply(
        Unary::AddScalar(Scalar::Given(eps)),
    ).apply(Unary::Sqrt);
    wide.combine(Binary::BroadcastDiv, root).apply(Unary::Cast(v.dtype()))
}

impl RmsNorm {
    /// The normalization of `dim` elements with the weight found at `path`.
    pub open spec fn at(dim: usize, eps: F64Bits, path: VarPath) -> RmsNorm {
        RmsNorm { weight: Param { path, name: ParamName::Weight, len: dim }, eps }
    }

    /// Loads a normalization of `dim` elements.
    pub fn new(dim: usize, eps: F64Bits, path: VarPath, loads: &mut Vec<Load>) -> (r: RmsNorm)
        ensures
            r == RmsNorm::at(dim, eps, path),
            final(loads)@ == old(loads)@.push(Load::Param(r.weight)),
    {
        let weight = vars::param(loads, dim, ParamName::Weight, path);
        RmsNorm { weight, eps }
    }

    /// Normalizes a tensor along its last axis.
    pub fn forward(&self, tape: &mut Tape, x: &Tensor) -> (r: Result<Tensor, Refusal>)
        requires
            old(tape).wf(),
            old(tape).holds(*x),
        ensures
            match r {
                Ok(y) => {
                    &&& x@.dims().len() > 0
                    &&& final(tape).computes(*old(tape), parts(y@))
                    &&& final(tape).holds(y)
                    &&& y@ == rms_norm(*self, old(tape).dtype, x@)
                },
                Err(e) => x@.dims().len() == 0 && e == Refusal::NoAxis && *final(tape) == *old(
                    tape,
                ),
            },
    {
        let x_dtype = tape.dtype(x);
        let internal = match x_dtype {
            DType::F16 | DType::BF16 => DType::F32,
            d => d,
        };
        let hidden_size = match tape.last_dim(x) {
            Ok(d) => d,
            Err(e) => {
                return Err(e);
            },
        };
        let wide = tape.apply(Unary::Cast(internal), x);
        let squares = tape.apply(Unary::Sqr, &wide);
        let sum = tape.apply(Unary::SumLast, &squares);
        let mean = tape.apply(Unary::DivScalar(Scalar::Extent(hidden_size)), &sum);
        let shifted = tape.apply(Unary::AddScalar(Scalar::Given(self.eps)), &mean);
        let root = tape.apply(Unary::Sqrt, &shifted);
        let normed = tape.combine(Binary::BroadcastDiv, &wide, &root);
        let narrow = tape.apply(Unary::Cast(x_dtype), &normed);
        let weight = tape.param(self.weight);
        Ok(tape.combine(Binary::BroadcastMul, &narrow, &weight))
    }
}

/// A tensor is part of itself normalized.
pub broadcast proof fn lemma_norm_part(norm: RmsNorm, weights: DType, x: Term)
    ensures
        x.part_of(#[trigger] rms_norm(norm, weights, x)),
{
    let wide = x.apply(Unary::Cast(internal_dtype(x.dtype())));
    let root = wide.apply(Unary::Sqr).apply(Unary::SumLast).apply(
        Unary::DivScalar(Scalar::Extent(x.dims().last())),
    ).apply(Unary::AddScalar(Scalar::Given(norm.eps))).apply(Unary::Sqrt);
    let normed = wide.combine(Binary::BroadcastDiv, root);
    let narrow = normed.apply(Unary::Cast(x.dtype()));
    lemma_part_trans(x, wide, normed);
    lemma_part_trans(x, normed, narrow);
    lemma_part_trans(x, narrow, rms_norm(norm, weights, x));
}

/// A tensor is part of itself normalized without a weight.
pub proof fn lemma_plain_norm_part(eps: F64Bits, v: Term)
    ensures
        v.part_of(plain_norm(eps, v)),
{
    let wide = v.apply(Unary::Cast(DType::F32));
    let root = wide.apply(Unary::Sqr).apply(Unary::MeanLast).apply(
        Unary::AddScalar(Scalar::Given(eps)),
    ).apply(Unary::Sqrt);
    let normed = wide.combine(Binary::BroadcastDiv, root);
    lemma_part_trans(v, wide, normed);
    lemma_part_trans(v, normed, plain_norm(eps, v));
}

/// Normalization keeps the extents, but for a last axis of extent one, which is
/// matched with the weight.
pub proof fn lemma_rms_norm_dims(norm: RmsNorm, weights: DType, x: Term)
    requires
        x.dims().len() > 0,
    ensures
        rms_norm(norm, weights, x).dims() == with_last(
            x.dims(),
            dim_broadcast(x.dims().last(), Dim::Fixed(norm.weight.len)),
        ),
        rms_norm(norm, weights, x).dtype() == x.dtype(),
{
    let d = x.dims();
    let wide = x.apply(Unary::Cast(internal_dtype(x.dtype())));
    assert(wide.dims() == d);
    let squares = wide.apply(Unary::Sqr);
    assert(squares.dims() == d);
    let sum = squares.apply(Unary::SumLast);
    assert(sum.dims() == with_last(d, Dim::Fixed(1)));
    let mean = sum.apply(Unary::DivScalar(Scalar::Extent(d.last())));
    assert(mean.dims() == with_last(d, Dim::Fixed(1)));
    let shifted = mean.apply(Unary::AddScalar(Scalar::Given(norm.eps)));
    assert(shifted.dims() == with_last(d, Dim::Fixed(1)));
    let root = shifted.apply(Unary::Sqrt);
    assert(root.dims() == with_last(d, Dim::Fixed(1)));
    let normed = wide.combine(Binary::BroadcastDiv, root);
    assert(normed.dims() == broadcast_dims(d, with_last(d, Dim::Fixed(1))));
    assert(broadcast_dims(d, with_last(d, Dim::Fixed(1))) =~= d);
    let narrow = normed.apply(Unary::Cast(x.dtype()));
    assert(narrow.dims() == d);
    assert(narrow.dtype() == x.dtype());
    let weight = Term::Param(norm.weight, weights);
    assert(weight.dims() == seq![Dim::Fixed(norm.weight.len)]);
    assert(narrow.combine(Binary::BroadcastMul, weight).dims() == broadcast_dims(
        d,
        weight.dims(),
    ));
    assert(broadcast_dims(d, weight.dims()) =~= with_last(
        d,
        dim_broadcast(d.last(), Dim::Fixed(norm.weight.len)),
    ));
}

/// Normalizes values without a learned scale.
pub fn v_norm(tape: &mut Tape, v: &Tensor, eps: F64Bits) -> (r: Tensor)
    requires
        old(tape).wf(),
        old(tape).holds(*v),
    ensures
        final(tape).computes(*old(tape), parts(r@)),
        final(tape).holds(r),
        r@ == plain_norm(eps, v@),
{
    let v_dtype = tape.dtype(v);
    let wide = tape.apply(Unary::Cast(DType::F32), v);
    let squares = tape.apply(Unary::Sqr, &wide);
    let mean = tape.apply(Unary::MeanLast, &squares);
    let shifted = tape.apply(Unary::AddScalar(Scalar::Given(eps)), &mean);
    let rms = tape.apply(Unary::Sqrt, &shifted);
    let normed = tape.combine(Binary::BroadcastDiv, &wide, &rms);
    tape.apply(Unary::Cast(v_dtype), &normed)
}

} // verus!
