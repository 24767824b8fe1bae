//! The feed-forward block of a decoder layer.

use crate::parts::{lemma_part_trans, parts};
use crate::tape::{Tape, Tensor};
use crate::term::{Activation, Binary, Linear, Module, Projection, Term, Unary, VarPath};
use crate::vars::{self, Load};
use vstd::prelude::*;

verus! {

broadcast use {
    crate::tape::group_tape,
    crate::tape::group_adds,
    crate::parts::group_parts,
};

/// A gated feed-forward block.
#[derive(Clone, Copy, PartialEq, Eq, Structural, Debug)]
pub struct MLP {
    pub gate_proj: Linear,
    pub up_proj: Linear,
    pub down_proj: Linear,
    pub act_fn: Activation,
}

/// The activated gate times the upward projection, projected down again.
pub open spec fn feed_forward(mlp: MLP, x: Term) -> Term {
    x.project(Projection::Own(mlp.gate_proj)).apply(Unary::Activate(mlp.act_fn)).combine(
        Binary::Mul,
        x.project(Projection::Own(mlp.up_proj)),
    ).project(Projection::Own(mlp.down_proj))
}

impl MLP {
    /// The block with the weights found at `vb`.
    pub open spec fn at(
        hidden_size: usize,
        intermediate_size: usize,
        act: Activation,
        bias: bool,
        vb: VarPath,
    ) -> MLP {
        MLP {
            gate_proj: Linear {
                path: vb.at(Module::GateProj),
                in_dim: hidden_size,
                out_dim: intermediate_size,
                bias,
            },
            up_proj: Linear {
                path: vb.at(Module::UpProj),
                in_dim: hidden_size,
                out_dim: intermediate_size,
                bias,
            },
            down_proj: Linear {
                path: vb.at(Module::DownProj),
                in_dim: intermediate_size,
                out_dim: hidden_size,
                bias,
            },
            act_fn: act,
        }
    }

    /// What is loaded for the block.
    pub open spec fn loads(self) -> Seq<Load> {
        seq![Load::Linear(self.gate_proj), Load::Linear(self.up_proj), Load::Linear(self.down_proj)]
    }

    /// Loads a feed-forward block.
    pub fn new(
        hidden_size: usize,
        intermediate_size: usize,
        act: Activation,
        bias: bool,
        vb: VarPath,
        loads: &mut Vec<Load>,
    ) -> (r: MLP)
        ensures
            r == MLP::at(hidden_size, intermediate_size, act, bias, vb),
            final(loads)@ == old(loads)@ + r.loads(),
    {
        let gate_proj = vars::linear_b(
            loads,
            hidden_size,
            intermediate_size,
            bias,
            vb.pp(Module::GateProj),
        );
        let up_proj = vars::linear_b(
            loads,
            hidden_size,
            intermediate_size,
            bias,
            vb.pp(Module::UpProj),
        );
        let down_proj = vars::linear_b(
            loads,
            intermediate_size,
            hidden_size,
            bias,
            vb.pp(Module::DownProj),
        );
        let r = MLP { gate_proj, up_proj, down_proj, act_fn: act };
        assert(loads@ =~= old(loads)@ + r.loads());
        r
    }

    /// Runs the block.
    pub fn forward(&self, tape: &mut Tape, xs: &Tensor) -> (r: Tensor)
        requires
            old(tape).wf(),
            old(tape).holds(*xs),
        ensures
            final(tape).computes(*old(tape), parts(r@)),
            final(tape).holds(r),
            r@ == feed_forward(*self, xs@),
    {
        let gate = tape.project(Projection::Own(self.gate_proj), xs);
        let lhs = tape.apply(Unary::Activate(self.act_fn), &gate);
        let rhs = tape.project(Projection::Own(self.up_proj), xs);
        let product = tape.combine(Binary::Mul, &lhs, &rhs);
        tape.project(Projection::Own(self.down_proj), &product)
    }
}

/// A tensor is part of what the block makes of it.
pub broadcast proof fn lemma_feed_forward_part(mlp: MLP, x: Term)
    ensures
        x.part_of(#[trigger] feed_forward(mlp, x)),
{
    let gate = x.project(Projection::Own(mlp.gate_proj));
    let lhs = gate.apply(Unary::Activate(mlp.act_fn));
    let product = lhs.combine(Binary::Mul, x.project(Projection::Own(mlp.up_proj)));
    lemma_part_trans(x, gate, lhs);
    lemma_part_trans(x, lhs, product);
    lemma_part_trans(x, product, feed_forward(mlp, x));
}

} // verus!
