//! A decoder layer.

use crate::attention::{
    lemma_attention_dims, lemma_attention_parts, optional_on, shared_on, term_of, terms_of,
    Attention, SharedKv, Tables,
};
use crate::config::Gemma4TextConfig;
use crate::mlp::{feed_forward, MLP};
use crate::norm::{lemma_rms_norm_dims, rms_norm, RmsNorm};
use crate::parts::{lemma_part_trans, parts};
use crate::refusal::Refusal;
use crate::rotary::{ProportionalRotaryEmbedding, RotaryEmbedding};
use crate::tape::{Tape, Tensor};
use crate::term::{
    Activation, Binary, Block, DType, Linear, Module, Param, ParamName, Projection, Term, Unary,
    VarPath,
};
use crate::vars::{self, Load};
use vstd::prelude::*;

verus! {

broadcast use {
    crate::tape::group_tape,
    crate::tape::group_adds,
    crate::parts::group_parts,
    crate::norm::lemma_norm_part,
    crate::mlp::lemma_feed_forward_part,
};

/// One layer of the decoder.
#[derive(Clone, Copy, PartialEq, Eq, Structural, Debug)]
pub struct DecoderLayer {
    pub self_attn: Attention,
    pub mlp: MLP,
    pub input_layernorm: RmsNorm,
    pub post_attention_layernorm: RmsNorm,
    pub pre_feedforward_layernorm: RmsNorm,
    pub post_feedforward_layernorm: RmsNorm,
    pub per_layer_input_gate: Option<Linear>,
    pub per_layer_projection: Option<Linear>,
    pub post_per_layer_input_norm: Option<RmsNorm>,
    pub per_layer_activation: Option<Activation>,
    pub layer_scalar: Param,
    pub is_sliding: bool,
}

/// What a run of a layer yields.
pub struct Layered {
    /// The hidden states behind the layer.
    pub out: Term,
    /// The append to the layer's cache, unless keys and values are shared.
    pub action: Option<Term>,
    /// The keys and values stored for later layers.
    pub stored: Option<(Term, Term)>,
}

impl DecoderLayer {
    /// The attention of the layer is well formed.
    pub open spec fn wf(self) -> bool {
        self.self_attn.wf()
    }

    /// Layer `i` of a configuration, with the weights found at `vb`.
    pub open spec fn at(cfg: Gemma4TextConfig, i: usize, vb: VarPath) -> DecoderLayer {
        let norm = |m: Module| RmsNorm::at(cfg.hidden_size, cfg.rms_norm_eps, vb.at(m));
        let width = cfg.hidden_size_per_layer_input;
        DecoderLayer {
            self_attn: Attention::at(cfg, i, vb.at_block(Block::SelfAttn)),
            mlp: MLP::at(
                cfg.hidden_size,
                cfg.intermediate_size,
                cfg.hidden_activation,
                false,
                vb.at_block(Block::Mlp),
            ),
            input_layernorm: norm(Module::InputLayernorm),
            post_attention_layernorm: norm(Module::PostAttentionLayernorm),
            pre_feedforward_layernorm: norm(Module::PreFeedforwardLayernorm),
            post_feedforward_layernorm: norm(Module::PostFeedforwardLayernorm),
            per_layer_input_gate: if width > 0 {
                Some(
                    Linear {
                        path: vb.at(Module::PerLayerInputGate),
                        in_dim: cfg.hidden_size,
                        out_dim: width,
                        bias: false,
                    },
                )
            } else {
                None
            },
            per_layer_projection: if width > 0 {
                Some(
                    Linear {
                        path: vb.at(Module::PerLayerProjection),
                        in_dim: width,
                        out_dim: cfg.hidden_size,
                        bias: false,
                    },
                )
            } else {
                None
            },
            post_per_layer_input_norm: if width > 0 {
                Some(norm(Module::PostPerLayerInputNorm))
            } else {
                None
            },
            per_layer_activation: if width > 0 {
                Some(cfg.hidden_activation)
            } else {
                None
            },
            layer_scalar: Param { path: vb, name: ParamName::LayerScalar, len: 1 },
            is_sliding: cfg.sliding@[i as int],
        }
    }

    /// What is loaded for the layer.
    pub open spec fn loads(self) -> Seq<Load> {
        let per_layer = match (
            self.per_layer_input_gate,
            self.per_layer_projection,
            self.post_per_layer_input_norm,
        ) {
            (Some(gate), Some(projection), Some(norm)) => seq![
                Load::Linear(gate),
                Load::Linear(projection),
                Load::Param(norm.weight),
            ],
            _ => Seq::empty(),
        };
        self.self_attn.loads() + self.mlp.loads() + seq![
            Load::Param(self.input_layernorm.weight),
            Load::Param(self.post_attention_layernorm.weight),
            Load::Param(self.pre_feedforward_layernorm.weight),
            Load::Param(self.post_feedforward_layernorm.weight),
        ] + per_layer + seq![Load::Param(self.layer_scalar)]
    }

    /// Lays out a layer and loads its weights.
    pub fn new(
        cfg: &Gemma4TextConfig,
        layer_idx: usize,
        vb: VarPath,
        loads: &mut Vec<Load>,
    ) -> (r: DecoderLayer)
        requires
            cfg.layer_fits(layer_idx as int),
        ensures
            r == DecoderLayer::at(*cfg, layer_idx, vb),
            r.wf(),
            final(loads)@ == old(loads)@ + r.loads(),
    {
        let is_sliding = cfg.sliding[layer_idx];
        let self_attn = Attention::new(cfg, layer_idx, vb.pp_block(Block::SelfAttn), loads);
        let mlp = MLP::new(
            cfg.hidden_size,
            cfg.intermediate_size,
            cfg.hidden_activation,
            false,
            vb.pp_block(Block::Mlp),
            loads,
        );
        let eps = cfg.rms_norm_eps;
        let input_layernorm = RmsNorm::new(
            cfg.hidden_size,
            eps,
            vb.pp(Module::InputLayernorm),
            loads,
        );
        let post_attention_layernorm = RmsNorm::new(
            cfg.hidden_size,
            eps,
            vb.pp(Module::PostAttentionLayernorm),
            loads,
        );
        let pre_feedforward_layernorm = RmsNorm::new(
            cfg.hidden_size,
            eps,
            vb.pp(Module::PreFeedforwardLayernorm),
            loads,
        );
        let post_feedforward_layernorm = RmsNorm::new(
            cfg.hidden_size,
            eps,
            vb.pp(Module::PostFeedforwardLayernorm),
            loads,
        );
        let (
            per_layer_input_gate,
            per_layer_projection,
            post_per_layer_input_norm,
            per_layer_activation,
        ) = if cfg.hidden_size_per_layer_input > 0 {
            let ple_dim = cfg.hidden_size_per_layer_input;
            let gate = vars::linear_b(
                loads,
                cfg.hidden_size,
                ple_dim,
                false,
                vb.pp(Module::PerLayerInputGate),
            );
            let projection = vars::linear_b(
                loads,
                ple_dim,
                cfg.hidden_size,
                false,
                vb.pp(Module::PerLayerProjection),
            );
            let norm = RmsNorm::new(
                cfg.hidden_size,
                eps,
                vb.pp(Module::PostPerLayerInputNorm),
                loads,
            );
            (Some(gate), Some(projection), Some(norm), Some(cfg.hidden_activation))
        } else {
            (None, None, None, None)
        };
        let layer_scalar = vars::param(loads, 1, ParamName::LayerScalar, vb);
        let r = DecoderLayer {
            self_attn,
            mlp,
            input_layernorm,
            post_attention_layernorm,
            pre_feedforward_layernorm,
            post_feedforward_layernorm,
            per_layer_input_gate,
            per_layer_projection,
            post_per_layer_input_norm,
            per_layer_activation,
            layer_scalar,
            is_sliding,
        };
        assert(loads@ =~= old(loads)@ + r.loads());
        r
    }

    /// The hidden states behind attention, around which they are added.
    pub open spec fn after_attention(self, weights: DType, xs: Term, attended: Term) -> Term {
        rms_norm(self.post_attention_layernorm, weights, attended).combine(Binary::Add, xs)
    }

    /// The hidden states behind the feed-forward block, around which they are added.
    pub open spec fn after_mlp(self, weights: DType, xs: Term) -> Term {
        xs.combine(
            Binary::Add,
            rms_norm(
                self.post_feedforward_layernorm,
                weights,
                feed_forward(self.mlp, rms_norm(self.pre_feedforward_layernorm, weights, xs)),
            ),
        )
    }

    /// The hidden states with the layer's own input mixed in, where there is one.
    pub open spec fn after_per_layer_input(
        self,
        weights: DType,
        xs: Term,
        per_layer_input: Option<Term>,
    ) -> Term {
        match (
            self.per_layer_input_gate,
            self.per_layer_projection,
            self.post_per_layer_input_norm,
            self.per_layer_activation,
            per_layer_input,
        ) {
            (Some(gate), Some(projection), Some(norm), Some(activation), Some(input)) => {
                let ple = xs.project(Projection::Own(gate)).apply(
                    Unary::Activate(activation),
                ).combine(Binary::Mul, input);
                xs.combine(
                    Binary::Add,
                    rms_norm(norm, weights, ple.project(Projection::Own(projection))),
                )
            },
            _ => xs,
        }
    }

    /// The hidden states behind the layer, given what attention yields.
    pub open spec fn behind(
        self,
        weights: DType,
        xs: Term,
        attended: Term,
        per_layer_input: Option<Term>,
    ) -> Term {
        self.after_per_layer_input(
            weights,
            self.after_mlp(weights, self.after_attention(weights, xs, attended)),
            per_layer_input,
        ).combine(Binary::BroadcastMul, Term::Param(self.layer_scalar, weights))
    }

    /// A run of the layer over `xs` at the positions from `offset` on.
    #[verifier::opaque]
    pub open spec fn run(
        self,
        weights: DType,
        t: Tables,
        xs: Term,
        per_layer_input: Option<Term>,
        shared: Option<(Term, Term)>,
        mask: Option<Term>,
        offset: usize,
    ) -> Result<Layered, Refusal> {
        if xs.dims().len() == 0 {
            Err(Refusal::NoAxis)
        } else {
            match self.self_attn.attention(
                weights,
                t,
                rms_norm(self.input_layernorm, weights, xs),
                shared,
                mask,
                offset,
            ) {
                Ok(a) => Ok(
                    Layered {
                        out: self.behind(weights, xs, a.out, per_layer_input),
                        action: a.action,
                        stored: a.stored,
                    },
                ),
                Err(e) => Err(e),
            }
        }
    }

    /// What is computed of `xs` before the layer is refused, where it is.
    pub open spec fn attempted(self, weights: DType, xs: Term) -> Set<Term> {
        if xs.dims().len() == 0 {
            Set::empty()
        } else {
            let normed = rms_norm(self.input_layernorm, weights, xs);
            parts(normed).union(self.self_attn.attempted(weights, normed))
        }
    }

    /// The layer after a run.
    pub open spec fn used(self) -> DecoderLayer {
        DecoderLayer { self_attn: self.self_attn.used(), ..self }
    }

    /// The layer with an empty cache.
    pub open spec fn cleared(self) -> DecoderLayer {
        DecoderLayer { self_attn: self.self_attn.cleared(), ..self }
    }

    /// Normalizes a tensor that has axes.
    fn record_norm(norm: &RmsNorm, tape: &mut Tape, x: &Tensor) -> (r: Tensor)
        requires
            old(tape).wf(),
            old(tape).holds(*x),
            x@.dims().len() > 0,
        ensures
            final(tape).computes(*old(tape), parts(r@)),
            final(tape).holds(r),
            r@ == rms_norm(*norm, old(tape).dtype, x@),
            r@.dims().len() == x@.dims().len(),
    {
        proof {
            lemma_rms_norm_dims(*norm, tape.dtype, x@);
        }
        match norm.forward(tape, x) {
            Ok(r) => r,
            Err(_) => *x,
        }
    }

    /// Records what comes behind attention.
    fn record_behind(
        &self,
        tape: &mut Tape,
        residual: &Tensor,
        attended: &Tensor,
        per_layer_input: Option<Tensor>,
    ) -> (r: Tensor)
        requires
            old(tape).wf(),
            old(tape).holds(*residual),
            old(tape).holds(*attended),
            attended@.dims().len() > 0,
            optional_on(per_layer_input, *old(tape)),
        ensures
            final(tape).computes(*old(tape), parts(r@)),
            final(tape).holds(r),
            r@ == self.behind(old(tape).dtype, residual@, attended@, term_of(per_layer_input)),
    {
        let normed = Self::record_norm(&self.post_attention_layernorm, tape, attended);
        let xs = tape.combine(Binary::Add, &normed, residual);
        assert(xs@.dims().len() > 0);
        let inner = Self::record_norm(&self.pre_feedforward_layernorm, tape, &xs);
        let fed = self.mlp.forward(tape, &inner);
        proof {
            lemma_feed_forward_rank(self.mlp, inner@);
        }
        let outer = Self::record_norm(&self.post_feedforward_layernorm, tape, &fed);
        let xs = tape.combine(Binary::Add, &xs, &outer);
        assert(xs@.dims().len() > 0);
        let xs = match (
            self.per_layer_input_gate,
            self.per_layer_projection,
            self.post_per_layer_input_norm,
            self.per_layer_activation,
            per_layer_input,
        ) {
            (Some(gate), Some(projection), Some(norm), Some(activation), Some(input)) => {
                let gated = tape.project(Projection::Own(gate), &xs);
                let active = tape.apply(Unary::Activate(activation), &gated);
                let ple = tape.combine(Binary::Mul, &active, &input);
                let projected = tape.project(Projection::Own(projection), &ple);
                proof {
                    assert(gated@.dims().len() == xs@.dims().len());
                    assert(active@.dims() == gated@.dims());
                    assert(ple@.dims() == active@.dims());
                    assert(projected@.dims().len() == ple@.dims().len());
                }
                let normed = Self::record_norm(&norm, tape, &projected);
                tape.combine(Binary::Add, &xs, &normed)
            },
            _ => xs,
        };
        let scalar = tape.param(self.layer_scalar);
        tape.combine(Binary::BroadcastMul, &xs, &scalar)
    }

    /// Runs the layer at the positions from `seqlen_offset` on.
    pub fn forward(
        &mut self,
        tape: &mut Tape,
        rotary_emb_global: &ProportionalRotaryEmbedding,
        rotary_emb_local: &RotaryEmbedding,
        xs: &Tensor,
        per_layer_input: Option<Tensor>,
        shared_kv: Option<SharedKv>,
        attention_mask: Option<Tensor>,
        sliding_attention_mask: Option<Tensor>,
        seqlen_offset: usize,
    ) -> (r: Result<(Tensor, Option<SharedKv>), Refusal>)
        requires
            old(self).wf(),
            old(tape).wf(),
            rotary_emb_global.on(*old(tape)),
            rotary_emb_local.on(*old(tape)),
            old(tape).holds(*xs),
            optional_on(per_layer_input, *old(tape)),
            shared_on(shared_kv, *old(tape)),
            optional_on(attention_mask, *old(tape)),
            optional_on(sliding_attention_mask, *old(tape)),
        ensures
            final(tape).extends(*old(tape)),
            match old(self).run(
                old(tape).dtype,
                old(self).self_attn.tables(*rotary_emb_global, *rotary_emb_local),
                xs@,
                term_of(per_layer_input),
                terms_of(shared_kv),
                term_of(
                    if old(self).self_attn.is_sliding {
                        sliding_attention_mask
                    } else {
                        attention_mask
                    },
                ),
                seqlen_offset,
            ) {
                Ok(a) => {
                    &&& r is Ok
                    &&& final(tape).holds(r->Ok_0.0)
                    &&& r->Ok_0.0@ == a.out
                    &&& final(tape).adds(*old(tape), parts(a.out))
                    &&& shared_on(r->Ok_0.1, *final(tape))
                    &&& terms_of(r->Ok_0.1) == a.stored
                    &&& final(tape).actions() == match a.action {
                        Some(t) => old(tape).actions().push(t),
                        None => old(tape).actions(),
                    }
                    &&& *final(self) == old(self).used()
                },
                Err(e) => {
                    &&& r == Err::<(Tensor, Option<SharedKv>), Refusal>(e)
                    &&& final(tape).actions() == old(tape).actions()
                    &&& final(tape).adds(
                        *old(tape),
                        old(self).attempted(old(tape).dtype, xs@),
                    )
                    &&& *final(self) == *old(self)
                },
            },
    {
        reveal(DecoderLayer::run);
        let normed = match self.input_layernorm.forward(tape, xs) {
            Ok(t) => t,
            Err(e) => {
                return Err(e);
            },
        };
        let (attended, stored_shared_kv) = match self.self_attn.forward(
            tape,
            rotary_emb_global,
            rotary_emb_local,
            &normed,
            shared_kv,
            attention_mask,
            sliding_attention_mask,
            seqlen_offset,
        ) {
            Ok(p) => p,
            Err(e) => {
                return Err(e);
            },
        };
        proof {
            lemma_attention_dims(
                old(self).self_attn,
                old(tape).dtype,
                old(self).self_attn.tables(*rotary_emb_global, *rotary_emb_local),
                normed@,
                terms_of(shared_kv),
                term_of(
                    if old(self).self_attn.is_sliding {
                        sliding_attention_mask
                    } else {
                        attention_mask
                    },
                ),
                seqlen_offset,
            );
        }
        let out = self.record_behind(tape, xs, &attended, per_layer_input);
        proof {
            lemma_attention_parts(
                old(self).self_attn,
                old(tape).dtype,
                old(self).self_attn.tables(*rotary_emb_global, *rotary_emb_local),
                normed@,
                terms_of(shared_kv),
                term_of(
                    if old(self).self_attn.is_sliding {
                        sliding_attention_mask
                    } else {
                        attention_mask
                    },
                ),
                seqlen_offset,
            );
            lemma_behind_part(
                *old(self),
                old(tape).dtype,
                xs@,
                attended@,
                term_of(per_layer_input),
            );
        }
        Ok((out, stored_shared_kv))
    }

    /// Forgets the keys and values of earlier positions.
    pub fn clear_kv_cache(&mut self)
        ensures
            *final(self) == old(self).cleared(),
    {
        self.self_attn.clear_kv_cache();
    }
}

/// What attention yields is part of the hidden states behind the layer.
proof fn lemma_behind_part(
    layer: DecoderLayer,
    weights: DType,
    xs: Term,
    attended: Term,
    per_layer_input: Option<Term>,
)
    ensures
        attended.part_of(layer.behind(weights, xs, attended, per_layer_input)),
{
    let normed = rms_norm(layer.post_attention_layernorm, weights, attended);
    let a = layer.after_attention(weights, xs, attended);
    let m = layer.after_mlp(weights, a);
    let p = layer.after_per_layer_input(weights, m, per_layer_input);
    lemma_part_trans(attended, normed, a);
    lemma_part_trans(attended, a, m);
    assert(m.part_of(p));
    lemma_part_trans(attended, m, p);
    lemma_part_trans(attended, p, layer.behind(weights, xs, attended, per_layer_input));
}

/// The feed-forward block keeps the number of axes.
pub proof fn lemma_feed_forward_rank(mlp: MLP, x: Term)
    ensures
        feed_forward(mlp, x).dims().len() == x.dims().len(),
{
    let gate = x.project(Projection::Own(mlp.gate_proj));
    assert(gate.dims().len() == x.dims().len());
    let lhs = gate.apply(Unary::Activate(mlp.act_fn));
    assert(lhs.dims() == gate.dims());
    let product = lhs.combine(Binary::Mul, x.project(Projection::Own(mlp.up_proj)));
    assert(product.dims() == lhs.dims());
}

} // verus!
