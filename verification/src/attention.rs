//! Attention of a decoder layer.

use crate::config::Gemma4TextConfig;
use crate::norm::{
    lemma_plain_norm_part, lemma_rms_norm_dims, plain_norm, rms_norm, v_norm, RmsNorm,
};
use crate::parts::{lemma_part_cached, lemma_part_flash, lemma_part_trans, parts};
use crate::refusal::Refusal;
use crate::rotary::{
    known_width, lemma_rotated_parts, past_tables, rows, turned, ProportionalRotaryEmbedding,
    RotaryEmbedding,
};
use crate::shape;
use crate::tape::{Tape, Tensor};
use crate::term::{
    dim_from_last, dim_mul, Binary, DType, Dim, F64Bits, Linear, Module, Projection, Term, Unary,
    VarPath,
};
use crate::vars::{self, Load};
use vstd::prelude::*;

verus! {

broadcast use {
    crate::tape::group_tape,
    crate::tape::group_adds,
    crate::parts::group_parts,
    crate::norm::lemma_norm_part,
};

/// How a cache keeps keys and values.
#[derive(Clone, Copy, PartialEq, Eq, Structural, Debug)]
pub enum CacheKind {
    /// All of them.
    Normal,
    /// Those of the most recent positions.
    Rotating,
}

/// The cache of a layer.
#[derive(Clone, Copy, PartialEq, Eq, Structural, Debug)]
pub struct KvCache {
    pub kind: CacheKind,
    /// The axis of the positions.
    pub dim: usize,
    /// For how many positions the cache is made.
    pub limit: usize,
    /// Whether no append was planned since the cache was made or cleared, so that the
    /// next one starts it over. A planned append counts even where the plan is then
    /// not carried out to its end.
    pub empty: bool,
}

/// Keys and values that one layer stores for others.
pub type SharedKv = (Tensor, Tensor);

/// The term of an optional tensor.
pub open spec fn term_of(x: Option<Tensor>) -> Option<Term> {
    match x {
        Some(t) => Some(t@),
        None => None,
    }
}

/// The terms of optional keys and values.
pub open spec fn terms_of(kv: Option<SharedKv>) -> Option<(Term, Term)> {
    match kv {
        Some((k, v)) => Some((k@, v@)),
        None => None,
    }
}

/// Whether an optional tensor, where there is one, is a tensor of a tape.
pub open spec fn optional_on(x: Option<Tensor>, tape: Tape) -> bool {
    x matches Some(t) ==> tape.holds(t)
}

/// Whether optional keys and values, where there are some, are tensors of a tape.
pub open spec fn shared_on(kv: Option<SharedKv>, tape: Tape) -> bool {
    kv matches Some((k, v)) ==> tape.holds(k) && tape.holds(v)
}

/// A tensor of `heads` heads of `width` elements side by side, head by head.
pub open spec fn split_heads(x: Term, b: Dim, s: Dim, heads: usize, width: usize) -> Term {
    x.reshape(seq![b, s, Dim::Fixed(heads), Dim::Fixed(width)]).apply(Unary::Transpose(1, 2))
}

/// The angle tables of a layer.
pub struct Tables {
    pub sin: Term,
    pub cos: Term,
}

/// What a run of attention yields.
pub struct Attended {
    /// The output.
    pub out: Term,
    /// The append to the layer's cache, unless keys and values are shared.
    pub action: Option<Term>,
    /// The keys and values stored for later layers.
    pub stored: Option<(Term, Term)>,
}

/// Attention of one layer.
#[derive(Clone, Copy, PartialEq, Eq, Structural, Debug)]
pub struct Attention {
    pub layer_idx: usize,
    pub q_proj: Linear,
    pub k_proj: Option<Linear>,
    pub v_proj: Option<Linear>,
    pub o_proj: Linear,
    pub q_norm: RmsNorm,
    pub k_norm: Option<RmsNorm>,
    pub num_heads: usize,
    pub num_kv_heads: usize,
    pub num_kv_groups: usize,
    pub head_dim: usize,
    pub rms_norm_eps: F64Bits,
    pub is_sliding: bool,
    pub is_kv_shared_layer: bool,
    pub store_full_length_kv: bool,
    pub kv_cache: KvCache,
    pub use_flash_attn: bool,
}

impl Attention {
    /// A layer has weights for keys and values unless it shares those of another.
    pub open spec fn wf(self) -> bool {
        !self.is_kv_shared_layer ==> self.k_proj is Some && self.v_proj is Some && self.k_norm is Some
    }

    /// Attention of layer `i` of a configuration, with the weights found at `vb`.
    pub open spec fn at(cfg: Gemma4TextConfig, i: usize, vb: VarPath) -> Attention {
        let head_dim = cfg.layer_head_dim(i as int);
        let kv_heads = cfg.layer_kv_heads(i as int);
        let q_width = (cfg.num_attention_heads * head_dim) as usize;
        let kv_width = (kv_heads * head_dim) as usize;
        let own = |m: Module|
            if cfg.shares_kv(i as int) {
                None
            } else {
                Some(
                    Linear {
                        path: vb.at(m),
                        in_dim: cfg.hidden_size,
                        out_dim: kv_width,
                        bias: cfg.attention_bias,
                    },
                )
            };
        Attention {
            layer_idx: i,
            q_proj: Linear {
                path: vb.at(Module::QProj),
                in_dim: cfg.hidden_size,
                out_dim: q_width,
                bias: cfg.attention_bias,
            },
            k_proj: own(Module::KProj),
            v_proj: own(Module::VProj),
            o_proj: Linear {
                path: vb.at(Module::OProj),
                in_dim: q_width,
                out_dim: cfg.hidden_size,
                bias: cfg.attention_bias,
            },
            q_norm: RmsNorm::at(head_dim, cfg.rms_norm_eps, vb.at(Module::QNorm)),
            k_norm: if cfg.shares_kv(i as int) {
                None
            } else {
                Some(RmsNorm::at(head_dim, cfg.rms_norm_eps, vb.at(Module::KNorm)))
            },
            num_heads: cfg.num_attention_heads,
            num_kv_heads: kv_heads,
            num_kv_groups: cfg.num_attention_heads / kv_heads,
            head_dim,
            rms_norm_eps: cfg.rms_norm_eps,
            is_sliding: cfg.sliding@[i as int],
            is_kv_shared_layer: cfg.shares_kv(i as int),
            store_full_length_kv: cfg.stores_kv(i as int),
            kv_cache: if cfg.sliding@[i as int] {
                KvCache {
                    kind: CacheKind::Rotating,
                    dim: 2,
                    limit: cfg.effective_sliding_window,
                    empty: true,
                }
            } else {
                KvCache {
                    kind: CacheKind::Normal,
                    dim: 2,
                    limit: cfg.max_position_embeddings,
                    empty: true,
                }
            },
            use_flash_attn: cfg.use_flash_attn,
        }
    }

    /// What is loaded for the layer's attention.
    pub open spec fn loads(self) -> Seq<Load> {
        let kv = match (self.k_proj, self.v_proj, self.k_norm) {
            (Some(k), Some(v), Some(n)) => seq![
                Load::Linear(k),
                Load::Linear(v),
                Load::Param(n.weight),
            ],
            _ => Seq::empty(),
        };
        seq![Load::Linear(self.q_proj)] + kv + seq![
            Load::Linear(self.o_proj),
            Load::Param(self.q_norm.weight),
        ]
    }

    /// Lays out the attention of a layer and loads its weights.
    pub fn new(
        cfg: &Gemma4TextConfig,
        layer_idx: usize,
        vb: VarPath,
        loads: &mut Vec<Load>,
    ) -> (r: Attention)
        requires
            cfg.layer_fits(layer_idx as int),
        ensures
            r == Attention::at(*cfg, layer_idx, vb),
            r.wf(),
            final(loads)@ == old(loads)@ + r.loads(),
    {
        let hidden_sz = cfg.hidden_size;
        let num_heads = cfg.num_attention_heads;
        let bias = cfg.attention_bias;
        let is_sliding = cfg.sliding[layer_idx];
        let (head_dim, num_kv_heads): (usize, usize) = if is_sliding {
            (cfg.head_dim, cfg.num_key_value_heads)
        } else {
            let global_kv: usize = match cfg.num_global_key_value_heads {
                Some(n) => n,
                None => cfg.num_key_value_heads,
            };
            (cfg.global_head_dim, global_kv)
        };
        let num_kv_groups: usize = num_heads / num_kv_heads;
        let first_kv_shared_layer = cfg.first_shared();
        let is_kv_shared_layer = layer_idx >= first_kv_shared_layer && cfg.num_kv_shared_layers > 0;
        let store_full_length_kv = !is_kv_shared_layer && cfg.is_last_of_type(
            layer_idx,
            first_kv_shared_layer,
        );
        let q_width: usize = num_heads * head_dim;
        let q_proj = vars::linear_b(loads, hidden_sz, q_width, bias, vb.pp(Module::QProj));
        let (k_proj, v_proj, k_norm) = if is_kv_shared_layer {
            (None, None, None)
        } else {
            let kv_width: usize = num_kv_heads * head_dim;
            let k = vars::linear_b(loads, hidden_sz, kv_width, bias, vb.pp(Module::KProj));
            let v = vars::linear_b(loads, hidden_sz, kv_width, bias, vb.pp(Module::VProj));
            let n = RmsNorm::new(head_dim, cfg.rms_norm_eps, vb.pp(Module::KNorm), loads);
            (Some(k), Some(v), Some(n))
        };
        let o_proj = vars::linear_b(loads, q_width, hidden_sz, bias, vb.pp(Module::OProj));
        let q_norm = RmsNorm::new(head_dim, cfg.rms_norm_eps, vb.pp(Module::QNorm), loads);
        let kv_cache = if is_sliding {
            KvCache {
                kind: CacheKind::Rotating,
                dim: 2,
                limit: cfg.effective_sliding_window,
                empty: true,
            }
        } else {
            KvCache {
                kind: CacheKind::Normal,
                dim: 2,
                limit: cfg.max_position_embeddings,
                empty: true,
            }
        };
        let r = Attention {
            layer_idx,
            q_proj,
            k_proj,
            v_proj,
            o_proj,
            q_norm,
            k_norm,
            num_heads,
            num_kv_heads,
            num_kv_groups,
            head_dim,
            rms_norm_eps: cfg.rms_norm_eps,
            is_sliding,
            is_kv_shared_layer,
            store_full_length_kv,
            kv_cache,
            use_flash_attn: cfg.use_flash_attn,
        };
        assert(loads@ =~= old(loads)@ + r.loads());
        r
    }

    /// The tables that rotate the layer's queries and keys.
    pub open spec fn tables(
        self,
        global: ProportionalRotaryEmbedding,
        local: RotaryEmbedding,
    ) -> Tables {
        if self.is_sliding {
            Tables { sin: local.sin@, cos: local.cos@ }
        } else {
            Tables { sin: global.sin@, cos: global.cos@ }
        }
    }

    /// The normalized queries, before rotation.
    pub open spec fn queries(self, weights: DType, xs: Term) -> Term {
        rms_norm(
            self.q_norm,
            weights,
            split_heads(
                xs.project(Projection::Own(self.q_proj)),
                xs.dims()[0],
                xs.dims()[1],
                self.num_heads,
                self.head_dim,
            ),
        )
    }

    /// The normalized keys of the positions at hand, before rotation.
    pub open spec fn plain_keys(self, weights: DType, xs: Term) -> Term {
        rms_norm(
            self.k_norm->0,
            weights,
            split_heads(
                xs.project(Projection::Own(self.k_proj->0)),
                xs.dims()[0],
                xs.dims()[1],
                self.num_kv_heads,
                self.head_dim,
            ),
        )
    }

    /// The normalized and rotated keys of the positions at hand.
    pub open spec fn keys(self, weights: DType, t: Tables, xs: Term, offset: usize) -> Term {
        turned(
            self.plain_keys(weights, xs),
            t.sin,
            t.cos,
            offset,
            self.queries(weights, xs).dims()[2],
        )
    }

    /// The normalized values of the positions at hand.
    pub open spec fn values(self, xs: Term) -> Term {
        plain_norm(
            self.rms_norm_eps,
            split_heads(
                xs.project(Projection::Own(self.v_proj->0)),
                xs.dims()[0],
                xs.dims()[1],
                self.num_kv_heads,
                self.head_dim,
            ),
        )
    }

    /// Queries against keys with unit scale, under a mask, and values weighted by that.
    pub open spec fn attend(self, q: Term, k: Term, v: Term, mask: Option<Term>) -> Term {
        let k = k.apply(Unary::RepeatKv(self.num_kv_groups)).apply(Unary::Contiguous);
        let v = v.apply(Unary::RepeatKv(self.num_kv_groups)).apply(Unary::Contiguous);
        if self.use_flash_attn {
            (Term::FlashAttn {
                q: Box::new(q.apply(Unary::Transpose(1, 2))),
                k: Box::new(k.apply(Unary::Transpose(1, 2))),
                v: Box::new(v.apply(Unary::Transpose(1, 2))),
                causal: mask is Some,
            }).apply(Unary::Transpose(1, 2))
        } else {
            let scores = q.combine(Binary::Matmul, k.apply(Unary::Transpose(2, 3)));
            let masked = match mask {
                Some(m) => scores.combine(Binary::BroadcastAdd, m),
                None => scores,
            };
            masked.apply(Unary::SoftmaxLast).combine(Binary::Matmul, v)
        }
    }

    /// The heads side by side again, through the output projection.
    pub open spec fn merge_heads(self, xs: Term, heads: Term) -> Term {
        let t = heads.apply(Unary::Transpose(1, 2));
        t.reshape(
            seq![
                xs.dims()[0],
                xs.dims()[1],
                dim_mul(dim_from_last(t.dims(), 1), dim_from_last(t.dims(), 0)),
            ],
        ).project(Projection::Own(self.o_proj))
    }

    /// Attention over `xs` at the positions from `offset` on: with the keys and
    /// values of the layer's cache after an append of its own, or, where the
    /// layer shares them, with those that it is handed.
    #[verifier::opaque]
    pub open spec fn attention(
        self,
        weights: DType,
        t: Tables,
        xs: Term,
        shared: Option<(Term, Term)>,
        mask: Option<Term>,
        offset: usize,
    ) -> Result<Attended, Refusal> {
        if xs.dims().len() != 3 {
            Err(Refusal::Rank { expected: 3, found: xs.dims().len() as usize })
        } else if self.is_kv_shared_layer && shared is None {
            Err(Refusal::SharedKv)
        } else if let Some(e) = past_tables(t.sin, t.cos, offset, xs.dims()[1]) {
            Err(e)
        } else {
            let action = Term::Append {
                layer: self.layer_idx,
                fresh: self.kv_cache.empty,
                k: Box::new(self.keys(weights, t, xs, offset)),
                v: Box::new(self.values(xs)),
            };
            let (k, v) = if self.is_kv_shared_layer {
                shared->0
            } else {
                (Term::CachedKeys(Box::new(action)), Term::CachedValues(Box::new(action)))
            };
            let plain = self.queries(weights, xs);
            let q = turned(plain, t.sin, t.cos, offset, plain.dims()[2]);
            Ok(
                Attended {
                    out: self.merge_heads(xs, self.attend(q, k, v, mask)),
                    action: if self.is_kv_shared_layer {
                        None
                    } else {
                        Some(action)
                    },
                    stored: if !self.is_kv_shared_layer && self.store_full_length_kv {
                        Some((k, v))
                    } else {
                        None
                    },
                },
            )
        }
    }

    /// What is computed of `xs` before attention is refused, where it is.
    pub open spec fn attempted(self, weights: DType, xs: Term) -> Set<Term> {
        if xs.dims().len() != 3 {
            Set::empty()
        } else if self.is_kv_shared_layer {
            parts(self.queries(weights, xs))
        } else {
            parts(self.queries(weights, xs)).union(parts(self.plain_keys(weights, xs))).union(
                parts(self.values(xs)),
            )
        }
    }

    /// The layer after a run: its cache is empty no longer, if it has one of its own.
    pub open spec fn used(self) -> Attention {
        if self.is_kv_shared_layer {
            self
        } else {
            Attention { kv_cache: KvCache { empty: false, ..self.kv_cache }, ..self }
        }
    }

    /// Splits a tensor into heads.
    fn record_heads(
        tape: &mut Tape,
        x: &Tensor,
        b: Dim,
        s: Dim,
        heads: usize,
        width: usize,
    ) -> (r: Tensor)
        requires
            old(tape).wf(),
            old(tape).holds(*x),
        ensures
            final(tape).computes(*old(tape), parts(r@)),
            final(tape).holds(r),
            r@ == split_heads(x@, b, s, heads, width),
            r@.dims() == seq![b, Dim::Fixed(heads), s, Dim::Fixed(width)],
    {
        let dims: Vec<Dim> = vec![b, s, Dim::Fixed(heads), Dim::Fixed(width)];
        assert(dims@ =~= seq![b, s, Dim::Fixed(heads), Dim::Fixed(width)]);
        let side_by_side = tape.reshape(x, dims);
        let r = tape.apply(Unary::Transpose(1, 2), &side_by_side);
        assert(side_by_side@.dims() == seq![b, s, Dim::Fixed(heads), Dim::Fixed(width)]);
        assert(r@.dims() =~= seq![b, Dim::Fixed(heads), s, Dim::Fixed(width)]);
        r
    }

    /// Projects, splits and normalizes queries or keys.
    fn record_normed(
        tape: &mut Tape,
        xs: &Tensor,
        proj: Linear,
        norm: &RmsNorm,
        b: Dim,
        s: Dim,
        heads: usize,
        width: usize,
    ) -> (r: Tensor)
        requires
            old(tape).wf(),
            old(tape).holds(*xs),
        ensures
            final(tape).computes(*old(tape), parts(r@)),
            final(tape).holds(r),
            r@ == rms_norm(
                *norm,
                old(tape).dtype,
                split_heads(xs@.project(Projection::Own(proj)), b, s, heads, width),
            ),
            r@.dims().len() == 4,
            r@.dims()[2] == s,
            known_width(r@),
    {
        let flat = tape.project(Projection::Own(proj), xs);
        let split = Self::record_heads(tape, &flat, b, s, heads, width);
        proof {
            lemma_split_part(flat@, b, s, heads, width);
            lemma_rms_norm_dims(*norm, tape.dtype, split@);
        }
        match norm.forward(tape, &split) {
            Ok(r) => r,
            Err(_) => split,
        }
    }

    /// Rotates queries and keys with the layer's tables.
    fn record_rotation(
        &self,
        tape: &mut Tape,
        rotary_emb_global: &ProportionalRotaryEmbedding,
        rotary_emb_local: &RotaryEmbedding,
        q: &Tensor,
        k: &Tensor,
        seqlen_offset: usize,
    ) -> (r: Result<(Tensor, Tensor), Refusal>)
        requires
            old(tape).wf(),
            rotary_emb_global.on(*old(tape)),
            rotary_emb_local.on(*old(tape)),
            old(tape).holds(*q),
            old(tape).holds(*k),
            q@.dims().len() == 4,
            known_width(q@),
            known_width(k@),
        ensures
            ({
                let t = self.tables(*rotary_emb_global, *rotary_emb_local);
                match past_tables(t.sin, t.cos, seqlen_offset, q@.dims()[2]) {
                    None => {
                        &&& r is Ok
                        &&& final(tape).computes(
                            *old(tape),
                            parts(r->Ok_0.0@).union(parts(r->Ok_0.1@)),
                        )
                        &&& final(tape).holds(r->Ok_0.0)
                        &&& final(tape).holds(r->Ok_0.1)
                        &&& r->Ok_0.0@ == turned(q@, t.sin, t.cos, seqlen_offset, q@.dims()[2])
                        &&& r->Ok_0.1@ == turned(k@, t.sin, t.cos, seqlen_offset, q@.dims()[2])
                    },
                    Some(e) => {
                        &&& r == Err::<(Tensor, Tensor), Refusal>(e)
                        &&& *final(tape) == *old(tape)
                    },
                }
            }),
    {
        if self.is_sliding {
            rotary_emb_local.apply_rotary_emb_qkv(tape, q, k, seqlen_offset)
        } else {
            rotary_emb_global.apply_rotary_emb_qkv(tape, q, k, seqlen_offset)
        }
    }

    /// Records queries against keys, and values weighted by that.
    fn record_attend(
        &self,
        tape: &mut Tape,
        q: &Tensor,
        k: &Tensor,
        v: &Tensor,
        mask: Option<Tensor>,
    ) -> (r: Tensor)
        requires
            old(tape).wf(),
            old(tape).holds(*q),
            old(tape).holds(*k),
            old(tape).holds(*v),
            optional_on(mask, *old(tape)),
        ensures
            final(tape).computes(*old(tape), parts(r@)),
            final(tape).holds(r),
            r@ == self.attend(q@, k@, v@, term_of(mask)),
    {
        let k_rep = tape.apply(Unary::RepeatKv(self.num_kv_groups), k);
        let k_all = tape.apply(Unary::Contiguous, &k_rep);
        let v_rep = tape.apply(Unary::RepeatKv(self.num_kv_groups), v);
        let v_all = tape.apply(Unary::Contiguous, &v_rep);
        if self.use_flash_attn {
            let qt = tape.apply(Unary::Transpose(1, 2), q);
            let kt = tape.apply(Unary::Transpose(1, 2), &k_all);
            let vt = tape.apply(Unary::Transpose(1, 2), &v_all);
            let out = tape.flash_attn(&qt, &kt, &vt, mask.is_some());
            proof {
                lemma_part_flash(qt@, kt@, vt@, mask is Some);
            }
            tape.apply(Unary::Transpose(1, 2), &out)
        } else {
            let kt = tape.apply(Unary::Transpose(2, 3), &k_all);
            let scores = tape.combine(Binary::Matmul, q, &kt);
            let masked = match mask {
                None => scores,
                Some(m) => tape.combine(Binary::BroadcastAdd, &scores, &m),
            };
            let probs = tape.apply(Unary::SoftmaxLast, &masked);
            tape.combine(Binary::Matmul, &probs, &v_all)
        }
    }

    /// Puts the heads side by side again and projects them.
    fn record_merge(
        &self,
        tape: &mut Tape,
        heads: &Tensor,
        b_sz: Dim,
        q_len: Dim,
    ) -> (r: Tensor)
        requires
            old(tape).wf(),
            old(tape).holds(*heads),
        ensures
            final(tape).computes(*old(tape), parts(r@)),
            final(tape).holds(r),
            ({
                let t = heads@.apply(Unary::Transpose(1, 2));
                r@ == t.reshape(
                    seq![
                        b_sz,
                        q_len,
                        dim_mul(dim_from_last(t.dims(), 1), dim_from_last(t.dims(), 0)),
                    ],
                ).project(Projection::Own(self.o_proj))
            }),
    {
        let t = tape.apply(Unary::Transpose(1, 2), heads);
        let tail = {
            let dims = tape.dims(&t);
            shape::merged(shape::from_last(dims, 1), shape::from_last(dims, 0))
        };
        let dims: Vec<Dim> = vec![b_sz, q_len, tail];
        assert(dims@ =~= seq![b_sz, q_len, tail]);
        let merged = tape.reshape(&t, dims);
        tape.project(Projection::Own(self.o_proj), &merged)
    }

    /// Runs attention at the positions from `seqlen_offset` on.
    pub fn forward(
        &mut self,
        tape: &mut Tape,
        rotary_emb_global: &ProportionalRotaryEmbedding,
        rotary_emb_local: &RotaryEmbedding,
        xs: &Tensor,
        shared_kv: Option<SharedKv>,
        attention_mask: Option<Tensor>,
        sliding_attention_mask: Option<Tensor>,
        seqlen_offset: usize,
    ) -> (r: Result<(Tensor, Option<SharedKv>), Refusal>)
        requires
            old(self).wf(),
            old(tape).wf(),
            rotary_emb_global.on(*old(tape)),
            rotary_emb_local.on(*old(tape)),
            old(tape).holds(*xs),
            shared_on(shared_kv, *old(tape)),
            optional_on(attention_mask, *old(tape)),
            optional_on(sliding_attention_mask, *old(tape)),
        ensures
            final(tape).extends(*old(tape)),
            match old(self).attention(
                old(tape).dtype,
                old(self).tables(*rotary_emb_global, *rotary_emb_local),
                xs@,
                terms_of(shared_kv),
                term_of(
                    if old(self).is_sliding {
                        sliding_attention_mask
                    } else {
                        attention_mask
                    },
                ),
                seqlen_offset,
            ) {
                Ok(a) => {
                    &&& r is Ok
                    &&& final(tape).holds(r->Ok_0.0)
                    &&& r->Ok_0.0@ == a.out
                    &&& final(tape).adds(*old(tape), parts(a.out))
                    &&& shared_on(r->Ok_0.1, *final(tape))
                    &&& terms_of(r->Ok_0.1) == a.stored
                    &&& final(tape).actions() == match a.action {
                        Some(t) => old(tape).actions().push(t),
                        None => old(tape).actions(),
                    }
                    &&& *final(self) == old(self).used()
                },
                Err(e) => {
                    &&& r == Err::<(Tensor, Option<SharedKv>), Refusal>(e)
                    &&& final(tape).actions() == old(tape).actions()
                    &&& final(tape).adds(
                        *old(tape),
                        old(self).attempted(old(tape).dtype, xs@),
                    )
                    &&& *final(self) == *old(self)
                },
            },
    {
        reveal(Attention::attention);
        let (b_sz, q_len, _) = match tape.dims3(xs) {
            Ok(d) => d,
            Err(e) => {
                return Err(e);
            },
        };
        let q_norm = self.q_norm;
        let q = Self::record_normed(
            tape,
            xs,
            self.q_proj,
            &q_norm,
            b_sz,
            q_len,
            self.num_heads,
            self.head_dim,
        );
        let (k, v, stored_shared_kv) = if self.is_kv_shared_layer {
            match shared_kv {
                Some((k, v)) => (k, v, None),
                None => {
                    return Err(Refusal::SharedKv);
                },
            }
        } else {
            let k_proj = self.k_proj.unwrap();
            let v_proj = self.v_proj.unwrap();
            let k_norm = self.k_norm.unwrap();
            let k = Self::record_normed(
                tape,
                xs,
                k_proj,
                &k_norm,
                b_sz,
                q_len,
                self.num_kv_heads,
                self.head_dim,
            );
            let v_flat = tape.project(Projection::Own(v_proj), xs);
            let v_split = Self::record_heads(
                tape,
                &v_flat,
                b_sz,
                q_len,
                self.num_kv_heads,
                self.head_dim,
            );
            proof {
                lemma_split_part(v_flat@, b_sz, q_len, self.num_kv_heads, self.head_dim);
                lemma_plain_norm_part(self.rms_norm_eps, v_split@);
            }
            let v = v_norm(tape, &v_split, self.rms_norm_eps);
            let k = match self.record_rotation(
                tape,
                rotary_emb_global,
                rotary_emb_local,
                &q,
                &k,
                seqlen_offset,
            ) {
                Ok((_, k)) => k,
                Err(e) => {
                    return Err(e);
                },
            };
            let (k, v) = tape.append(self.layer_idx, self.kv_cache.empty, &k, &v);
            self.kv_cache.empty = false;
            let stored = if self.store_full_length_kv {
                Some((k, v))
            } else {
                None
            };
            (k, v, stored)
        };
        let q = match self.record_rotation(
            tape,
            rotary_emb_global,
            rotary_emb_local,
            &q,
            &q,
            seqlen_offset,
        ) {
            Ok((q, _)) => q,
            Err(e) => {
                return Err(e);
            },
        };
        let mask = if self.is_sliding {
            sliding_attention_mask
        } else {
            attention_mask
        };
        let attn_output = self.record_attend(tape, &q, &k, &v, mask);
        let output = self.record_merge(tape, &attn_output, b_sz, q_len);
        proof {
            lemma_attention_parts(
                *old(self),
                old(tape).dtype,
                old(self).tables(*rotary_emb_global, *rotary_emb_local),
                xs@,
                terms_of(shared_kv),
                term_of(mask),
                seqlen_offset,
            );
            let all = parts(output@);
            let k_new = old(self).keys(
                old(tape).dtype,
                old(self).tables(*rotary_emb_global, *rotary_emb_local),
                xs@,
                seqlen_offset,
            );
            let action = Term::Append {
                layer: old(self).layer_idx,
                fresh: old(self).kv_cache.empty,
                k: Box::new(k_new),
                v: Box::new(old(self).values(xs@)),
            };
            assert(parts(q@).union(parts(q@)).subset_of(all));
            if !old(self).is_kv_shared_layer {
                assert(parts(q@).union(parts(k_new)).subset_of(all));
                assert(parts(Term::CachedKeys(Box::new(action))).union(
                    parts(Term::CachedValues(Box::new(action))),
                ).subset_of(all));
            }
        }
        Ok((output, stored_shared_kv))
    }

    /// Forgets the keys and values of earlier positions.
    pub fn clear_kv_cache(&mut self)
        ensures
            *final(self) == old(self).cleared(),
    {
        self.kv_cache.empty = true;
    }

    /// The layer with an empty cache.
    pub open spec fn cleared(self) -> Attention {
        Attention { kv_cache: KvCache { empty: true, ..self.kv_cache }, ..self }
    }
}

/// A tensor is part of itself split into heads.
proof fn lemma_split_part(x: Term, b: Dim, s: Dim, heads: usize, width: usize)
    ensures
        x.part_of(split_heads(x, b, s, heads, width)),
{
    let shaped = x.reshape(seq![b, s, Dim::Fixed(heads), Dim::Fixed(width)]);
    lemma_part_trans(x, shaped, split_heads(x, b, s, heads, width));
}

/// Queries, keys and values are parts of what attention makes of them.
proof fn lemma_attend_parts(att: Attention, q: Term, k: Term, v: Term, mask: Option<Term>)
    ensures
        q.part_of(att.attend(q, k, v, mask)),
        k.part_of(att.attend(q, k, v, mask)),
        v.part_of(att.attend(q, k, v, mask)),
{
    let all = att.attend(q, k, v, mask);
    let k_rep = k.apply(Unary::RepeatKv(att.num_kv_groups));
    let k_all = k_rep.apply(Unary::Contiguous);
    let v_rep = v.apply(Unary::RepeatKv(att.num_kv_groups));
    let v_all = v_rep.apply(Unary::Contiguous);
    lemma_part_trans(k, k_rep, k_all);
    lemma_part_trans(v, v_rep, v_all);
    if att.use_flash_attn {
        let (qt, kt, vt) = (
            q.apply(Unary::Transpose(1, 2)),
            k_all.apply(Unary::Transpose(1, 2)),
            v_all.apply(Unary::Transpose(1, 2)),
        );
        let out = Term::FlashAttn {
            q: Box::new(qt),
            k: Box::new(kt),
            v: Box::new(vt),
            causal: mask is Some,
        };
        lemma_part_flash(qt, kt, vt, mask is Some);
        assert(all == out.apply(Unary::Transpose(1, 2)));
        lemma_part_trans(q, qt, out);
        lemma_part_trans(k, k_all, kt);
        lemma_part_trans(k, kt, out);
        lemma_part_trans(v, v_all, vt);
        lemma_part_trans(v, vt, out);
        lemma_part_trans(q, out, all);
        lemma_part_trans(k, out, all);
        lemma_part_trans(v, out, all);
    } else {
        let kt = k_all.apply(Unary::Transpose(2, 3));
        let scores = q.combine(Binary::Matmul, kt);
        let masked = match mask {
            Some(m) => scores.combine(Binary::BroadcastAdd, m),
            None => scores,
        };
        let probs = masked.apply(Unary::SoftmaxLast);
        lemma_part_trans(k, k_all, kt);
        lemma_part_trans(k, kt, scores);
        lemma_part_trans(q, scores, masked);
        lemma_part_trans(k, scores, masked);
        lemma_part_trans(q, masked, probs);
        lemma_part_trans(k, masked, probs);
        assert(all == probs.combine(Binary::Matmul, v_all));
        lemma_part_trans(q, probs, all);
        lemma_part_trans(k, probs, all);
        lemma_part_trans(v, v_all, all);
    }
}

/// All that attention computes is part of its output.
pub proof fn lemma_attention_parts(
    att: Attention,
    weights: DType,
    t: Tables,
    xs: Term,
    shared: Option<(Term, Term)>,
    mask: Option<Term>,
    offset: usize,
)
    ensures
        xs.part_of(att.queries(weights, xs)),
        att.attention(weights, t, xs, shared, mask, offset) matches Ok(a) ==> {
            let plain = att.queries(weights, xs);
            let q = turned(plain, t.sin, t.cos, offset, plain.dims()[2]);
            &&& xs.part_of(a.out)
            &&& plain.part_of(a.out)
            &&& q.part_of(a.out)
            &&& a.action matches Some(action) ==> {
                let k = Term::CachedKeys(Box::new(action));
                let v = Term::CachedValues(Box::new(action));
                &&& att.plain_keys(weights, xs).part_of(a.out)
                &&& att.keys(weights, t, xs, offset).part_of(a.out)
                &&& att.values(xs).part_of(a.out)
                &&& k.part_of(a.out)
                &&& v.part_of(a.out)
                &&& att.attend(q, k, v, mask).part_of(a.out)
            }
            &&& a.action is None ==> att.attend(
                q,
                (shared->0).0,
                (shared->0).1,
                mask,
            ).part_of(a.out)
        },
{
    let flat = xs.project(Projection::Own(att.q_proj));
    let split = split_heads(flat, xs.dims()[0], xs.dims()[1], att.num_heads, att.head_dim);
    let plain = att.queries(weights, xs);
    lemma_split_part(flat, xs.dims()[0], xs.dims()[1], att.num_heads, att.head_dim);
    lemma_part_trans(xs, flat, split);
    lemma_part_trans(xs, split, plain);
    reveal(Attention::attention);
    if let Ok(a) = att.attention(weights, t, xs, shared, mask, offset) {
        let len = plain.dims()[2];
        let q = turned(plain, t.sin, t.cos, offset, len);
        let (plain_k, k_new, v_new) = (
            att.plain_keys(weights, xs),
            att.keys(weights, t, xs, offset),
            att.values(xs),
        );
        let action = Term::Append {
            layer: att.layer_idx,
            fresh: att.kv_cache.empty,
            k: Box::new(k_new),
            v: Box::new(v_new),
        };
        let (k, v) = if att.is_kv_shared_layer {
            shared->0
        } else {
            (Term::CachedKeys(Box::new(action)), Term::CachedValues(Box::new(action)))
        };
        let heads = att.attend(q, k, v, mask);
        let back = heads.apply(Unary::Transpose(1, 2));
        let merged = back.reshape(
            seq![
                xs.dims()[0],
                xs.dims()[1],
                dim_mul(dim_from_last(back.dims(), 1), dim_from_last(back.dims(), 0)),
            ],
        );
        lemma_part_trans(heads, back, merged);
        assert(a.out == merged.project(Projection::Own(att.o_proj)));
        lemma_part_trans(heads, merged, a.out);
        lemma_attend_parts(att, q, k, v, mask);
        lemma_part_trans(q, heads, a.out);
        lemma_part_trans(k, heads, a.out);
        lemma_part_trans(v, heads, a.out);
        lemma_rotated_parts(plain, rows(t.cos, offset, len), rows(t.sin, offset, len));
        lemma_part_trans(plain, q, a.out);
        lemma_part_trans(xs, plain, a.out);
        if !att.is_kv_shared_layer {
            lemma_part_cached(att.layer_idx, att.kv_cache.empty, k_new, v_new);
            lemma_part_trans(k_new, k, a.out);
            lemma_part_trans(v_new, k, a.out);
            lemma_rotated_parts(plain_k, rows(t.cos, offset, len), rows(t.sin, offset, len));
            lemma_part_trans(plain_k, k_new, a.out);
        }
    }
}

/// The output of attention has one vector of hidden states per position.
pub proof fn lemma_merged_dims(att: Attention, xs: Term, heads: Term)
    ensures
        att.merge_heads(xs, heads).dims() == seq![
            xs.dims()[0],
            xs.dims()[1],
            Dim::Fixed(att.o_proj.out_dim),
        ],
{
    let t = heads.apply(Unary::Transpose(1, 2));
    let flat = t.reshape(
        seq![
            xs.dims()[0],
            xs.dims()[1],
            dim_mul(dim_from_last(t.dims(), 1), dim_from_last(t.dims(), 0)),
        ],
    );
    assert(flat.dims().len() == 3);
    assert(att.merge_heads(xs, heads).dims() =~= seq![
        xs.dims()[0],
        xs.dims()[1],
        Dim::Fixed(att.o_proj.out_dim),
    ]);
}

/// Attention yields one vector of hidden states per position.
pub proof fn lemma_attention_dims(
    att: Attention,
    weights: DType,
    t: Tables,
    xs: Term,
    shared: Option<(Term, Term)>,
    mask: Option<Term>,
    offset: usize,
)
    ensures
        att.attention(weights, t, xs, shared, mask, offset) matches Ok(a) ==> a.out.dims() == seq![
            xs.dims()[0],
            xs.dims()[1],
            Dim::Fixed(att.o_proj.out_dim),
        ],
{
    reveal(Attention::attention);
    let action = Term::Append {
        layer: att.layer_idx,
        fresh: att.kv_cache.empty,
        k: Box::new(att.keys(weights, t, xs, offset)),
        v: Box::new(att.values(xs)),
    };
    let (k, v) = if att.is_kv_shared_layer {
        shared->0
    } else {
        (Term::CachedKeys(Box::new(action)), Term::CachedValues(Box::new(action)))
    };
    let plain = att.queries(weights, xs);
    let q = turned(plain, t.sin, t.cos, offset, plain.dims()[2]);
    lemma_merged_dims(att, xs, att.attend(q, k, v, mask));
}

} // verus!
