//! The text decoder.

use crate::attention::{optional_on, term_of};
use crate::config::Gemma4TextConfig;
use crate::layer::DecoderLayer;
use crate::mask::{attention_mask, prepare_decoder_attention_mask};
use crate::norm::{rms_norm, RmsNorm};
use crate::parts::{optional_parts, parts};
use crate::refusal::Refusal;
use crate::rotary::{global_angles, local_angles, ProportionalRotaryEmbedding, RotaryEmbedding};
use crate::tape::{Tape, Tensor};
use crate::term::{
    Binary, DType, Dim, Embedding, F64Bits, Linear, Module, Projection, Scalar, Term, Unary,
    VarPath,
};
use crate::vars::{self, Load};
use vstd::prelude::*;

verus! {

broadcast use {
    crate::tape::group_tape,
    crate::tape::group_adds,
    crate::parts::group_parts,
    crate::norm::lemma_norm_part,
};

/// The text decoder of a checkpoint.
#[derive(Clone)]
pub struct TextModel {
    pub embed_tokens: Embedding,
    /// The inputs of all layers for each token, side by side.
    pub per_layer_embed_tokens: Option<Embedding>,
    pub per_layer_model_projection: Option<Linear>,
    pub per_layer_projection_norm: Option<RmsNorm>,
    pub per_layer_input_dim: usize,
    pub layer_is_sliding: Vec<bool>,
    pub layers: Vec<DecoderLayer>,
    pub norm: RmsNorm,
    pub lm_head: Projection,
    pub final_logit_softcapping: Option<F64Bits>,
    pub rotary_emb_global: ProportionalRotaryEmbedding,
    pub rotary_emb_local: RotaryEmbedding,
    pub dtype: DType,
    pub hidden_size: usize,
    pub sliding_window: usize,
}

/// What is loaded for layers, one after the other.
pub open spec fn layer_loads(layers: Seq<DecoderLayer>) -> Seq<Load>
    decreases layers.len(),
{
    if layers.len() == 0 {
        Seq::empty()
    } else {
        layer_loads(layers.drop_last()) + layers.last().loads()
    }
}

/// Layers with empty caches.
pub open spec fn cleared_layers(layers: Seq<DecoderLayer>) -> Seq<DecoderLayer> {
    layers.map_values(|l: DecoderLayer| l.cleared())
}

/// The layers of a configuration.
pub open spec fn layers_of(cfg: Gemma4TextConfig) -> Seq<DecoderLayer> {
    Seq::new(
        cfg.num_hidden_layers as nat,
        |i: int|
            DecoderLayer::at(cfg, i as usize, VarPath::spec_root().at_layer(i as usize)),
    )
}

impl TextModel {
    /// Every layer is well formed, and it is known of each whether it is sliding.
    pub open spec fn wf(self) -> bool {
        &&& self.layer_is_sliding@.len() == self.layers@.len()
        &&& forall|i: int| 0 <= i < self.layers@.len() ==> (#[trigger] self.layers@[i]).wf()
    }

    /// Whether the model's tables are tensors of a tape, which has its weights.
    pub open spec fn on(self, tape: Tape) -> bool {
        &&& self.rotary_emb_global.on(tape)
        &&& self.rotary_emb_local.on(tape)
        &&& self.dtype == tape.dtype
    }

    /// Whether this is the decoder of a configuration, with weights of the given
    /// element type and nothing in its caches.
    pub open spec fn laid_out(self, cfg: Gemma4TextConfig, dtype: DType) -> bool {
        &&& self.belongs_to(cfg, dtype)
        &&& self.layers@ == layers_of(cfg)
    }

    /// Whether this is the decoder of a configuration, with weights of the given
    /// element type, whatever is in its caches.
    pub open spec fn belongs_to(self, cfg: Gemma4TextConfig, dtype: DType) -> bool {
        let root = VarPath::spec_root();
        let width = cfg.hidden_size_per_layer_input;
        let packed = (cfg.num_hidden_layers * width) as usize;
        let local = local_angles(
            dtype,
            cfg.head_dim,
            cfg.rope_local_base_freq,
            cfg.max_position_embeddings,
        );
        let global = global_angles(
            cfg.global_head_dim,
            cfg.rope_theta,
            cfg.rope_angles,
            cfg.max_position_embeddings,
        );
        &&& self.embed_tokens == Embedding {
            path: root.at(Module::EmbedTokens),
            rows: cfg.vocab_size,
            cols: cfg.hidden_size,
        }
        &&& self.per_layer_embed_tokens == if width > 0 {
            Some(
                Embedding {
                    path: root.at(Module::EmbedTokensPerLayer),
                    rows: cfg.vocab_size_per_layer_input,
                    cols: packed,
                },
            )
        } else {
            None
        }
        &&& self.per_layer_model_projection == if width > 0 {
            Some(
                Linear {
                    path: root.at(Module::PerLayerModelProjection),
                    in_dim: cfg.hidden_size,
                    out_dim: packed,
                    bias: false,
                },
            )
        } else {
            None
        }
        &&& self.per_layer_projection_norm == if width > 0 {
            Some(RmsNorm::at(width, cfg.rms_norm_eps, root.at(Module::PerLayerProjectionNorm)))
        } else {
            None
        }
        &&& self.per_layer_input_dim == width
        &&& self.layer_is_sliding@ == cfg.sliding@.take(cfg.num_hidden_layers as int)
        &&& cleared_layers(self.layers@) == layers_of(cfg)
        &&& self.norm == RmsNorm::at(cfg.hidden_size, cfg.rms_norm_eps, root.at(Module::Norm))
        &&& self.lm_head == if cfg.tie_word_embeddings {
            Projection::Tied(self.embed_tokens)
        } else {
            Projection::Own(
                Linear {
                    path: root.at(Module::LmHead),
                    in_dim: cfg.hidden_size,
                    out_dim: cfg.vocab_size,
                    bias: false,
                },
            )
        }
        &&& self.final_logit_softcapping == cfg.final_logit_softcapping
        &&& self.rotary_emb_global.sin@ == global.apply(Unary::Sin).apply(Unary::Cast(dtype))
        &&& self.rotary_emb_global.cos@ == global.apply(Unary::Cos).apply(Unary::Cast(dtype))
        &&& self.rotary_emb_local.sin@ == local.apply(Unary::Sin)
        &&& self.rotary_emb_local.cos@ == local.apply(Unary::Cos)
        &&& self.dtype == dtype
        &&& self.hidden_size == cfg.hidden_size
        &&& self.sliding_window == cfg.sliding_window
    }

    /// What is computed for the angle tables.
    pub open spec fn table_parts(self) -> Set<Term> {
        let global = parts(self.rotary_emb_global.sin@).union(parts(self.rotary_emb_global.cos@));
        let local = parts(self.rotary_emb_local.sin@).union(parts(self.rotary_emb_local.cos@));
        global.union(local)
    }

    /// What is loaded for the decoder, in order.
    pub open spec fn loads(self) -> Seq<Load> {
        let per_layer = match (
            self.per_layer_embed_tokens,
            self.per_layer_model_projection,
            self.per_layer_projection_norm,
        ) {
            (Some(embedding), Some(projection), Some(norm)) => seq![
                Load::Embedding(embedding),
                Load::Linear(projection),
                Load::Param(norm.weight),
            ],
            _ => Seq::empty(),
        };
        let head = match self.lm_head {
            Projection::Own(linear) => seq![Load::Linear(linear)],
            Projection::Tied(_) => Seq::empty(),
        };
        seq![Load::Embedding(self.embed_tokens)] + per_layer + layer_loads(self.layers@) + seq![
            Load::Param(self.norm.weight),
        ] + head
    }

    /// Lays out a decoder, loads its weights and records its angle tables.
    pub fn new(cfg: &Gemma4TextConfig, tape: &mut Tape, loads: &mut Vec<Load>) -> (r: TextModel)
        requires
            cfg.fits(),
            old(tape).wf(),
        ensures
            r.laid_out(*cfg, old(tape).dtype),
            r.wf(),
            final(tape).computes(*old(tape), r.table_parts()),
            r.on(*final(tape)),
            final(loads)@ == old(loads)@ + r.loads(),
    {
        let vb_m = VarPath::root();
        let dtype = tape.dtype;
        let embed_tokens = vars::embedding(
            loads,
            cfg.vocab_size,
            cfg.hidden_size,
            vb_m.pp(Module::EmbedTokens),
        );
        let (per_layer_embed_tokens, per_layer_model_projection, per_layer_projection_norm) = if cfg.hidden_size_per_layer_input
            > 0 {
            let packed_dim: usize = cfg.num_hidden_layers * cfg.hidden_size_per_layer_input;
            let embedding = vars::embedding(
                loads,
                cfg.vocab_size_per_layer_input,
                packed_dim,
                vb_m.pp(Module::EmbedTokensPerLayer),
            );
            let projection = vars::linear_b(
                loads,
                cfg.hidden_size,
                packed_dim,
                false,
                vb_m.pp(Module::PerLayerModelProjection),
            );
            let norm = RmsNorm::new(
                cfg.hidden_size_per_layer_input,
                cfg.rms_norm_eps,
                vb_m.pp(Module::PerLayerProjectionNorm),
                loads,
            );
            (Some(embedding), Some(projection), Some(norm))
        } else {
            (None, None, None)
        };
        let rotary_emb_global = ProportionalRotaryEmbedding::new(
            tape,
            dtype,
            cfg.global_head_dim,
            cfg.rope_theta,
            cfg.rope_angles,
            cfg.max_position_embeddings,
        );
        let rotary_emb_local = RotaryEmbedding::new(
            tape,
            dtype,
            cfg.head_dim,
            cfg.rope_local_base_freq,
            cfg.max_position_embeddings,
        );
        let mut layers: Vec<DecoderLayer> = Vec::new();
        let mut layer_is_sliding: Vec<bool> = Vec::new();
        let ghost before = loads@;
        let n = cfg.num_hidden_layers;
        for layer_idx in 0..n
            invariant
                n == cfg.num_hidden_layers,
                cfg.fits(),
                vb_m == VarPath::spec_root(),
                layers@ == layers_of(*cfg).take(layer_idx as int),
                layer_is_sliding@ == cfg.sliding@.take(layer_idx as int),
                loads@ == before + layer_loads(layers@),
                forall|i: int| 0 <= i < layers@.len() ==> (#[trigger] layers@[i]).wf(),
        {
            assert(cfg.layer_fits(layer_idx as int));
            let layer = DecoderLayer::new(cfg, layer_idx, vb_m.pp_layer(layer_idx), loads);
            let ghost shorter = layers@;
            layers.push(layer);
            layer_is_sliding.push(cfg.sliding[layer_idx]);
            proof {
                assert(layers@.drop_last() =~= shorter);
                assert(layers_of(*cfg).take(layer_idx + 1) =~= layers_of(*cfg).take(
                    layer_idx as int,
                ).push(layers_of(*cfg)[layer_idx as int]));
                assert(cfg.sliding@.take(layer_idx + 1) =~= cfg.sliding@.take(
                    layer_idx as int,
                ).push(cfg.sliding@[layer_idx as int]));
                assert(loads@ =~= before + layer_loads(layers@));
            }
        }
        proof {
            assert(layers_of(*cfg).take(n as int) =~= layers_of(*cfg));
            assert(cleared_layers(layers_of(*cfg)) =~= layers_of(*cfg));
            if n > 0 {
                assert(cfg.layer_fits(n - 1));
            }
        }
        let norm = RmsNorm::new(cfg.hidden_size, cfg.rms_norm_eps, vb_m.pp(Module::Norm), loads);
        let lm_head = if cfg.tie_word_embeddings {
            Projection::Tied(embed_tokens)
        } else {
            Projection::Own(
                vars::linear_b(
                    loads,
                    cfg.hidden_size,
                    cfg.vocab_size,
                    false,
                    vb_m.pp(Module::LmHead),
                ),
            )
        };
        let r = TextModel {
            embed_tokens,
            per_layer_embed_tokens,
            per_layer_model_projection,
            per_layer_projection_norm,
            per_layer_input_dim: cfg.hidden_size_per_layer_input,
            layer_is_sliding,
            layers,
            norm,
            lm_head,
            final_logit_softcapping: cfg.final_logit_softcapping,
            rotary_emb_global,
            rotary_emb_local,
            dtype,
            hidden_size: cfg.hidden_size,
            sliding_window: cfg.sliding_window,
        };
        assert(loads@ =~= old(loads)@ + r.loads());
        r
    }

    /// The masks of full and of sliding attention; a single token needs none.
    pub open spec fn masks(
        self,
        batch_size: usize,
        seq_len: usize,
        seqlen_offset: usize,
    ) -> (Option<Term>, Option<Term>) {
        if seq_len <= 1 {
            (None, None)
        } else {
            (
                Some(attention_mask(batch_size, seq_len, seqlen_offset, None, self.dtype)),
                Some(
                    attention_mask(
                        batch_size,
                        seq_len,
                        seqlen_offset,
                        Some(self.sliding_window),
                        self.dtype,
                    ),
                ),
            )
        }
    }

    /// Whether masks for so many tokens fit in memory.
    pub open spec fn masks_fit(seq_len: usize, seqlen_offset: usize) -> bool {
        seq_len > 1 ==> {
            &&& seq_len * seq_len <= usize::MAX
            &&& seq_len + seqlen_offset <= usize::MAX
        }
    }

    /// Whether masks for so many tokens fit in memory.
    pub fn check_masks(seq_len: usize, seqlen_offset: usize) -> (r: bool)
        ensures
            r == TextModel::masks_fit(seq_len, seqlen_offset),
            r == (seq_len <= 1 || (seq_len * seq_len <= usize::MAX && seq_len + seqlen_offset
                <= usize::MAX)),
    {
        seq_len <= 1 || (seq_len.checked_mul(seq_len).is_some() && seq_len.checked_add(
            seqlen_offset,
        ).is_some())
    }

    /// Records the masks of full and of sliding attention.
    pub fn create_attention_masks(
        &self,
        tape: &mut Tape,
        batch_size: usize,
        seq_len: usize,
        seqlen_offset: usize,
    ) -> (r: (Option<Tensor>, Option<Tensor>))
        requires
            old(tape).wf(),
            TextModel::masks_fit(seq_len, seqlen_offset),
        ensures
            final(tape).computes(
                *old(tape),
                optional_parts(term_of(r.0)).union(optional_parts(term_of(r.1))),
            ),
            optional_on(r.0, *final(tape)),
            optional_on(r.1, *final(tape)),
            (term_of(r.0), term_of(r.1)) == self.masks(batch_size, seq_len, seqlen_offset),
    {
        if seq_len <= 1 {
            return (None, None);
        }
        let mask = prepare_decoder_attention_mask(
            tape,
            batch_size,
            seq_len,
            seqlen_offset,
            None,
            self.dtype,
        );
        let sliding_mask = prepare_decoder_attention_mask(
            tape,
            batch_size,
            seq_len,
            seqlen_offset,
            Some(self.sliding_window),
            self.dtype,
        );
        (Some(mask), Some(sliding_mask))
    }

    /// The embeddings of tokens, scaled by the root of the hidden size.
    pub open spec fn embedded(self, weights: DType, input_ids: Term) -> Term {
        Term::Lookup(self.embed_tokens, weights, Box::new(input_ids)).apply(
            Unary::MulScalar(Scalar::Sqrt(self.hidden_size)),
        )
    }

    /// Embeds tokens.
    pub fn embed_tokens(&self, tape: &mut Tape, input_ids: &Tensor) -> (r: Tensor)
        requires
            old(tape).wf(),
            old(tape).holds(*input_ids),
        ensures
            final(tape).computes(*old(tape), parts(r@)),
            final(tape).holds(r),
            r@ == self.embedded(old(tape).dtype, input_ids@),
    {
        let xs = tape.lookup(self.embed_tokens, input_ids);
        tape.apply(Unary::MulScalar(Scalar::Sqrt(self.hidden_size)), &xs)
    }

    /// The part of the layers' own inputs that rests on the tokens.
    pub open spec fn token_inputs(self, weights: DType, input_ids: Term) -> Result<
        Option<Term>,
        Refusal,
    > {
        match self.per_layer_embed_tokens {
            None => Ok(None),
            Some(embedding) => if input_ids.dims().len() != 2 {
                Err(Refusal::Rank { expected: 2, found: input_ids.dims().len() as usize })
            } else {
                Ok(
                    Some(
                        Term::Lookup(embedding, weights, Box::new(input_ids)).apply(
                            Unary::MulScalar(Scalar::Sqrt(self.per_layer_input_dim)),
                        ).reshape(
                            seq![
                                input_ids.dims()[0],
                                input_ids.dims()[1],
                                Dim::Fixed(self.layers@.len() as usize),
                                Dim::Fixed(self.per_layer_input_dim),
                            ],
                        ),
                    ),
                )
            },
        }
    }

    /// Records the part of the layers' own inputs that rests on the tokens.
    pub fn token_per_layer_inputs(&self, tape: &mut Tape, input_ids: &Tensor) -> (r: Result<
        Option<Tensor>,
        Refusal,
    >)
        requires
            old(tape).wf(),
            old(tape).holds(*input_ids),
        ensures
            match self.token_inputs(old(tape).dtype, input_ids@) {
                Ok(t) => {
                    &&& r is Ok
                    &&& final(tape).computes(*old(tape), optional_parts(t))
                    &&& optional_on(r->Ok_0, *final(tape))
                    &&& term_of(r->Ok_0) == t
                },
                Err(e) => r == Err::<Option<Tensor>, Refusal>(e) && *final(tape) == *old(tape),
            },
    {
        let embedding = match self.per_layer_embed_tokens {
            Some(e) => e,
            None => {
                return Ok(None);
            },
        };
        let (batch_size, seq_len) = match tape.dims2(input_ids) {
            Ok(d) => d,
            Err(e) => {
                return Err(e);
            },
        };
        let found = tape.lookup(embedding, input_ids);
        let inputs = tape.apply(
            Unary::MulScalar(Scalar::Sqrt(self.per_layer_input_dim)),
            &found,
        );
        let dims: Vec<Dim> = vec![
            batch_size,
            seq_len,
            Dim::Fixed(self.layers.len()),
            Dim::Fixed(self.per_layer_input_dim),
        ];
        assert(dims@ =~= seq![
            batch_size,
            seq_len,
            Dim::Fixed(self.layers@.len() as usize),
            Dim::Fixed(self.per_layer_input_dim),
        ]);
        Ok(Some(tape.reshape(&inputs, dims)))
    }

    /// The layers' own inputs: the embeddings projected and normalized, and, where
    /// tokens are known, averaged with what rests on them.
    pub open spec fn per_layer_inputs(
        self,
        weights: DType,
        embeds: Term,
        token_inputs: Option<Term>,
    ) -> Result<Option<Term>, Refusal> {
        match (self.per_layer_model_projection, self.per_layer_projection_norm) {
            (Some(projection), Some(norm)) => if embeds.dims().len() != 3 {
                Err(Refusal::Rank { expected: 3, found: embeds.dims().len() as usize })
            } else {
                let projected = rms_norm(
                    norm,
                    weights,
                    embeds.project(Projection::Own(projection)).apply(
                        Unary::MulScalar(Scalar::RecipSqrt(self.hidden_size)),
                    ).reshape(
                        seq![
                            embeds.dims()[0],
                            embeds.dims()[1],
                            Dim::Fixed(self.layers@.len() as usize),
                            Dim::Fixed(self.per_layer_input_dim),
                        ],
                    ),
                );
                Ok(
                    Some(
                        match token_inputs {
                            Some(t) => projected.combine(Binary::Add, t).apply(
                                Unary::MulScalar(Scalar::RecipSqrt(2)),
                            ),
                            None => projected,
                        },
                    ),
                )
            },
            _ => Ok(None),
        }
    }

    /// Records the layers' own inputs.
    pub fn project_per_layer_inputs(
        &self,
        tape: &mut Tape,
        input_embeds: &Tensor,
        token_inputs: Option<Tensor>,
    ) -> (r: Result<Option<Tensor>, Refusal>)
        requires
            old(tape).wf(),
            old(tape).holds(*input_embeds),
            optional_on(token_inputs, *old(tape)),
        ensures
            match self.per_layer_inputs(old(tape).dtype, input_embeds@, term_of(token_inputs)) {
                Ok(t) => {
                    &&& r is Ok
                    &&& final(tape).computes(*old(tape), optional_parts(t))
                    &&& optional_on(r->Ok_0, *final(tape))
                    &&& term_of(r->Ok_0) == t
                },
                Err(e) => r == Err::<Option<Tensor>, Refusal>(e) && *final(tape) == *old(tape),
            },
    {
        let (projection, norm) = match (
            self.per_layer_model_projection,
            self.per_layer_projection_norm,
        ) {
            (Some(projection), Some(norm)) => (projection, norm),
            _ => {
                return Ok(None);
            },
        };
        let (batch_size, seq_len, _) = match tape.dims3(input_embeds) {
            Ok(d) => d,
            Err(e) => {
                return Err(e);
            },
        };
        let flat = tape.project(Projection::Own(projection), input_embeds);
        let scaled = tape.apply(
            Unary::MulScalar(Scalar::RecipSqrt(self.hidden_size)),
            &flat,
        );
        let dims: Vec<Dim> = vec![
            batch_size,
            seq_len,
            Dim::Fixed(self.layers.len()),
            Dim::Fixed(self.per_layer_input_dim),
        ];
        assert(dims@ =~= seq![
            batch_size,
            seq_len,
            Dim::Fixed(self.layers@.len() as usize),
            Dim::Fixed(self.per_layer_input_dim),
        ]);
        let shaped = tape.reshape(&scaled, dims);
        assert(shaped@.dims().len() == 4);
        let projected = match norm.forward(tape, &shaped) {
            Ok(t) => t,
            Err(e) => {
                return Err(e);
            },
        };
        match token_inputs {
            Some(t) => {
                let sum = tape.combine(Binary::Add, &projected, &t);
                Ok(Some(tape.apply(Unary::MulScalar(Scalar::RecipSqrt(2)), &sum)))
            },
            None => Ok(Some(projected)),
        }
    }
}

} // verus!
