//! Passes of the decoder: from tokens or embeddings to logits.

use crate::attention::{optional_on, shared_on, term_of, terms_of, SharedKv};
use crate::layer::{DecoderLayer, Layered};
use crate::model::{cleared_layers, TextModel};
use crate::norm::{lemma_norm_part, rms_norm};
use crate::parts::{group_parts, lemma_within_union, optional_parts, parts};
use crate::refusal::Refusal;
use crate::rotary::known;
use crate::tape::{
    group_adds, lemma_adds_join, lemma_adds_self, lemma_adds_within, Tape, Tensor,
};
use crate::term::{DType, Dim, Scalar, Term, Unary};
use vstd::prelude::*;

verus! {

broadcast use crate::tape::group_tape;

/// What a pass through the layers starts from.
pub struct Inputs {
    /// The element type of the weights.
    pub weights: DType,
    /// The embeddings.
    pub xs: Term,
    /// The layers' own inputs.
    pub per_layer: Option<Term>,
    /// The mask of full attention.
    pub full_mask: Option<Term>,
    /// The mask of sliding attention.
    pub sliding_mask: Option<Term>,
    /// The position of the first token.
    pub offset: usize,
}

/// How far a pass has come.
pub struct Progress {
    /// The hidden states.
    pub xs: Term,
    /// The keys and values last stored by a layer with sliding attention.
    pub sliding_kv: Option<(Term, Term)>,
    /// The keys and values last stored by a layer with full attention.
    pub full_kv: Option<(Term, Term)>,
    /// The appends to caches so far.
    pub actions: Seq<Term>,
}

/// What a pass comes to.
pub struct Outcome {
    /// The logits, or why there are none.
    pub result: Result<Term, Refusal>,
    /// The appends to caches.
    pub actions: Seq<Term>,
    /// The layers afterwards.
    pub layers: Seq<DecoderLayer>,
    /// All that is computed.
    pub computed: Set<Term>,
}

/// Layer `i`'s part of the layers' own inputs.
pub open spec fn own_input(per_layer: Option<Term>, i: usize) -> Option<Term> {
    match per_layer {
        Some(t) => Some(
            t.apply(Unary::Narrow { axis: 2, start: i, len: Dim::Fixed(1) }).apply(
                Unary::Squeeze(2),
            ),
        ),
        None => None,
    }
}

/// Layers of which the first `n` have run.
pub open spec fn used_up_to(layers: Seq<DecoderLayer>, n: nat) -> Seq<DecoderLayer> {
    Seq::new(
        layers.len(),
        |i: int|
            if i < n {
                layers[i].used()
            } else {
                layers[i]
            },
    )
}

impl TextModel {
    /// What layer `i` makes of the progress so far.
    pub open spec fn step(self, inputs: Inputs, p: Progress, i: int) -> Result<Layered, Refusal> {
        let layer = self.layers@[i];
        layer.run(
            inputs.weights,
            layer.self_attn.tables(self.rotary_emb_global, self.rotary_emb_local),
            p.xs,
            own_input(inputs.per_layer, i as usize),
            if self.layer_is_sliding@[i] {
                p.sliding_kv
            } else {
                p.full_kv
            },
            if layer.self_attn.is_sliding {
                inputs.sliding_mask
            } else {
                inputs.full_mask
            },
            inputs.offset,
        )
    }

    /// The progress behind layer `i`.
    pub open spec fn advance(self, p: Progress, l: Layered, i: int) -> Progress {
        Progress {
            xs: l.out,
            sliding_kv: if self.layer_is_sliding@[i] && l.stored is Some {
                l.stored
            } else {
                p.sliding_kv
            },
            full_kv: if !self.layer_is_sliding@[i] && l.stored is Some {
                l.stored
            } else {
                p.full_kv
            },
            actions: match l.action {
                Some(t) => p.actions.push(t),
                None => p.actions,
            },
        }
    }

    /// A pass through the first `n` layers.
    pub open spec fn pass(self, inputs: Inputs, n: nat) -> Result<Progress, Refusal>
        decreases n,
    {
        if n == 0 {
            Ok(
                Progress {
                    xs: inputs.xs,
                    sliding_kv: None,
                    full_kv: None,
                    actions: Seq::empty(),
                },
            )
        } else {
            match self.pass(inputs, (n - 1) as nat) {
                Ok(p) => match self.step(inputs, p, n - 1) {
                    Ok(l) => Ok(self.advance(p, l, n - 1)),
                    Err(e) => Err(e),
                },
                Err(e) => Err(e),
            }
        }
    }

    /// How many of the first `n` layers run in a pass before one refuses.
    pub open spec fn reached(self, inputs: Inputs, n: nat) -> nat
        decreases n,
    {
        if n == 0 || self.pass(inputs, n) is Ok {
            n
        } else {
            self.reached(inputs, (n - 1) as nat)
        }
    }

    /// All that is computed in the first `n` layers of a pass: what is part of a layer's
    /// own input or of the hidden states behind it, or, where it is refused, what comes
    /// before that.
    pub open spec fn computed(self, inputs: Inputs, n: nat) -> Set<Term>
        decreases n,
    {
        if n == 0 {
            Set::empty()
        } else {
            let before = self.computed(inputs, (n - 1) as nat);
            match self.pass(inputs, (n - 1) as nat) {
                Ok(p) => before.union(
                    optional_parts(own_input(inputs.per_layer, (n - 1) as usize)),
                ).union(
                    match self.step(inputs, p, n - 1) {
                        Ok(l) => parts(l.out),
                        Err(_) => self.layers@[n - 1].attempted(inputs.weights, p.xs),
                    },
                ),
                Err(_) => before,
            }
        }
    }

    /// The logits of the last of `seq_len` tokens, given the last hidden states.
    pub open spec fn logits(self, weights: DType, xs: Term, seq_len: usize) -> Result<Term, Refusal> {
        if xs.dims().len() == 0 {
            Err(Refusal::NoAxis)
        } else {
            let last = xs.apply(
                Unary::Narrow { axis: 1, start: (seq_len - 1) as usize, len: Dim::Fixed(1) },
            );
            let logits = rms_norm(self.norm, weights, last).project(self.lm_head);
            Ok(
                match self.final_logit_softcapping {
                    Some(sc) => logits.apply(Unary::DivScalar(Scalar::Given(sc))).apply(
                        Unary::Tanh,
                    ).apply(Unary::MulScalar(Scalar::Given(sc))),
                    None => logits,
                },
            )
        }
    }

    /// What a pass starts from, given the layers' own inputs.
    pub open spec fn inputs(
        self,
        weights: DType,
        xs: Term,
        per_layer: Option<Term>,
        offset: usize,
        batch_size: usize,
        seq_len: usize,
    ) -> Inputs {
        let (full_mask, sliding_mask) = self.masks(batch_size, seq_len, offset);
        Inputs { weights, xs, per_layer, full_mask, sliding_mask, offset }
    }

    /// What a pass over embeddings comes to.
    pub open spec fn outcome(
        self,
        weights: DType,
        xs: Term,
        token_inputs: Option<Term>,
        offset: usize,
        batch_size: usize,
        seq_len: usize,
    ) -> Outcome {
        let (full_mask, sliding_mask) = self.masks(batch_size, seq_len, offset);
        let masks = optional_parts(full_mask).union(optional_parts(sliding_mask));
        match self.per_layer_inputs(weights, xs, token_inputs) {
            Err(e) => Outcome {
                result: Err(e),
                actions: Seq::empty(),
                layers: self.layers@,
                computed: masks,
            },
            Ok(per_layer) => {
                let inputs = self.inputs(weights, xs, per_layer, offset, batch_size, seq_len);
                let n = self.layers@.len();
                let done = self.reached(inputs, n);
                let result = match self.pass(inputs, n) {
                    Ok(p) => self.logits(weights, p.xs, seq_len),
                    Err(e) => Err(e),
                };
                Outcome {
                    result,
                    actions: self.pass(inputs, done)->Ok_0.actions,
                    layers: used_up_to(self.layers@, done),
                    computed: masks.union(optional_parts(per_layer)).union(
                        self.computed(inputs, n),
                    ).union(
                        match result {
                            Ok(logits) => parts(logits),
                            Err(_) => Set::empty(),
                        },
                    ),
                }
            },
        }
    }

    /// What a pass over tokens comes to. Tokens that do not lie in rows of equal
    /// length are refused before anything else.
    pub open spec fn token_outcome(self, weights: DType, input_ids: Term, offset: usize) -> Outcome {
        if input_ids.dims().len() != 2 {
            Outcome {
                result: Err(
                    Refusal::Rank { expected: 2, found: input_ids.dims().len() as usize },
                ),
                actions: Seq::empty(),
                layers: self.layers@,
                computed: Set::empty(),
            }
        } else {
            let xs = self.embedded(weights, input_ids);
            let token_inputs = self.token_inputs(weights, input_ids)->Ok_0;
            let outcome = self.outcome(
                weights,
                xs,
                token_inputs,
                offset,
                known(input_ids.dims()[0]),
                known(input_ids.dims()[1]),
            );
            Outcome {
                computed: parts(xs).union(optional_parts(token_inputs)).union(outcome.computed),
                ..outcome
            }
        }
    }

    /// Whether two models differ in their layers at most.
    pub open spec fn same_but_layers(self, other: TextModel) -> bool {
        &&& self.embed_tokens == other.embed_tokens
        &&& self.per_layer_embed_tokens == other.per_layer_embed_tokens
        &&& self.per_layer_model_projection == other.per_layer_model_projection
        &&& self.per_layer_projection_norm == other.per_layer_projection_norm
        &&& self.per_layer_input_dim == other.per_layer_input_dim
        &&& self.layer_is_sliding@ == other.layer_is_sliding@
        &&& self.norm == other.norm
        &&& self.lm_head == other.lm_head
        &&& self.final_logit_softcapping == other.final_logit_softcapping
        &&& self.rotary_emb_global == other.rotary_emb_global
        &&& self.rotary_emb_local == other.rotary_emb_local
        &&& self.dtype == other.dtype
        &&& self.hidden_size == other.hidden_size
        &&& self.sliding_window == other.sliding_window
    }

    /// Whether a pass turned `old_model` into this model and `old_tape` into
    /// `tape` and came to `outcome`.
    pub open spec fn came_to(
        self,
        old_model: TextModel,
        tape: Tape,
        old_tape: Tape,
        r: Result<Tensor, Refusal>,
        outcome: Outcome,
    ) -> bool {
        &&& tape.extends(old_tape)
        &&& tape.adds(old_tape, outcome.computed)
        &&& tape.actions() == old_tape.actions() + outcome.actions
        &&& self.same_but_layers(old_model)
        &&& self.layers@ == outcome.layers
        &&& match outcome.result {
            Ok(t) => r is Ok && tape.holds(r->Ok_0) && r->Ok_0@ == t,
            Err(e) => r == Err::<Tensor, Refusal>(e),
        }
    }

    /// Records the logits of the last token.
    fn record_logits(&self, tape: &mut Tape, xs: &Tensor, seq_len: usize) -> (r: Result<
        Tensor,
        Refusal,
    >)
        requires
            old(tape).wf(),
            old(tape).holds(*xs),
            seq_len > 0,
        ensures
            match self.logits(old(tape).dtype, xs@, seq_len) {
                Ok(t) => {
                    &&& r is Ok
                    &&& final(tape).computes(*old(tape), parts(t))
                    &&& final(tape).holds(r->Ok_0)
                    &&& r->Ok_0@ == t
                },
                Err(e) => r == Err::<Tensor, Refusal>(e) && *final(tape) == *old(tape),
            },
    {
        broadcast use {group_adds, group_parts, lemma_norm_part};

        if tape.dims(xs).len() == 0 {
            return Err(Refusal::NoAxis);
        }
        let last = tape.apply(
            Unary::Narrow { axis: 1, start: seq_len - 1, len: Dim::Fixed(1) },
            xs,
        );
        assert(last@.dims().len() == xs@.dims().len());
        let normed = match self.norm.forward(tape, &last) {
            Ok(t) => t,
            Err(e) => {
                return Err(e);
            },
        };
        let logits = tape.project(self.lm_head, &normed);
        match self.final_logit_softcapping {
            None => Ok(logits),
            Some(sc) => {
                let scaled = tape.apply(Unary::DivScalar(Scalar::Given(sc)), &logits);
                let capped = tape.apply(Unary::Tanh, &scaled);
                Ok(tape.apply(Unary::MulScalar(Scalar::Given(sc)), &capped))
            },
        }
    }

    /// Runs the layers over embeddings, with the layers' own inputs, and takes the
    /// logits of the last token.
    pub fn forward_embeds_with_per_layer_inputs(
        &mut self,
        tape: &mut Tape,
        xs: &Tensor,
        token_inputs: Option<Tensor>,
        seqlen_offset: usize,
        batch_size: usize,
        seq_len: usize,
    ) -> (r: Result<Tensor, Refusal>)
        requires
            old(self).wf(),
            old(tape).wf(),
            old(self).on(*old(tape)),
            old(tape).holds(*xs),
            optional_on(token_inputs, *old(tape)),
            seq_len > 0,
            TextModel::masks_fit(seq_len, seqlen_offset),
        ensures
            final(self).wf(),
            final(self).on(*final(tape)),
            final(self).came_to(
                *old(self),
                *final(tape),
                *old(tape),
                r,
                old(self).outcome(
                    old(tape).dtype,
                    xs@,
                    term_of(token_inputs),
                    seqlen_offset,
                    batch_size,
                    seq_len,
                ),
            ),
    {
        let (attention_mask, sliding_attention_mask) = self.create_attention_masks(
            tape,
            batch_size,
            seq_len,
            seqlen_offset,
        );
        let ghost masked = *tape;
        let per_layer_inputs = match self.project_per_layer_inputs(tape, xs, token_inputs) {
            Ok(t) => t,
            Err(e) => {
                assert(tape.actions() =~= old(tape).actions() + Seq::<Term>::empty());
                return Err(e);
            },
        };
        let ghost model = *old(self);
        let ghost inputs = model.inputs(
            old(tape).dtype,
            xs@,
            term_of(per_layer_inputs),
            seqlen_offset,
            batch_size,
            seq_len,
        );
        let ghost start = *tape;
        let ghost masks = optional_parts(inputs.full_mask).union(
            optional_parts(inputs.sliding_mask),
        );
        proof {
            lemma_adds_join(
                *old(tape),
                masked,
                start,
                masks,
                optional_parts(inputs.per_layer),
            );
            lemma_adds_self(start, Set::empty());
        }
        let mut states: Tensor = *xs;
        let mut shared_sliding_kv: Option<SharedKv> = None;
        let mut shared_full_kv: Option<SharedKv> = None;
        let n: usize = self.layers.len();
        let mut layer_idx: usize = 0;
        assert(used_up_to(model.layers@, 0) =~= model.layers@);
        assert(start.actions() + Seq::<Term>::empty() =~= start.actions());
        while layer_idx < n
            invariant
                layer_idx <= n,
                n == model.layers@.len(),
                model.wf(),
                model.on(start),
                self.same_but_layers(model),
                self.layers@ == used_up_to(model.layers@, layer_idx as nat),
                tape.extends(start),
                tape.adds(start, model.computed(inputs, layer_idx as nat)),
                start.extends(*old(tape)),
                start.adds(*old(tape), masks.union(optional_parts(inputs.per_layer))),
                inputs.weights == start.dtype,
                inputs.per_layer == term_of(per_layer_inputs),
                inputs.full_mask == term_of(attention_mask),
                inputs.sliding_mask == term_of(sliding_attention_mask),
                inputs.offset == seqlen_offset,
                optional_on(per_layer_inputs, start),
                optional_on(attention_mask, start),
                optional_on(sliding_attention_mask, start),
                tape.holds(states),
                shared_on(shared_sliding_kv, *tape),
                shared_on(shared_full_kv, *tape),
                model.pass(inputs, layer_idx as nat) matches Ok(p) && {
                    &&& p.xs == states@
                    &&& p.sliding_kv == terms_of(shared_sliding_kv)
                    &&& p.full_kv == terms_of(shared_full_kv)
                    &&& tape.actions() == start.actions() + p.actions
                },
                model == *old(self),
                masks == optional_parts(inputs.full_mask).union(
                    optional_parts(inputs.sliding_mask),
                ),
                start.actions() == old(tape).actions(),
                model.per_layer_inputs(old(tape).dtype, xs@, term_of(token_inputs)) == Ok::<
                    Option<Term>,
                    Refusal,
                >(term_of(per_layer_inputs)),
                inputs == model.inputs(
                    old(tape).dtype,
                    xs@,
                    term_of(per_layer_inputs),
                    seqlen_offset,
                    batch_size,
                    seq_len,
                ),
            decreases n - layer_idx,
        {
            let ghost p = model.pass(inputs, layer_idx as nat)->Ok_0;
            let ghost before = *tape;
            let per_layer_input = match per_layer_inputs {
                Some(t) => {
                    let row = tape.apply(
                        Unary::Narrow { axis: 2, start: layer_idx, len: Dim::Fixed(1) },
                        &t,
                    );
                    Some(tape.apply(Unary::Squeeze(2), &row))
                },
                None => None,
            };
            let ghost ready = *tape;
            let ghost own = optional_parts(own_input(inputs.per_layer, layer_idx));
            assert(ready.adds(before, own)) by {
                broadcast use {group_adds, group_parts};

            }
            let is_sliding = self.layer_is_sliding[layer_idx];
            let shared_kv = if is_sliding {
                shared_sliding_kv
            } else {
                shared_full_kv
            };
            let mut layer = self.layers[layer_idx];
            let global = self.rotary_emb_global;
            let local = self.rotary_emb_local;
            let result = layer.forward(
                tape,
                &global,
                &local,
                &states,
                per_layer_input,
                shared_kv,
                attention_mask,
                sliding_attention_mask,
                seqlen_offset,
            );
            let (next, stored) = match result {
                Ok(pair) => pair,
                Err(e) => {
                    proof {
                        let done = model.computed(inputs, layer_idx as nat);
                        let tried = model.layers@[layer_idx as int].attempted(inputs.weights, p.xs);
                        assert(model.step(inputs, p, layer_idx as int) == Err::<Layered, Refusal>(e));
                        model.lemma_refused(inputs, layer_idx as nat, n as nat, e);
                        lemma_adds_join(start, before, ready, done, own);
                        lemma_adds_join(start, ready, *tape, done.union(own), tried);
                        model.lemma_computed_refused(inputs, (layer_idx + 1) as nat, n as nat);
                        lemma_adds_join(
                            *old(tape),
                            start,
                            *tape,
                            masks.union(optional_parts(inputs.per_layer)),
                            model.computed(inputs, n as nat),
                        );
                        let all = masks.union(optional_parts(inputs.per_layer)).union(
                            model.computed(inputs, n as nat),
                        );
                        lemma_within_union(all, Set::empty());
                        lemma_adds_within(*old(tape), *tape, all, all.union(Set::empty()));
                    }
                    return Err(e);
                },
            };
            self.layers.set(layer_idx, layer);
            let ghost done = model.computed(inputs, layer_idx as nat);
            let ghost l = model.step(inputs, p, layer_idx as int)->Ok_0;
            states = next;
            if let Some(kv) = stored {
                if is_sliding {
                    shared_sliding_kv = Some(kv);
                } else {
                    shared_full_kv = Some(kv);
                }
            }
            layer_idx = layer_idx + 1;
            proof {
                lemma_adds_join(start, before, ready, done, own);
                lemma_adds_join(start, ready, *tape, done.union(own), parts(l.out));
                assert(self.layers@ =~= used_up_to(model.layers@, layer_idx as nat));
                assert(model.pass(inputs, layer_idx as nat) == Ok::<Progress, Refusal>(
                    model.advance(p, l, layer_idx - 1),
                ));
                if let Some(t) = l.action {
                    assert(start.actions() + p.actions.push(t) =~= (start.actions()
                        + p.actions).push(t));
                }
            }
        }
        let ghost passed = *tape;
        let r = self.record_logits(tape, &states, seq_len);
        proof {
            let all = masks.union(optional_parts(inputs.per_layer)).union(
                model.computed(inputs, n as nat),
            );
            lemma_adds_join(
                *old(tape),
                start,
                passed,
                masks.union(optional_parts(inputs.per_layer)),
                model.computed(inputs, n as nat),
            );
            match model.logits(start.dtype, states@, seq_len) {
                Ok(t) => lemma_adds_join(*old(tape), passed, *tape, all, parts(t)),
                Err(_) => {
                    lemma_adds_self(passed, Set::empty());
                    lemma_adds_join(*old(tape), passed, *tape, all, Set::empty());
                },
            }
        }
        r
    }

    /// Whether token identifiers, where they lie in rows of equal length, are of
    /// known number, at least one in each row, and not too many to mask.
    pub open spec fn tokens_fit(input_ids: Term, seqlen_offset: usize) -> bool {
        input_ids.dims().len() == 2 ==> {
            &&& input_ids.dims()[0] is Fixed
            &&& input_ids.dims()[1] is Fixed
            &&& known(input_ids.dims()[1]) > 0
            &&& TextModel::masks_fit(known(input_ids.dims()[1]), seqlen_offset)
        }
    }

    /// Runs the decoder over tokens at the positions from `seqlen_offset` on and
    /// takes the logits of the last one.
    pub fn forward(&mut self, tape: &mut Tape, input_ids: &Tensor, seqlen_offset: usize) -> (r:
        Result<Tensor, Refusal>)
        requires
            old(self).wf(),
            old(tape).wf(),
            old(self).on(*old(tape)),
            old(tape).holds(*input_ids),
            TextModel::tokens_fit(input_ids@, seqlen_offset),
        ensures
            final(self).wf(),
            final(self).on(*final(tape)),
            final(self).came_to(
                *old(self),
                *final(tape),
                *old(tape),
                r,
                old(self).token_outcome(old(tape).dtype, input_ids@, seqlen_offset),
            ),
    {
        assert(old(tape).actions() + Seq::<Term>::empty() =~= old(tape).actions());
        let (batch_size, seq_len): (usize, usize) = match tape.dims2(input_ids) {
            Ok((Dim::Fixed(b), Dim::Fixed(s))) => (b, s),
            Ok(_) => (0, 0),
            Err(e) => {
                proof {
                    lemma_adds_self(*tape, Set::empty());
                }
                return Err(e);
            },
        };
        let xs = self.embed_tokens(tape, input_ids);
        let ghost embedded = *tape;
        let token_inputs = match self.token_per_layer_inputs(tape, input_ids) {
            Ok(t) => t,
            Err(e) => {
                return Err(e);
            },
        };
        let ghost ready = *tape;
        let r = self.forward_embeds_with_per_layer_inputs(
            tape,
            &xs,
            token_inputs,
            seqlen_offset,
            batch_size,
            seq_len,
        );
        proof {
            let own = optional_parts(term_of(token_inputs));
            lemma_adds_join(*old(tape), embedded, ready, parts(xs@), own);
            lemma_adds_join(
                *old(tape),
                ready,
                *tape,
                parts(xs@).union(own),
                old(self).outcome(
                    old(tape).dtype,
                    xs@,
                    term_of(token_inputs),
                    seqlen_offset,
                    batch_size,
                    seq_len,
                ).computed,
            );
        }
        r
    }

    /// Runs the decoder over embeddings. The tokens behind them are not known, so
    /// the layers' own inputs rest on the embeddings alone.
    ///
    /// Of the embeddings, the number of axes and of positions is looked at here. Where
    /// other extents or the element type are not those that the weights need, the
    /// first operation on the tape that finds this so fails when it is carried out.
    pub fn forward_embeds(
        &mut self,
        tape: &mut Tape,
        xs: &Tensor,
        seqlen_offset: usize,
        batch_size: usize,
        seq_len: usize,
    ) -> (r: Result<Tensor, Refusal>)
        requires
            old(self).wf(),
            old(tape).wf(),
            old(self).on(*old(tape)),
            old(tape).holds(*xs),
            seq_len > 0,
            TextModel::masks_fit(seq_len, seqlen_offset),
        ensures
            final(self).wf(),
            final(self).on(*final(tape)),
            final(self).came_to(
                *old(self),
                *final(tape),
                *old(tape),
                r,
                old(self).outcome(old(tape).dtype, xs@, None, seqlen_offset, batch_size, seq_len),
            ),
    {
        self.forward_embeds_with_per_layer_inputs(
            tape,
            xs,
            None,
            seqlen_offset,
            batch_size,
            seq_len,
        )
    }

    /// Forgets the keys and values of all earlier positions, in every layer.
    pub fn clear_kv_cache(&mut self)
        requires
            old(self).wf(),
        ensures
            final(self).wf(),
            final(self).same_but_layers(*old(self)),
            final(self).layers@ == cleared_layers(old(self).layers@),
    {
        let n: usize = self.layers.len();
        let ghost model = *old(self);
        let mut i: usize = 0;
        while i < n
            invariant
                i <= n,
                n == model.layers@.len(),
                self.layers@.len() == n,
                self.same_but_layers(model),
                forall|j: int|
                    0 <= j < n ==> #[trigger] self.layers@[j] == if j < i {
                        model.layers@[j].cleared()
                    } else {
                        model.layers@[j]
                    },
            decreases n - i,
        {
            let mut layer = self.layers[i];
            layer.clear_kv_cache();
            self.layers.set(i, layer);
            i = i + 1;
        }
        assert(self.layers@ =~= cleared_layers(model.layers@));
    }

    /// Behind a refusal nothing more is computed.
    proof fn lemma_computed_refused(self, inputs: Inputs, m: nat, n: nat)
        requires
            m <= n,
            self.pass(inputs, m) is Err,
        ensures
            self.computed(inputs, n) == self.computed(inputs, m),
            self.pass(inputs, n) is Err,
        decreases n,
    {
        if m < n {
            self.lemma_computed_refused(inputs, m, (n - 1) as nat);
        }
    }

    /// A pass that is refused at layer `i` has come so far and no further.
    pub proof fn lemma_refused(self, inputs: Inputs, i: nat, n: nat, e: Refusal)
        requires
            i < n,
            self.pass(inputs, i) is Ok,
            self.pass(inputs, i + 1) == Err::<Progress, Refusal>(e),
        ensures
            self.pass(inputs, n) == Err::<Progress, Refusal>(e),
            self.reached(inputs, n) == i,
        decreases n,
    {
        if n > i + 1 {
            self.lemma_refused(inputs, i, (n - 1) as nat, e);
        } else {
            assert(self.reached(inputs, i) == i);
        }
    }
}

} // verus!
