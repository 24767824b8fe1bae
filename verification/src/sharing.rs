//! How layers share keys and values in a pass.

use crate::attention::{lemma_attention_dims, Attention, Tables};
use crate::config::Gemma4TextConfig;
use crate::layer::DecoderLayer;
use crate::model::{cleared_layers, layers_of, TextModel};
use crate::norm::{lemma_rms_norm_dims, rms_norm};
use crate::pass::{own_input, used_up_to, Inputs, Progress};
use crate::refusal::Refusal;
use crate::rotary::{global_angles, local_angles, past_tables};
use crate::term::{broadcast_dims, dim_from_last, Binary, DType, Dim, Term, Unary};
use vstd::prelude::*;

verus! {

impl Progress {
    /// The keys and values last stored under one of the two kinds of attention.
    pub open spec fn kv(self, sliding: bool) -> Option<(Term, Term)> {
        if sliding {
            self.sliding_kv
        } else {
            self.full_kv
        }
    }
}

impl DecoderLayer {
    /// Whether the layer stores keys and values for later layers.
    pub open spec fn stores(self) -> bool {
        !self.self_attn.is_kv_shared_layer && self.self_attn.store_full_length_kv
    }
}

impl TextModel {
    /// The last of the first `n` layers that stores keys and values under one of
    /// the two kinds of attention.
    pub open spec fn last_store(self, n: nat, sliding: bool) -> Option<int>
        decreases n,
    {
        if n == 0 {
            None
        } else if self.layers@[n - 1].stores() && self.layer_is_sliding@[n - 1] == sliding {
            Some(n - 1)
        } else {
            self.last_store((n - 1) as nat, sliding)
        }
    }
}

impl TextModel {
    /// Why there are no angles for the positions of a pass in layer `i`, where there
    /// are none.
    pub open spec fn past_angles(self, inputs: Inputs, i: int) -> Option<Refusal> {
        let t = self.layers@[i].self_attn.tables(self.rotary_emb_global, self.rotary_emb_local);
        past_tables(t.sin, t.cos, inputs.offset, inputs.xs.dims()[1])
    }
}

impl Gemma4TextConfig {
    /// Whether layers have the same type of attention just where both or neither
    /// are sliding.
    pub open spec fn types_agree(self) -> bool {
        &&& self.num_hidden_layers <= self.layer_types@.len()
        &&& self.num_hidden_layers <= self.sliding@.len()
        &&& forall|i: int, j: int|
            0 <= i < self.num_hidden_layers && 0 <= j < self.num_hidden_layers ==> (
            #[trigger] self.same_type(i, j) == (self.sliding@[i] == self.sliding@[j]))
    }

    /// Whether some layer of the type of layer `i` computes its own keys and values.
    pub open spec fn has_source(self, i: int) -> bool {
        exists|s: int|
            0 <= s < self.num_hidden_layers && !self.shares_kv(s) && #[trigger] self.same_type(s, i)
    }
}

/// A run of a layer over a row of vectors per batch is refused just where it shares
/// keys and values and is handed none, or where there are no angles for its positions;
/// its output is as many vectors again.
pub proof fn lemma_run(
    layer: DecoderLayer,
    weights: DType,
    t: Tables,
    xs: Term,
    per_layer_input: Option<Term>,
    shared: Option<(Term, Term)>,
    mask: Option<Term>,
    offset: usize,
)
    requires
        xs.dims().len() == 3,
    ensures
        match layer.run(weights, t, xs, per_layer_input, shared, mask, offset) {
            Ok(l) => {
                &&& !(layer.self_attn.is_kv_shared_layer && shared is None)
                &&& past_tables(t.sin, t.cos, offset, xs.dims()[1]) is None
                &&& l.out.dims().len() == 3
                &&& l.out.dims()[1] == xs.dims()[1]
                &&& (l.stored is Some) == layer.stores()
                &&& (l.action is Some) == !layer.self_attn.is_kv_shared_layer
                &&& l.action matches Some(a) ==> (a matches Term::Append { layer: i, fresh, .. } && i
                    == layer.self_attn.layer_idx && fresh == layer.self_attn.kv_cache.empty)
            },
            Err(e) => if layer.self_attn.is_kv_shared_layer && shared is None {
                e == Refusal::SharedKv
            } else {
                past_tables(t.sin, t.cos, offset, xs.dims()[1]) == Some(e)
            },
        },
{
    reveal(DecoderLayer::run);
    lemma_rms_norm_dims(layer.input_layernorm, weights, xs);
    let normed = rms_norm(layer.input_layernorm, weights, xs);
    lemma_attention_dims(layer.self_attn, weights, t, normed, shared, mask, offset);
    let attended = layer.self_attn.attention(weights, t, normed, shared, mask, offset);
    assert(match attended {
        Ok(a) => {
            &&& !(layer.self_attn.is_kv_shared_layer && shared is None)
            &&& past_tables(t.sin, t.cos, offset, xs.dims()[1]) is None
            &&& (a.stored is Some) == layer.stores()
            &&& (a.action is Some) == !layer.self_attn.is_kv_shared_layer
            &&& a.action matches Some(x) ==> (x matches Term::Append { layer: i, fresh, .. } && i
                == layer.self_attn.layer_idx && fresh == layer.self_attn.kv_cache.empty)
        },
        Err(e) => if layer.self_attn.is_kv_shared_layer && shared is None {
            e == Refusal::SharedKv
        } else {
            past_tables(t.sin, t.cos, offset, xs.dims()[1]) == Some(e)
        },
    }) by {
        reveal(Attention::attention);
    }
    if let Ok(a) = attended {
        lemma_behind_rank(layer, weights, xs, a.out, per_layer_input);
    }
}

/// What comes behind attention has as many vectors as what attention yields.
proof fn lemma_behind_rank(
    layer: DecoderLayer,
    weights: DType,
    xs: Term,
    attended: Term,
    per_layer_input: Option<Term>,
)
    requires
        attended.dims().len() == 3,
    ensures
        layer.behind(weights, xs, attended, per_layer_input).dims().len() == 3,
        layer.behind(weights, xs, attended, per_layer_input).dims()[1] == attended.dims()[1],
{
    let normed = rms_norm(layer.post_attention_layernorm, weights, attended);
    lemma_rms_norm_dims(layer.post_attention_layernorm, weights, attended);
    let a = layer.after_attention(weights, xs, attended);
    assert(a.dims() == normed.dims());
    let m = layer.after_mlp(weights, a);
    assert(m.dims() == a.dims());
    let p = layer.after_per_layer_input(weights, m, per_layer_input);
    assert(p.dims() == m.dims());
    let scalar = Term::Param(layer.layer_scalar, weights);
    assert(scalar.dims().len() == 1);
    let out = p.combine(Binary::BroadcastMul, scalar);
    assert(out.dims() == broadcast_dims(p.dims(), scalar.dims()));
    assert(dim_from_last(scalar.dims(), 1) == Dim::Fixed(1));
    assert(dim_from_last(p.dims(), 1) == p.dims()[1]);
}

/// Between layers the hidden states are as many vectors as at first.
pub proof fn lemma_pass_rank(model: TextModel, inputs: Inputs, n: nat)
    requires
        inputs.xs.dims().len() == 3,
        n <= model.layers@.len(),
    ensures
        model.pass(inputs, n) matches Ok(p) ==> p.xs.dims().len() == 3 && p.xs.dims()[1]
            == inputs.xs.dims()[1],
    decreases n,
{
    if n > 0 {
        lemma_pass_rank(model, inputs, (n - 1) as nat);
        if let Ok(p) = model.pass(inputs, (n - 1) as nat) {
            lemma_step(model, inputs, p, n - 1);
        }
    }
}

/// A step of a pass is a run of its layer.
pub proof fn lemma_step(model: TextModel, inputs: Inputs, p: Progress, i: int)
    requires
        p.xs.dims().len() == 3,
        p.xs.dims()[1] == inputs.xs.dims()[1],
        0 <= i < model.layers@.len(),
    ensures
        match model.step(inputs, p, i) {
            Ok(l) => {
                let layer = model.layers@[i];
                &&& !(layer.self_attn.is_kv_shared_layer && p.kv(
                    model.layer_is_sliding@[i],
                ) is None)
                &&& model.past_angles(inputs, i) is None
                &&& l.out.dims().len() == 3
                &&& l.out.dims()[1] == p.xs.dims()[1]
                &&& (l.stored is Some) == layer.stores()
                &&& (l.action is Some) == !layer.self_attn.is_kv_shared_layer
                &&& l.action matches Some(a) ==> (a matches Term::Append { layer: j, fresh, .. } && j
                    == layer.self_attn.layer_idx && fresh == layer.self_attn.kv_cache.empty)
            },
            Err(e) => if model.layers@[i].self_attn.is_kv_shared_layer && p.kv(
                model.layer_is_sliding@[i],
            ) is None {
                e == Refusal::SharedKv
            } else {
                model.past_angles(inputs, i) == Some(e)
            },
        },
{
    let layer = model.layers@[i];
    lemma_run(
        layer,
        inputs.weights,
        layer.self_attn.tables(model.rotary_emb_global, model.rotary_emb_local),
        p.xs,
        own_input(inputs.per_layer, i as usize),
        p.kv(model.layer_is_sliding@[i]),
        if layer.self_attn.is_sliding {
            inputs.sliding_mask
        } else {
            inputs.full_mask
        },
        inputs.offset,
    );
}

/// A pass that comes through `n` layers comes through the first `m` of them.
pub proof fn lemma_pass_prefix(model: TextModel, inputs: Inputs, m: nat, n: nat)
    requires
        m <= n,
        model.pass(inputs, n) is Ok,
    ensures
        model.pass(inputs, m) is Ok,
    decreases n,
{
    if m < n {
        lemma_pass_prefix(model, inputs, m, (n - 1) as nat);
    }
}

/// At every point of a pass, the keys and values at hand under a kind of attention
/// are those of the last layer of that kind that stored its own.
pub proof fn law_last_stored_kv_is_at_hand(
    model: TextModel,
    inputs: Inputs,
    n: nat,
    sliding: bool,
)
    requires
        inputs.xs.dims().len() == 3,
        n <= model.layers@.len(),
        model.pass(inputs, n) is Ok,
    ensures
        ({
            let at_hand = model.pass(inputs, n)->Ok_0.kv(sliding);
            match model.last_store(n, sliding) {
                None => at_hand is None,
                Some(s) => {
                    &&& 0 <= s < n
                    &&& at_hand is Some
                    &&& at_hand == model.step(
                        inputs,
                        model.pass(inputs, s as nat)->Ok_0,
                        s,
                    )->Ok_0.stored
                },
            }
        }),
    decreases n,
{
    if n > 0 {
        let m = (n - 1) as nat;
        law_last_stored_kv_is_at_hand(model, inputs, m, sliding);
        lemma_pass_rank(model, inputs, m);
        lemma_step(model, inputs, model.pass(inputs, m)->Ok_0, m as int);
    }
}

/// In a pass over rows of vectors, the next layer is refused just where it shares
/// keys and values and no layer of its kind before it has stored any, or where there
/// are no angles for the positions of the pass.
pub proof fn law_refused_without_source(model: TextModel, inputs: Inputs, n: nat)
    requires
        inputs.xs.dims().len() == 3,
        n < model.layers@.len(),
        model.pass(inputs, n) is Ok,
    ensures
        ({
            let refused = model.layers@[n as int].self_attn.is_kv_shared_layer && model.last_store(
                n,
                model.layer_is_sliding@[n as int],
            ) is None;
            &&& refused ==> model.pass(inputs, n + 1) == Err::<Progress, Refusal>(Refusal::SharedKv)
            &&& !refused ==> match model.past_angles(inputs, n as int) {
                Some(e) => model.pass(inputs, n + 1) == Err::<Progress, Refusal>(e),
                None => model.pass(inputs, n + 1) is Ok,
            }
        }),
{
    law_last_stored_kv_is_at_hand(model, inputs, n, model.layer_is_sliding@[n as int]);
    lemma_pass_rank(model, inputs, n);
    lemma_step(model, inputs, model.pass(inputs, n)->Ok_0, n as int);
}

/// Of each type of attention at most one layer stores keys and values.
pub proof fn law_one_store_per_type(cfg: Gemma4TextConfig, i: int, j: int)
    requires
        cfg.stores_kv(i),
        cfg.stores_kv(j),
        cfg.same_type(i, j),
    ensures
        i == j,
{
    if i < j {
        assert(cfg.same_type(i, j));
    }
    if j < i {
        assert(cfg.same_type(j, i));
    }
}

/// A layer of a configuration's decoder is the configuration's layer but for its cache.
pub proof fn lemma_layer_of(model: TextModel, cfg: Gemma4TextConfig, dtype: DType, i: int)
    requires
        model.belongs_to(cfg, dtype),
        0 <= i < cfg.num_hidden_layers,
    ensures
        model.layers@.len() == cfg.num_hidden_layers,
        model.layers@[i].cleared() == layers_of(cfg)[i],
        model.layers@[i].self_attn.is_kv_shared_layer == cfg.shares_kv(i),
        model.layers@[i].stores() == cfg.stores_kv(i),
        model.layers@[i].self_attn.layer_idx == i,
{
    assert(cleared_layers(model.layers@).len() == model.layers@.len());
    assert(layers_of(cfg).len() == cfg.num_hidden_layers);
    assert(cleared_layers(model.layers@)[i] == model.layers@[i].cleared());
}

/// Where a type of attention has a layer with keys and values of its own, the last
/// such layer stores them.
proof fn lemma_store_exists(cfg: Gemma4TextConfig, s: int, end: int) -> (r: int)
    requires
        0 <= s < end <= cfg.first_kv_shared_layer(),
        !cfg.shares_kv(s),
        forall|j: int| end <= j < cfg.first_kv_shared_layer() ==> !cfg.same_type(s, j),
    ensures
        s <= r < end,
        cfg.stores_kv(r),
        cfg.same_type(s, r),
    decreases end - s,
{
    let last = end - 1;
    if cfg.same_type(s, last) {
        assert forall|j: int| last < j < cfg.first_kv_shared_layer() implies !cfg.same_type(
            last,
            j,
        ) by {
            assert(!cfg.same_type(s, j));
        }
        last
    } else {
        lemma_store_exists(cfg, s, end - 1)
    }
}

/// The layer that a shared layer takes its keys and values from: the one of its
/// type that stores them.
pub proof fn law_shared_layer_has_one_source(cfg: Gemma4TextConfig, i: int) -> (s: int)
    requires
        0 <= i < cfg.num_hidden_layers,
        cfg.shares_kv(i),
        cfg.has_source(i),
    ensures
        0 <= s < cfg.first_kv_shared_layer() <= i,
        cfg.stores_kv(s),
        cfg.same_type(s, i),
        forall|j: int| cfg.stores_kv(j) && cfg.same_type(j, i) ==> j == s,
{
    let own = choose|s: int|
        0 <= s < cfg.num_hidden_layers && !cfg.shares_kv(s) && #[trigger] cfg.same_type(s, i);
    let s = lemma_store_exists(cfg, own, cfg.first_kv_shared_layer());
    assert forall|j: int| cfg.stores_kv(j) && cfg.same_type(j, i) implies j == s by {
        law_one_store_per_type(cfg, j, s);
    }
    s
}

/// Among the layers before `n`, the last store of a kind is its only storing layer.
proof fn lemma_last_store(
    model: TextModel,
    cfg: Gemma4TextConfig,
    dtype: DType,
    s: int,
    n: nat,
)
    requires
        model.belongs_to(cfg, dtype),
        cfg.types_agree(),
        0 <= s < n <= cfg.num_hidden_layers,
        cfg.stores_kv(s),
    ensures
        model.last_store(n, cfg.sliding@[s]) == Some(s),
    decreases n,
{
    let last = n - 1;
    lemma_layer_of(model, cfg, dtype, last);
    assert(model.layer_is_sliding@[last] == cfg.sliding@[last]);
    if last == s {
        lemma_layer_of(model, cfg, dtype, s);
    } else {
        lemma_last_store(model, cfg, dtype, s, last as nat);
        if cfg.stores_kv(last) && cfg.sliding@[last] == cfg.sliding@[s] {
            assert(cfg.same_type(s, last));
            law_one_store_per_type(cfg, s, last);
        }
    }
}

/// A layer that shares keys and values attends to those that the last layer of its
/// type with keys and values of its own has put into its cache in the same pass.
pub proof fn law_shared_layer_reads_its_source(
    model: TextModel,
    cfg: Gemma4TextConfig,
    dtype: DType,
    inputs: Inputs,
    s: int,
    i: int,
)
    requires
        model.belongs_to(cfg, dtype),
        cfg.types_agree(),
        inputs.xs.dims().len() == 3,
        0 <= s < i < cfg.num_hidden_layers,
        cfg.shares_kv(i),
        cfg.stores_kv(s),
        cfg.same_type(s, i),
        model.pass(inputs, i as nat) is Ok,
    ensures
        ({
            let source = model.step(inputs, model.pass(inputs, s as nat)->Ok_0, s)->Ok_0;
            let at_hand = model.pass(inputs, i as nat)->Ok_0.kv(cfg.sliding@[i]);
            &&& source.action is Some
            &&& at_hand == Some(
                (
                    Term::CachedKeys(Box::new(source.action->0)),
                    Term::CachedValues(Box::new(source.action->0)),
                ),
            )
        }),
{
    lemma_layer_of(model, cfg, dtype, s);
    lemma_last_store(model, cfg, dtype, s, i as nat);
    assert(cfg.sliding@[s] == cfg.sliding@[i]);
    law_last_stored_kv_is_at_hand(model, inputs, i as nat, cfg.sliding@[i]);
    lemma_pass_prefix(model, inputs, s as nat, i as nat);
    lemma_pass_rank(model, inputs, s as nat);
    let p = model.pass(inputs, s as nat)->Ok_0;
    lemma_pass_prefix(model, inputs, (s + 1) as nat, i as nat);
    lemma_step(model, inputs, p, s);
    reveal(DecoderLayer::run);
    reveal(Attention::attention);
}

/// Where every shared layer's type has a layer with keys and values of its own, a
/// pass over rows of vectors at positions with angles comes through all layers.
pub proof fn law_pass_comes_through(
    model: TextModel,
    cfg: Gemma4TextConfig,
    dtype: DType,
    inputs: Inputs,
    n: nat,
)
    requires
        model.belongs_to(cfg, dtype),
        cfg.types_agree(),
        inputs.xs.dims().len() == 3,
        n <= cfg.num_hidden_layers,
        forall|i: int|
            0 <= i < cfg.num_hidden_layers && #[trigger] cfg.shares_kv(i) ==> cfg.has_source(i),
        forall|i: int| 0 <= i < n ==> #[trigger] model.past_angles(inputs, i) is None,
    ensures
        model.pass(inputs, n) is Ok,
    decreases n,
{
    if n > 0 {
        let i = n - 1;
        law_pass_comes_through(model, cfg, dtype, inputs, i as nat);
        lemma_layer_of(model, cfg, dtype, i);
        law_refused_without_source(model, inputs, i as nat);
        assert(model.past_angles(inputs, i) is None);
        if cfg.shares_kv(i) {
            let s = law_shared_layer_has_one_source(cfg, i);
            lemma_last_store(model, cfg, dtype, s, i as nat);
            assert(cfg.same_type(s, i));
            assert(cfg.sliding@[s] == cfg.sliding@[i]);
            assert(model.layer_is_sliding@[i] == cfg.sliding@[i]);
        }
    }
}

/// There are angles for as many positions as a configuration says, and no more.
pub proof fn lemma_past_angles(
    model: TextModel,
    cfg: Gemma4TextConfig,
    dtype: DType,
    inputs: Inputs,
    seq_len: usize,
    i: int,
)
    requires
        model.belongs_to(cfg, dtype),
        inputs.xs.dims().len() == 3,
        inputs.xs.dims()[1] == Dim::Fixed(seq_len),
        0 <= i < cfg.num_hidden_layers,
    ensures
        model.past_angles(inputs, i) == if inputs.offset + seq_len > cfg.max_position_embeddings {
            Some(
                Refusal::Range {
                    start: inputs.offset,
                    len: seq_len,
                    size: cfg.max_position_embeddings,
                },
            )
        } else {
            None
        },
{
    let rows = Dim::Fixed(cfg.max_position_embeddings);
    let local = local_angles(
        dtype,
        cfg.head_dim,
        cfg.rope_local_base_freq,
        cfg.max_position_embeddings,
    );
    let global = global_angles(
        cfg.global_head_dim,
        cfg.rope_theta,
        cfg.rope_angles,
        cfg.max_position_embeddings,
    );
    reveal_with_fuel(Term::dims, 2);
    assert(local.dims().len() == 2 && local.dims()[0] == rows);
    assert(global.dims().len() == 2 && global.dims()[0] == rows);
    assert(local.apply(Unary::Sin).dims() == local.dims());
    assert(local.apply(Unary::Cos).dims() == local.dims());
    let sin = global.apply(Unary::Sin);
    let cos = global.apply(Unary::Cos);
    assert(sin.dims() == global.dims() && cos.dims() == global.dims());
    assert(sin.apply(Unary::Cast(dtype)).dims() == global.dims());
    assert(cos.apply(Unary::Cast(dtype)).dims() == global.dims());
}

/// A pass that reaches beyond the positions for which there are angles is refused, and
/// nothing is appended to any cache.
pub proof fn law_no_pass_beyond_the_angles(
    model: TextModel,
    cfg: Gemma4TextConfig,
    dtype: DType,
    xs: Term,
    token_inputs: Option<Term>,
    offset: usize,
    batch_size: usize,
    seq_len: usize,
)
    requires
        model.belongs_to(cfg, dtype),
        0 < cfg.num_hidden_layers,
        xs.dims().len() == 3,
        xs.dims()[1] == Dim::Fixed(seq_len),
        offset + seq_len > cfg.max_position_embeddings,
    ensures
        ({
            let outcome = model.outcome(dtype, xs, token_inputs, offset, batch_size, seq_len);
            &&& outcome.result == Err::<Term, Refusal>(
                if cfg.shares_kv(0) {
                    Refusal::SharedKv
                } else {
                    Refusal::Range { start: offset, len: seq_len, size: cfg.max_position_embeddings }
                },
            )
            &&& outcome.actions == Seq::<Term>::empty()
            &&& outcome.layers == model.layers@
        }),
{
    let per_layer = model.per_layer_inputs(dtype, xs, token_inputs)->Ok_0;
    let inputs = model.inputs(dtype, xs, per_layer, offset, batch_size, seq_len);
    lemma_layer_of(model, cfg, dtype, 0);
    lemma_past_angles(model, cfg, dtype, inputs, seq_len, 0);
    law_refused_without_source(model, inputs, 0);
    let e = model.pass(inputs, 1)->Err_0;
    model.lemma_refused(inputs, 0, model.layers@.len(), e);
    assert(used_up_to(model.layers@, 0) =~= model.layers@);
}

} // verus!
