//! What passes leave in the caches of the layers.

use crate::attention::{Attention, KvCache};
use crate::config::Gemma4TextConfig;
use crate::layer::DecoderLayer;
use crate::model::{cleared_layers, TextModel};
use crate::parts::parts;
use crate::pass::{used_up_to, Inputs};
use crate::rotary::known;
use crate::sharing::{lemma_layer_of, lemma_pass_prefix, lemma_pass_rank, lemma_step};
use crate::term::{DType, Term};
use vstd::prelude::*;

verus! {

/// The keys and values appended to the cache of a layer since it was last fresh.
pub open spec fn contents(actions: Seq<Term>, i: usize) -> Seq<(Term, Term)>
    decreases actions.len(),
{
    if actions.len() == 0 {
        Seq::empty()
    } else {
        let before = contents(actions.drop_last(), i);
        match actions.last() {
            Term::Append { layer, fresh, k, v } => if layer != i {
                before
            } else if fresh {
                seq![(*k, *v)]
            } else {
                before.push((*k, *v))
            },
            _ => before,
        }
    }
}

/// What one more append does to the contents of a cache.
pub open spec fn appended(before: Seq<(Term, Term)>, action: Term) -> Seq<(Term, Term)> {
    match action {
        Term::Append { fresh, k, v, .. } => if fresh {
            seq![(*k, *v)]
        } else {
            before.push((*k, *v))
        },
        _ => before,
    }
}

/// The layer of an append.
pub open spec fn append_layer(action: Term) -> usize {
    match action {
        Term::Append { layer, .. } => layer,
        _ => 0,
    }
}

/// The indices of those of the first `n` layers that compute their own keys and values.
pub open spec fn own_layers(layers: Seq<DecoderLayer>, n: nat) -> Seq<usize>
    decreases n,
{
    if n == 0 {
        Seq::empty()
    } else if layers[n - 1].self_attn.is_kv_shared_layer {
        own_layers(layers, (n - 1) as nat)
    } else {
        own_layers(layers, (n - 1) as nat).push(layers[n - 1].self_attn.layer_idx)
    }
}

/// In a pass, each layer with keys and values of its own appends to its cache once,
/// layer by layer, and no other layer does.
pub proof fn law_appends_follow_the_layers(model: TextModel, inputs: Inputs, n: nat)
    requires
        inputs.xs.dims().len() == 3,
        n <= model.layers@.len(),
        model.pass(inputs, n) is Ok,
    ensures
        model.pass(inputs, n)->Ok_0.actions.map_values(|t: Term| append_layer(t)) == own_layers(
            model.layers@,
            n,
        ),
    decreases n,
{
    let p = model.pass(inputs, n)->Ok_0;
    if n == 0 {
        assert(p.actions.map_values(|t: Term| append_layer(t)) =~= Seq::<usize>::empty());
    } else {
        let m = (n - 1) as nat;
        law_appends_follow_the_layers(model, inputs, m);
        lemma_pass_rank(model, inputs, m);
        let q = model.pass(inputs, m)->Ok_0;
        lemma_step(model, inputs, q, m as int);
        let l = model.step(inputs, q, m as int)->Ok_0;
        if let Some(t) = l.action {
            assert(q.actions.push(t).map_values(|t: Term| append_layer(t))
                =~= q.actions.map_values(|t: Term| append_layer(t)).push(append_layer(t)));
        }
    }
}

/// A pass puts into the cache of each layer with keys and values of its own those
/// of the positions at hand, behind what was there, or in its place where the cache
/// is fresh; it leaves every other cache as it is.
pub proof fn law_pass_fills_caches(
    model: TextModel,
    cfg: Gemma4TextConfig,
    dtype: DType,
    inputs: Inputs,
    before: Seq<Term>,
    n: nat,
    i: usize,
)
    requires
        model.belongs_to(cfg, dtype),
        inputs.xs.dims().len() == 3,
        n <= cfg.num_hidden_layers,
        model.pass(inputs, n) is Ok,
    ensures
        contents(before + model.pass(inputs, n)->Ok_0.actions, i) == if i < n && !cfg.shares_kv(
            i as int,
        ) {
            appended(
                contents(before, i),
                model.step(inputs, model.pass(inputs, i as nat)->Ok_0, i as int)->Ok_0.action->0,
            )
        } else {
            contents(before, i)
        },
    decreases n,
{
    let p = model.pass(inputs, n)->Ok_0;
    if n == 0 {
        assert(before + p.actions =~= before);
    } else {
        let m = (n - 1) as nat;
        law_pass_fills_caches(model, cfg, dtype, inputs, before, m, i);
        lemma_layer_of(model, cfg, dtype, m as int);
        lemma_pass_rank(model, inputs, m);
        let q = model.pass(inputs, m)->Ok_0;
        lemma_step(model, inputs, q, m as int);
        let l = model.step(inputs, q, m as int)->Ok_0;
        if let Some(t) = l.action {
            assert((before + q.actions.push(t)).drop_last() =~= before + q.actions);
            assert((before + q.actions.push(t)).last() == t);
        }
    }
}

/// A cache that is fresh holds nothing but what the next pass puts there.
pub proof fn law_fresh_cache_starts_over(
    model: TextModel,
    cfg: Gemma4TextConfig,
    dtype: DType,
    inputs: Inputs,
    before: Seq<Term>,
    n: nat,
    i: usize,
)
    requires
        model.belongs_to(cfg, dtype),
        inputs.xs.dims().len() == 3,
        i < n <= cfg.num_hidden_layers,
        !cfg.shares_kv(i as int),
        model.layers@[i as int].self_attn.kv_cache.empty,
        model.pass(inputs, n) is Ok,
    ensures
        model.step(
            inputs,
            model.pass(inputs, i as nat)->Ok_0,
            i as int,
        )->Ok_0.action matches Some(Term::Append { k, v, .. }) && contents(
            before + model.pass(inputs, n)->Ok_0.actions,
            i,
        ) == seq![(*k, *v)],
{
    law_pass_fills_caches(model, cfg, dtype, inputs, before, n, i);
    lemma_pass_prefix(model, inputs, i as nat, n);
    lemma_pass_prefix(model, inputs, (i + 1) as nat, n);
    lemma_layer_of(model, cfg, dtype, i as int);
    lemma_pass_rank(model, inputs, i as nat);
    lemma_step(model, inputs, model.pass(inputs, i as nat)->Ok_0, i as int);
}

/// Clearing makes every cache fresh and is the same done twice.
pub proof fn law_clearing_empties_caches(layers: Seq<DecoderLayer>)
    ensures
        forall|i: int|
            0 <= i < layers.len() ==> (#[trigger] cleared_layers(
                layers,
            )[i]).self_attn.kv_cache.empty,
        cleared_layers(cleared_layers(layers)) == cleared_layers(layers),
{
    assert(cleared_layers(cleared_layers(layers)) =~= cleared_layers(layers));
}

/// Clearing makes the cache of a layer fresh and changes nothing else about it.
pub proof fn law_clearing_changes_caches_alone(layers: Seq<DecoderLayer>, i: int)
    requires
        0 <= i < layers.len(),
    ensures
        cleared_layers(layers).len() == layers.len(),
        cleared_layers(layers)[i] == (DecoderLayer {
            self_attn: Attention {
                kv_cache: KvCache { empty: true, ..layers[i].self_attn.kv_cache },
                ..layers[i].self_attn
            },
            ..layers[i]
        }),
{
}

/// Clearing undoes what passes do to the layers.
pub proof fn law_clearing_undoes_passes(layers: Seq<DecoderLayer>, n: nat)
    ensures
        cleared_layers(used_up_to(layers, n)) == cleared_layers(layers),
{
    assert(cleared_layers(used_up_to(layers, n)) =~= cleared_layers(layers));
}

/// Whatever a pass comes to, the model is still the decoder of its configuration.
pub proof fn law_pass_keeps_the_layout(
    before: TextModel,
    after: TextModel,
    cfg: Gemma4TextConfig,
    dtype: DType,
    n: nat,
)
    requires
        before.belongs_to(cfg, dtype),
        after.same_but_layers(before),
        after.layers@ == used_up_to(before.layers@, n),
    ensures
        after.belongs_to(cfg, dtype),
{
    law_clearing_undoes_passes(before.layers@, n);
}

/// Clearing brings the decoder of a configuration back to how it was laid out.
pub proof fn law_clearing_restores_the_layout(
    before: TextModel,
    after: TextModel,
    cfg: Gemma4TextConfig,
    dtype: DType,
)
    requires
        before.belongs_to(cfg, dtype),
        after.same_but_layers(before),
        after.layers@ == cleared_layers(before.layers@),
    ensures
        after.laid_out(cfg, dtype),
{
    law_clearing_empties_caches(before.layers@);
}

/// Two decoders laid out for one configuration pass through their layers alike.
proof fn lemma_same_pass(
    a: TextModel,
    b: TextModel,
    cfg: Gemma4TextConfig,
    dtype: DType,
    inputs: Inputs,
    n: nat,
)
    requires
        a.laid_out(cfg, dtype),
        b.laid_out(cfg, dtype),
        n <= cfg.num_hidden_layers,
    ensures
        a.pass(inputs, n) == b.pass(inputs, n),
    decreases n,
{
    if n > 0 {
        lemma_same_pass(a, b, cfg, dtype, inputs, (n - 1) as nat);
    }
}

proof fn lemma_same_reach(
    a: TextModel,
    b: TextModel,
    cfg: Gemma4TextConfig,
    dtype: DType,
    inputs: Inputs,
    n: nat,
)
    requires
        a.laid_out(cfg, dtype),
        b.laid_out(cfg, dtype),
        n <= cfg.num_hidden_layers,
    ensures
        a.reached(inputs, n) == b.reached(inputs, n),
        a.reached(inputs, n) <= n,
    decreases n,
{
    lemma_same_pass(a, b, cfg, dtype, inputs, n);
    if n > 0 {
        lemma_same_reach(a, b, cfg, dtype, inputs, (n - 1) as nat);
    }
}

/// Two decoders laid out for one configuration compute the same in their layers.
proof fn lemma_same_computed(
    a: TextModel,
    b: TextModel,
    cfg: Gemma4TextConfig,
    dtype: DType,
    inputs: Inputs,
    n: nat,
)
    requires
        a.laid_out(cfg, dtype),
        b.laid_out(cfg, dtype),
        n <= cfg.num_hidden_layers,
    ensures
        a.computed(inputs, n) == b.computed(inputs, n),
    decreases n,
{
    if n > 0 {
        lemma_same_pass(a, b, cfg, dtype, inputs, (n - 1) as nat);
        lemma_same_computed(a, b, cfg, dtype, inputs, (n - 1) as nat);
    }
}

/// A decoder whose caches were cleared runs like one that was just laid out.
pub proof fn law_cleared_model_runs_like_new(
    cleared: TextModel,
    new: TextModel,
    cfg: Gemma4TextConfig,
    dtype: DType,
    xs: Term,
    token_inputs: Option<Term>,
    offset: usize,
    batch_size: usize,
    seq_len: usize,
)
    requires
        cleared.laid_out(cfg, dtype),
        new.laid_out(cfg, dtype),
    ensures
        cleared.outcome(dtype, xs, token_inputs, offset, batch_size, seq_len) == new.outcome(
            dtype,
            xs,
            token_inputs,
            offset,
            batch_size,
            seq_len,
        ),
{
    let n = cfg.num_hidden_layers as nat;
    assert(cleared.layers@.len() == n);
    if let Ok(per_layer) = cleared.per_layer_inputs(dtype, xs, token_inputs) {
        let inputs = cleared.inputs(dtype, xs, per_layer, offset, batch_size, seq_len);
        lemma_same_pass(cleared, new, cfg, dtype, inputs, n);
        lemma_same_reach(cleared, new, cfg, dtype, inputs, n);
        lemma_same_pass(cleared, new, cfg, dtype, inputs, cleared.reached(inputs, n));
        lemma_same_computed(cleared, new, cfg, dtype, inputs, n);
    }
}

/// A decoder without embeddings for its layers' own inputs makes of tokens what it
/// makes of their embeddings.
pub proof fn law_tokens_run_like_their_embeddings(
    model: TextModel,
    weights: DType,
    input_ids: Term,
    offset: usize,
)
    requires
        input_ids.dims().len() == 2,
        model.per_layer_embed_tokens is None,
    ensures
        ({
            let xs = model.embedded(weights, input_ids);
            let of_tokens = model.token_outcome(weights, input_ids, offset);
            let of_embeddings = model.outcome(
                weights,
                xs,
                None,
                offset,
                known(input_ids.dims()[0]),
                known(input_ids.dims()[1]),
            );
            &&& of_tokens.result == of_embeddings.result
            &&& of_tokens.actions == of_embeddings.actions
            &&& of_tokens.layers == of_embeddings.layers
            &&& of_tokens.computed == parts(xs).union(of_embeddings.computed)
        }),
{
    let xs = model.embedded(weights, input_ids);
    assert(parts(xs).union(Set::empty()) =~= parts(xs));
}

} // verus!
