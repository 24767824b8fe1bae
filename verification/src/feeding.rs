//! Tokens fed to a decoder in parts, each behind those before.

use crate::blockwise::{lemma_embedded_rows, lemma_own_rows, optional_row};
use crate::caches::{contents, law_pass_fills_caches, law_pass_keeps_the_layout};
use crate::causal::pass_mask;
use crate::chunks::{
    agree, law_part_gives_what_the_whole_gives, leading, lemma_appends_at, Run,
};
use crate::config::Gemma4TextConfig;
use crate::model::TextModel;
use crate::pass::{used_up_to, Outcome};
use crate::reading::{read, Reading, Row};
use crate::sharing::lemma_layer_of;
use crate::sizes::Setting;
use crate::sound::{
    law_tokens_become_logits, lemma_inputs_fit, lemma_tokens_run_well, runs_well,
};
use crate::term::{DType, Dim, Term};
use vstd::prelude::*;

verus! {

/// `seq_len` tokens in each of `b_size` rows.
pub open spec fn tokens(b_size: usize, seq_len: usize) -> Term {
    Term::TokenIds(seq![Dim::Fixed(b_size), Dim::Fixed(seq_len)])
}

/// How a pass of a decoder is read: `before` positions come before those at hand, of
/// which the caches hold these keys and values, and they hand back `count` positions.
pub open spec fn reading_of(
    model: TextModel,
    dtype: DType,
    before: usize,
    count: nat,
    keys: spec_fn(usize) -> Seq<Row>,
    values: spec_fn(usize) -> Seq<Row>,
) -> Reading {
    let global = model.rotary_emb_global;
    let local = model.rotary_emb_local;
    Reading {
        s: Setting { weights: dtype, cached: |l: usize| count },
        base: before as int,
        tables: set![global.sin@, global.cos@, local.sin@, local.cos@],
        keys,
        values,
        by_distance: false,
    }
}

/// The angle tables of a configuration's decoder are made as readings ask.
proof fn lemma_reading_wf(model: TextModel, cfg: Gemma4TextConfig, dtype: DType, r: Reading)
    requires
        model.belongs_to(cfg, dtype),
        r.tables == (set![
            model.rotary_emb_global.sin@,
            model.rotary_emb_global.cos@,
            model.rotary_emb_local.sin@,
            model.rotary_emb_local.cos@,
        ]),
    ensures
        r.wf(),
{
    reveal_with_fuel(Term::dims, 6);
}

/// A pass over tokens.
pub open spec fn token_run(
    model: TextModel,
    r: Reading,
    b_size: usize,
    seq_len: usize,
    offset: usize,
) -> Run {
    let w = r.s.weights;
    let ids = tokens(b_size, seq_len);
    let xs = model.embedded(w, ids);
    let per_layer = model.per_layer_inputs(w, xs, model.token_inputs(w, ids)->Ok_0)->Ok_0;
    Run {
        model,
        inputs: model.inputs(w, xs, per_layer, offset, b_size, seq_len),
        r,
        b_size,
        seq_len,
    }
}

/// Whether a decoder of a configuration can go over so many tokens, with attention that is
/// not fused and with caches that hand back all positions.
pub open spec fn can_run(
    model: TextModel,
    cfg: Gemma4TextConfig,
    r: Reading,
    seq_len: usize,
    offset: usize,
) -> bool {
    &&& r.wf()
    &&& r.tables.contains(model.rotary_emb_global.sin@)
    &&& r.tables.contains(model.rotary_emb_global.cos@)
    &&& r.tables.contains(model.rotary_emb_local.sin@)
    &&& r.tables.contains(model.rotary_emb_local.cos@)
    &&& model.belongs_to(cfg, r.s.weights)
    &&& cfg.sound()
    &&& !cfg.use_flash_attn
    &&& 0 < seq_len
    &&& offset + seq_len <= cfg.max_position_embeddings
    &&& TextModel::masks_fit(seq_len, offset)
    &&& forall|l: usize| #[trigger] (r.s.cached)(l) == offset + seq_len
}

/// A pass over tokens comes through all layers, and what it comes to is what its layers
/// come to.
proof fn lemma_token_run(
    model: TextModel,
    cfg: Gemma4TextConfig,
    r: Reading,
    b_size: usize,
    seq_len: usize,
    offset: usize,
)
    requires
        can_run(model, cfg, r, seq_len, offset),
    ensures
        ({
            let run = token_run(model, r, b_size, seq_len, offset);
            let n = cfg.num_hidden_layers as nat;
            let outcome = model.token_outcome(r.s.weights, tokens(b_size, seq_len), offset);
            &&& run.well(cfg)
            &&& run.inputs.xs.dims().len() == 3
            &&& run.model.pass(run.inputs, n) matches Ok(p) && outcome.result == model.logits(
                r.s.weights,
                p.xs,
                seq_len,
            ) && outcome.actions == p.actions
            &&& outcome.layers == used_up_to(model.layers@, n)
        }),
{
    let w = r.s.weights;
    let ids = tokens(b_size, seq_len);
    let xs = model.embedded(w, ids);
    let token_inputs = model.token_inputs(w, ids)->Ok_0;
    lemma_tokens_run_well(r.s, model, cfg, offset, b_size, seq_len);
    assert(runs_well(r.s, model, cfg, xs, token_inputs, offset, b_size, seq_len));
    lemma_inputs_fit(r.s, model, cfg, xs, token_inputs, offset, b_size, seq_len);
    let run = token_run(model, r, b_size, seq_len, offset);
    assert(run.inputs.full_mask == pass_mask(b_size, seq_len, offset, None, w));
    assert(ids.dims() == seq![Dim::Fixed(b_size), Dim::Fixed(seq_len)]);
    let n = model.layers@.len();
    assert(model.reached(run.inputs, n) == n);
}

/// What a pass over tokens starts from, position by position.
proof fn lemma_token_rows(
    model: TextModel,
    cfg: Gemma4TextConfig,
    r: Reading,
    b_size: usize,
    seq_len: usize,
    offset: usize,
)
    requires
        can_run(model, cfg, r, seq_len, offset),
    ensures
        ({
            let run = token_run(model, r, b_size, seq_len, offset);
            let w = r.s.weights;
            &&& forall|i: int| #[trigger]
                read(r, run.inputs.xs, 1, i) == model.embedded_row(w, r.base + i)
            &&& forall|i: int| #[trigger]
                optional_row(r, run.inputs.per_layer, 1, i) == model.own_rows(
                    w,
                    model.embedded_row(w, r.base + i),
                    model.token_row(w, r.base + i),
                )
        }),
{
    let w = r.s.weights;
    let ids = tokens(b_size, seq_len);
    let xs = model.embedded(w, ids);
    let token_inputs = model.token_inputs(w, ids)->Ok_0;
    let (b, t) = (Dim::Fixed(b_size), Dim::Fixed(seq_len));
    lemma_tokens_run_well(r.s, model, cfg, offset, b_size, seq_len);
    lemma_inputs_fit(r.s, model, cfg, xs, token_inputs, offset, b_size, seq_len);
    lemma_embedded_rows(r, model, b_size, seq_len);
    lemma_own_rows(r, model, xs, token_inputs, b, t, cfg.hidden_size);
    let own = model.per_layer_inputs(w, xs, token_inputs)->Ok_0;
    assert forall|i: int| #[trigger]
        optional_row(r, own, 1, i) == model.own_rows(
            w,
            model.embedded_row(w, r.base + i),
            model.token_row(w, r.base + i),
        ) by {
        assert(read(r, xs, 1, i) == model.embedded_row(w, r.base + i));
        assert(optional_row(r, token_inputs, 1, i) == model.token_row(w, r.base + i));
    }
}

/// Tokens that stand in a text, behind those before them, are part of the whole text.
proof fn lemma_tokens_are_part(
    model: TextModel,
    other: TextModel,
    cfg: Gemma4TextConfig,
    e: Reading,
    f: Reading,
    b_size: usize,
    seq_len: usize,
    offset: usize,
    total: usize,
)
    requires
        can_run(model, cfg, e, seq_len, offset),
        can_run(other, cfg, f, total, 0),
        other.laid_out(cfg, f.s.weights),
        e.tables == f.tables,
        e.by_distance == f.by_distance,
        e.s.weights == f.s.weights,
        e.base == f.base + offset,
        offset + seq_len <= total <= cfg.sliding_window + 1,
    ensures
        token_run(model, e, b_size, seq_len, offset).part_of(
            token_run(other, f, b_size, total, 0),
            cfg,
        ),
{
    let w = e.s.weights;
    lemma_token_run(model, cfg, e, b_size, seq_len, offset);
    lemma_token_run(other, cfg, f, b_size, total, 0);
    lemma_token_rows(model, cfg, e, b_size, seq_len, offset);
    lemma_token_rows(other, cfg, f, b_size, total, 0);
    lemma_layers_count(model, cfg, w);
    lemma_layers_count(other, cfg, w);
    let part = token_run(model, e, b_size, seq_len, offset);
    let whole = token_run(other, f, b_size, total, 0);
    assert forall|i: int| 0 <= i < seq_len implies #[trigger] read(e, part.inputs.xs, 1, i) == read(
        f,
        whole.inputs.xs,
        1,
        offset + i,
    ) by {}
    assert(agree(e, part.inputs.xs, f, whole.inputs.xs, 1, offset as int, seq_len as int));
    assert forall|i: int| 0 <= i < seq_len implies #[trigger] optional_row(
        e,
        part.inputs.per_layer,
        1,
        i,
    ) == optional_row(f, whole.inputs.per_layer, 1, offset + i) by {}
}

/// A configuration's decoder has as many layers as the configuration says.
proof fn lemma_layers_count(model: TextModel, cfg: Gemma4TextConfig, dtype: DType)
    requires
        model.belongs_to(cfg, dtype),
        cfg.sound(),
    ensures
        model.layers@.len() == cfg.num_hidden_layers,
{
    assert(crate::model::cleared_layers(model.layers@).len() == model.layers@.len());
    assert(crate::model::layers_of(cfg).len() == cfg.num_hidden_layers);
}

/// The rows of keys that were appended to a cache, joined.
pub open spec fn joined_keys(r: Reading, held: Seq<(Term, Term)>) -> Seq<Row>
    decreases held.len(),
{
    if held.len() == 0 {
        Seq::empty()
    } else {
        let k = held.last().0;
        joined_keys(r, held.drop_last()) + leading(r, k, r.s.size(k.dims()[2]))
    }
}

/// The rows of values that were appended to a cache, joined.
pub open spec fn joined_values(r: Reading, held: Seq<(Term, Term)>) -> Seq<Row>
    decreases held.len(),
{
    if held.len() == 0 {
        Seq::empty()
    } else {
        let v = held.last().1;
        joined_values(r, held.drop_last()) + leading(r, v, r.s.size(v.dims()[2]))
    }
}

/// A pass over `seq_len` tokens behind `offset` others, of which the caches of the decoder
/// hold keys and values.
pub struct Part {
    pub model: TextModel,
    pub seq_len: usize,
    pub offset: usize,
    pub keys: spec_fn(usize) -> Seq<Row>,
    pub values: spec_fn(usize) -> Seq<Row>,
}

impl Part {
    /// How the pass is read.
    pub open spec fn reading(self, dtype: DType) -> Reading {
        let count = (self.offset + self.seq_len) as nat;
        reading_of(self.model, dtype, self.offset, count, self.keys, self.values)
    }

    /// The pass.
    pub open spec fn run(self, dtype: DType, b_size: usize) -> Run {
        token_run(self.model, self.reading(dtype), b_size, self.seq_len, self.offset)
    }

    /// What the pass comes to.
    pub open spec fn outcome(self, dtype: DType, b_size: usize) -> Outcome {
        self.model.token_outcome(dtype, tokens(b_size, self.seq_len), self.offset)
    }

    /// Whether another pass comes next: of the decoder as this one leaves it, over the
    /// tokens behind those of this one, with caches that hold what they held before this
    /// one, unless it made them anew, and then what it appends.
    pub open spec fn leads_to(self, next: Part, dtype: DType, b_size: usize) -> bool {
        let r = self.reading(dtype);
        let outcome = self.outcome(dtype, b_size);
        &&& next.model.same_but_layers(self.model)
        &&& next.model.layers@ == outcome.layers
        &&& next.offset == self.offset + self.seq_len
        &&& forall|i: usize|
            i < self.model.layers@.len() ==> {
                let fresh = self.model.layers@[i as int].self_attn.kv_cache.empty;
                let held = contents(outcome.actions, i);
                &&& #[trigger] (next.keys)(i) == r.held_keys(i, fresh) + joined_keys(r, held)
                &&& (next.values)(i) == r.held_values(i, fresh) + joined_values(r, held)
            }
    }
}

/// Whether parts of a text, one after the other, are fed to a decoder that starts with
/// nothing in its caches.
pub open spec fn fed_in_parts(
    parts: Seq<Part>,
    cfg: Gemma4TextConfig,
    dtype: DType,
    b_size: usize,
) -> bool {
    &&& parts.len() > 0
    &&& parts[0].model.laid_out(cfg, dtype)
    &&& parts[0].offset == 0
    &&& forall|k: int| 0 <= k < parts.len() ==> (#[trigger] parts[k]).seq_len > 0
    &&& forall|k: int|
        0 < k < parts.len() ==> parts[k - 1].leads_to(#[trigger] parts[k], dtype, b_size)
}

/// Whether a text of so many tokens stays within what angle tables, sliding windows and
/// caches of a sound configuration reach over, with attention that is not fused.
pub open spec fn stays_within(cfg: Gemma4TextConfig, total: usize) -> bool {
    &&& cfg.sound()
    &&& !cfg.use_flash_attn
    &&& total <= cfg.max_position_embeddings
    &&& total <= cfg.sliding_window + 1
    &&& total <= cfg.effective_sliding_window
    &&& total * total <= usize::MAX
}

/// No part reaches beyond the last.
proof fn lemma_parts_end(
    parts: Seq<Part>,
    cfg: Gemma4TextConfig,
    dtype: DType,
    b_size: usize,
    k: int,
)
    requires
        fed_in_parts(parts, cfg, dtype, b_size),
        0 <= k < parts.len(),
    ensures
        parts[k].offset + parts[k].seq_len <= parts.last().offset + parts.last().seq_len,
    decreases parts.len() - k,
{
    if k < parts.len() - 1 {
        lemma_parts_end(parts, cfg, dtype, b_size, k + 1);
        assert(parts[(k + 1) - 1].leads_to(parts[k + 1], dtype, b_size));
    }
}

/// What a pass appends to a cache.
proof fn lemma_pass_appends(
    part: Part,
    cfg: Gemma4TextConfig,
    dtype: DType,
    b_size: usize,
    i: usize,
)
    requires
        can_run(part.model, cfg, part.reading(dtype), part.seq_len, part.offset),
        i < cfg.num_hidden_layers,
        !cfg.shares_kv(i as int),
    ensures
        ({
            let r = part.reading(dtype);
            let held = contents(part.outcome(dtype, b_size).actions, i);
            let (k, v) = part.run(dtype, b_size).appended_at(i as int);
            &&& joined_keys(r, held) == leading(r, k, part.seq_len as nat)
            &&& joined_values(r, held) == leading(r, v, part.seq_len as nat)
        }),
{
    let r = part.reading(dtype);
    let (n, seq_len) = (cfg.num_hidden_layers as nat, part.seq_len);
    let (b, t) = (Dim::Fixed(b_size), Dim::Fixed(seq_len));
    lemma_token_run(part.model, cfg, r, b_size, seq_len, part.offset);
    let run = part.run(dtype, b_size);
    let actions = run.model.pass(run.inputs, n)->Ok_0.actions;
    law_pass_fills_caches(run.model, cfg, dtype, run.inputs, Seq::empty(), n, i);
    assert(Seq::<Term>::empty() + actions =~= actions);
    lemma_appends_at(run, cfg, i as int);
    let (k, v) = run.appended_at(i as int);
    let held = contents(part.outcome(dtype, b_size).actions, i);
    assert(held =~= seq![(k, v)]);
    assert(held.drop_last() =~= Seq::empty());
    assert(joined_keys(r, held.drop_last()) =~= Seq::empty());
    assert(joined_values(r, held.drop_last()) =~= Seq::empty());
    assert(joined_keys(r, held) =~= leading(r, k, seq_len as nat));
    assert(joined_values(r, held) =~= leading(r, v, seq_len as nat));
}

/// A text fed whole to a decoder with nothing in its caches.
pub open spec fn fed_whole(model: TextModel, total: usize) -> Part {
    Part {
        model,
        seq_len: total,
        offset: 0,
        keys: |l: usize| Seq::empty(),
        values: |l: usize| Seq::empty(),
    }
}

/// Each part can run, is part of the whole, and finds in the caches what the whole has
/// before it.
proof fn lemma_part_follows(
    parts: Seq<Part>,
    other: TextModel,
    cfg: Gemma4TextConfig,
    dtype: DType,
    b_size: usize,
    total: usize,
    k: int,
)
    requires
        fed_in_parts(parts, cfg, dtype, b_size),
        parts.last().offset + parts.last().seq_len == total,
        stays_within(cfg, total),
        other.laid_out(cfg, dtype),
        0 <= k < parts.len(),
    ensures
        can_run(
            parts[k].model,
            cfg,
            parts[k].reading(dtype),
            parts[k].seq_len,
            parts[k].offset,
        ),
        can_run(other, cfg, fed_whole(other, total).reading(dtype), total, 0),
        parts[k].run(dtype, b_size).part_of(fed_whole(other, total).run(dtype, b_size), cfg),
        parts[k].run(dtype, b_size).follows(fed_whole(other, total).run(dtype, b_size), cfg),
    decreases k,
{
    let part = parts[k];
    let whole = fed_whole(other, total);
    let run = part.run(dtype, b_size);
    let all = whole.run(dtype, b_size);
    lemma_parts_end(parts, cfg, dtype, b_size, k);
    assert(part.seq_len > 0);
    if k > 0 {
        let last = parts[k - 1];
        lemma_part_follows(parts, other, cfg, dtype, b_size, total, k - 1);
        assert(parts[k - 1].leads_to(parts[k], dtype, b_size));
        lemma_token_run(last.model, cfg, last.reading(dtype), b_size, last.seq_len, last.offset);
        law_pass_keeps_the_layout(
            last.model,
            part.model,
            cfg,
            dtype,
            cfg.num_hidden_layers as nat,
        );
    }
    lemma_reading_wf(part.model, cfg, dtype, part.reading(dtype));
    lemma_reading_wf(other, cfg, dtype, whole.reading(dtype));
    let n = part.seq_len;
    assert(n * n <= total * total) by (nonlinear_arith)
        requires
            0 <= n <= total,
    ;
    lemma_tokens_are_part(
        part.model,
        other,
        cfg,
        part.reading(dtype),
        whole.reading(dtype),
        b_size,
        n,
        part.offset,
        total,
    );
    assert forall|i: usize| i < cfg.num_hidden_layers && !cfg.shares_kv(i as int) implies {
        let fresh = part.model.layers@[i as int].self_attn.kv_cache.empty;
        let (k, v) = #[trigger] all.appended_at(i as int);
        &&& run.r.held_keys(i, fresh) == leading(all.r, k, part.offset as nat)
        &&& run.r.held_values(i, fresh) == leading(all.r, v, part.offset as nat)
    } by {
        lemma_layer_of(part.model, cfg, dtype, i as int);
        let (key, value) = all.appended_at(i as int);
        if k == 0 {
            assert(part.model.layers@[i as int].self_attn.kv_cache.empty);
            assert(leading(all.r, key, 0) =~= Seq::empty());
            assert(leading(all.r, value, 0) =~= Seq::empty());
        } else {
            lemma_next_holds(parts[k - 1], part, other, cfg, dtype, b_size, total, i);
        }
    }
}

/// The caches that a part leaves hold what the next part needs.
proof fn lemma_next_holds(
    last: Part,
    part: Part,
    other: TextModel,
    cfg: Gemma4TextConfig,
    dtype: DType,
    b_size: usize,
    total: usize,
    i: usize,
)
    requires
        last.leads_to(part, dtype, b_size),
        can_run(last.model, cfg, last.reading(dtype), last.seq_len, last.offset),
        can_run(other, cfg, fed_whole(other, total).reading(dtype), total, 0),
        last.run(dtype, b_size).part_of(fed_whole(other, total).run(dtype, b_size), cfg),
        last.run(dtype, b_size).follows(fed_whole(other, total).run(dtype, b_size), cfg),
        i < cfg.num_hidden_layers,
        !cfg.shares_kv(i as int),
    ensures
        ({
            let r = part.reading(dtype);
            let all = fed_whole(other, total).run(dtype, b_size);
            let fresh = part.model.layers@[i as int].self_attn.kv_cache.empty;
            let (k, v) = all.appended_at(i as int);
            &&& r.held_keys(i, fresh) == leading(all.r, k, part.offset as nat)
            &&& r.held_values(i, fresh) == leading(all.r, v, part.offset as nat)
        }),
{
    let before = last.run(dtype, b_size);
    let all = fed_whole(other, total).run(dtype, b_size);
    lemma_token_run(last.model, cfg, last.reading(dtype), b_size, last.seq_len, last.offset);
    lemma_token_run(other, cfg, fed_whole(other, total).reading(dtype), b_size, total, 0);
    law_part_gives_what_the_whole_gives(before, all, cfg);
    assert(before.keeps_up(all, i));
    lemma_pass_appends(last, cfg, dtype, b_size, i);
    lemma_layer_of(last.model, cfg, dtype, i as int);
    assert((part.keys)(i) == leading(all.r, all.appended_at(i as int).0, part.offset as nat));
    assert(!part.model.layers@[i as int].self_attn.kv_cache.empty);
}

/// Feeding in parts is feeding whole: a text fed to a decoder part by part, each behind
/// those before, gives in the end the logits that it gives when fed whole to a decoder
/// with nothing in its caches. In a later part, the caches are read as what was appended
/// to them in the parts before, joined.
pub proof fn law_feeding_in_parts(
    parts: Seq<Part>,
    other: TextModel,
    cfg: Gemma4TextConfig,
    dtype: DType,
    b_size: usize,
    total: usize,
)
    requires
        fed_in_parts(parts, cfg, dtype, b_size),
        parts.last().offset + parts.last().seq_len == total,
        stays_within(cfg, total),
        other.laid_out(cfg, dtype),
    ensures
        forall|k: int|
            0 <= k < parts.len() ==> (#[trigger] parts[k]).outcome(dtype, b_size).result is Ok,
        fed_whole(other, total).outcome(dtype, b_size).result is Ok,
        read(
            parts.last().reading(dtype),
            parts.last().outcome(dtype, b_size).result->Ok_0,
            1,
            0,
        ) == read(
            fed_whole(other, total).reading(dtype),
            fed_whole(other, total).outcome(dtype, b_size).result->Ok_0,
            1,
            0,
        ),
{
    let whole = fed_whole(other, total);
    let all = whole.run(dtype, b_size);
    let last = parts.last();
    let run = last.run(dtype, b_size);
    lemma_part_follows(parts, other, cfg, dtype, b_size, total, parts.len() - 1);
    lemma_token_run(last.model, cfg, last.reading(dtype), b_size, last.seq_len, last.offset);
    lemma_token_run(other, cfg, whole.reading(dtype), b_size, total, 0);
    law_part_gives_what_the_whole_gives(run, all, cfg);
    assert(run.same_logits(all, cfg.num_hidden_layers as nat));
    assert forall|k: int| 0 <= k < parts.len() implies (#[trigger] parts[k]).outcome(
        dtype,
        b_size,
    ).result is Ok by {
        let part = parts[k];
        lemma_part_follows(parts, other, cfg, dtype, b_size, total, k);
        law_tokens_become_logits(
            part.reading(dtype).s,
            part.model,
            cfg,
            part.offset,
            b_size,
            part.seq_len,
        );
    }
}

/// Later tokens continue a text: the decoder that went over `n` tokens and then goes over
/// `m` more at offset `n` gives the logits of a pass over all of them. Its caches are read
/// as what the first pass appended to them, joined.
pub proof fn law_later_tokens_continue_the_text(
    model: TextModel,
    after: TextModel,
    other: TextModel,
    cfg: Gemma4TextConfig,
    dtype: DType,
    b_size: usize,
    n: usize,
    m: usize,
)
    requires
        model.laid_out(cfg, dtype),
        other.laid_out(cfg, dtype),
        0 < n,
        0 < m,
        n + m <= usize::MAX,
        stays_within(cfg, (n + m) as usize),
        after.same_but_layers(model),
        after.layers@ == model.token_outcome(dtype, tokens(b_size, n), 0).layers,
    ensures
        ({
            let total = (n + m) as usize;
            let first = model.token_outcome(dtype, tokens(b_size, n), 0);
            let later = after.token_outcome(dtype, tokens(b_size, m), n);
            let whole = other.token_outcome(dtype, tokens(b_size, total), 0);
            let none = |l: usize| Seq::<Row>::empty();
            let r = reading_of(model, dtype, 0, n as nat, none, none);
            let e = reading_of(
                after,
                dtype,
                n,
                total as nat,
                |l: usize| joined_keys(r, contents(first.actions, l)),
                |l: usize| joined_values(r, contents(first.actions, l)),
            );
            let f = reading_of(other, dtype, 0, total as nat, none, none);
            &&& first.result is Ok
            &&& later.result is Ok
            &&& whole.result is Ok
            &&& read(e, later.result->Ok_0, 1, 0) == read(f, whole.result->Ok_0, 1, 0)
        }),
{
    let total = (n + m) as usize;
    let first = model.token_outcome(dtype, tokens(b_size, n), 0);
    let one = fed_whole(model, n);
    let r = one.reading(dtype);
    let two = Part {
        model: after,
        seq_len: m,
        offset: n,
        keys: |l: usize| joined_keys(r, contents(first.actions, l)),
        values: |l: usize| joined_values(r, contents(first.actions, l)),
    };
    let parts = seq![one, two];
    assert(one.leads_to(two, dtype, b_size)) by {
        assert forall|i: usize| i < model.layers@.len() implies {
            let fresh = model.layers@[i as int].self_attn.kv_cache.empty;
            let held = contents(first.actions, i);
            &&& #[trigger] (two.keys)(i) == r.held_keys(i, fresh) + joined_keys(r, held)
            &&& (two.values)(i) == r.held_values(i, fresh) + joined_values(r, held)
        } by {
            let fresh = model.layers@[i as int].self_attn.kv_cache.empty;
            let held = contents(first.actions, i);
            assert(r.held_keys(i, fresh) =~= Seq::empty());
            assert(r.held_values(i, fresh) =~= Seq::empty());
            assert(r.held_keys(i, fresh) + joined_keys(r, held) =~= joined_keys(r, held));
            assert(r.held_values(i, fresh) + joined_values(r, held) =~= joined_values(r, held));
        }
    }
    assert(parts[0] == one && parts[1] == two);
    assert(fed_in_parts(parts, cfg, dtype, b_size));
    law_feeding_in_parts(parts, other, cfg, dtype, b_size, total);
    assert(parts.last() == two);
    assert(parts[0].outcome(dtype, b_size).result is Ok);
    assert(parts[1].outcome(dtype, b_size).result is Ok);
}

} // verus!
