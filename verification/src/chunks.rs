//! Text fed in parts gives what it gives when fed whole.

use crate::attention::{Attention, Tables};
use crate::blockwise::{
    lemma_appended_rows, lemma_attention_rows, lemma_behind_rows, lemma_logits_rows,
    lemma_norm_rows, lemma_own_input_rows, optional_row, own_row,
};
use crate::causal::pass_mask;
use crate::config::Gemma4TextConfig;
use crate::fitting::{
    attention_sound, kv_fits, lemma_attention_fits, lemma_norm_fits, mask_fits, tables_fit,
};
use crate::layer::DecoderLayer;
use crate::mask::{blocks, law_mask_entries};
use crate::model::{layers_of, TextModel};
use crate::norm::rms_norm;
use crate::pass::{own_input, Inputs, Progress};
use crate::reading::{lemma_read_cached, read, seen, Reading, Row};
use crate::sharing::{lemma_layer_of, lemma_pass_prefix, lemma_pass_rank, lemma_step};
use crate::sizes::Setting;
use crate::sound::{
    inputs_fit, lemma_layer_sound, lemma_layer_tables_fit, lemma_mask_fits, lemma_own_input_fits,
    lemma_pass_fits, lemma_step_fits,
};
use crate::term::{DType, Dim, Term};
use vstd::prelude::*;

verus! {

/// Whether a tensor has at each of its first `count` positions what another has `from`
/// positions later.
pub open spec fn agree(
    e: Reading,
    y: Term,
    f: Reading,
    z: Term,
    axis: int,
    from: int,
    count: int,
) -> bool {
    forall|i: int| 0 <= i < count ==> #[trigger] read(e, y, axis, i) == read(f, z, axis, from + i)
}

/// Whether keys and values are the same at the first `count` positions.
pub open spec fn kv_agree(
    e: Reading,
    kv: (Term, Term),
    f: Reading,
    other: (Term, Term),
    count: int,
) -> bool {
    agree(e, kv.0, f, other.0, 2, 0, count) && agree(e, kv.1, f, other.1, 2, 0, count)
}

/// Whether both or neither are there, and are the same at the first `count` positions.
pub open spec fn at_hand_agrees(
    e: Reading,
    kv: Option<(Term, Term)>,
    f: Reading,
    other: Option<(Term, Term)>,
    count: int,
) -> bool {
    match (kv, other) {
        (Some(a), Some(b)) => kv_agree(e, a, f, b, count),
        (None, None) => true,
        _ => false,
    }
}

/// The first `count` rows of keys or values.
pub open spec fn leading(f: Reading, t: Term, count: nat) -> Seq<Row> {
    Seq::new(count, |i: int| read(f, t, 2, i))
}

/// Whether two readings differ in what caches hold and hand back and where the input
/// starts at most.
pub open spec fn same_terms(e: Reading, f: Reading) -> bool {
    &&& e.wf()
    &&& f.wf()
    &&& e.tables == f.tables
    &&& e.by_distance == f.by_distance
    &&& e.s.weights == f.s.weights
}

/// Each token sees itself and all before it, where a window reaches over all of them.
pub proof fn lemma_sees_all_before(
    b_size: usize,
    seq_len: usize,
    offset: usize,
    window: Option<usize>,
    dtype: DType,
    i: int,
    j: int,
)
    requires
        0 <= i < seq_len,
        0 <= j < seq_len + offset,
        window matches Some(w) ==> seq_len + offset <= w + 1,
    ensures
        (pass_mask(b_size, seq_len, offset, window, dtype) matches Some(m) && blocks(m, i, j)) == (j
            > offset + i),
{
    if seq_len > 1 {
        law_mask_entries(b_size, seq_len, offset, window, dtype, i, j);
    }
}

/// What both runs of a layer's attention start from: hidden states of which the part has
/// `seq_len` behind `offset` others, and the whole has them all.
pub open spec fn attention_ready(
    e: Reading,
    f: Reading,
    att: Attention,
    other: Attention,
    tables: Tables,
    xs: Term,
    zs: Term,
    b_size: usize,
    seq_len: usize,
    offset: usize,
    total: usize,
    positions: usize,
    hidden: usize,
) -> bool {
    let b = Dim::Fixed(b_size);
    &&& same_terms(e, f)
    &&& e.tables.contains(tables.sin)
    &&& e.tables.contains(tables.cos)
    &&& att.cleared() == other.cleared()
    &&& other.kv_cache.empty
    &&& !att.use_flash_attn
    &&& attention_sound(att, hidden)
    &&& tables_fit(e.s, tables, att.head_dim, positions)
    &&& tables_fit(f.s, tables, att.head_dim, positions)
    &&& xs.has(e.s, seq![b, Dim::Fixed(seq_len), Dim::Fixed(hidden)], e.s.weights)
    &&& zs.has(f.s, seq![b, Dim::Fixed(total), Dim::Fixed(hidden)], f.s.weights)
    &&& offset + seq_len <= total <= positions
    &&& TextModel::masks_fit(seq_len, offset)
    &&& TextModel::masks_fit(total, 0)
    &&& forall|l: usize| #[trigger] (e.s.cached)(l) == offset + seq_len
    &&& forall|l: usize| #[trigger] (f.s.cached)(l) == total
    &&& agree(e, xs, f, zs, 1, offset as int, seq_len as int)
}

/// The keys and values that a part appends are those of the whole at its positions.
pub proof fn lemma_appended_agree(
    e: Reading,
    f: Reading,
    att: Attention,
    other: Attention,
    tables: Tables,
    xs: Term,
    zs: Term,
    b_size: usize,
    seq_len: usize,
    offset: usize,
    total: usize,
    positions: usize,
    hidden: usize,
)
    requires
        attention_ready(
            e,
            f,
            att,
            other,
            tables,
            xs,
            zs,
            b_size,
            seq_len,
            offset,
            total,
            positions,
            hidden,
        ),
        !att.is_kv_shared_layer,
    ensures
        agree(
            e,
            att.keys(e.s.weights, tables, xs, offset),
            f,
            other.keys(e.s.weights, tables, zs, 0),
            2,
            offset as int,
            seq_len as int,
        ),
        agree(e, att.values(xs), f, other.values(zs), 2, offset as int, seq_len as int),
{
    let b = Dim::Fixed(b_size);
    let w = e.s.weights;
    lemma_appended_rows(e, att, tables, xs, offset, positions, b, Dim::Fixed(seq_len), hidden);
    lemma_appended_rows(f, other, tables, zs, 0, positions, b, Dim::Fixed(total), hidden);
    let (k, v) = (att.keys(w, tables, xs, offset), att.values(xs));
    let (k2, v2) = (other.keys(w, tables, zs, 0), other.values(zs));
    assert forall|i: int| 0 <= i < seq_len implies #[trigger] read(e, k, 2, i) == read(
        f,
        k2,
        2,
        offset + i,
    ) by {
        assert(read(e, xs, 1, i) == read(f, zs, 1, offset + i));
    }
    assert forall|i: int| 0 <= i < seq_len implies #[trigger] read(e, v, 2, i) == read(
        f,
        v2,
        2,
        offset + i,
    ) by {
        assert(read(e, xs, 1, i) == read(f, zs, 1, offset + i));
    }
}

/// A part behind what the cache holds meets the keys and values that the whole meets.
proof fn lemma_met_agree(
    e: Reading,
    f: Reading,
    att: Attention,
    other: Attention,
    tables: Tables,
    xs: Term,
    zs: Term,
    shared: Option<(Term, Term)>,
    handed: Option<(Term, Term)>,
    b_size: usize,
    seq_len: usize,
    offset: usize,
    total: usize,
    positions: usize,
    hidden: usize,
)
    requires
        attention_ready(
            e,
            f,
            att,
            other,
            tables,
            xs,
            zs,
            b_size,
            seq_len,
            offset,
            total,
            positions,
            hidden,
        ),
        att.is_kv_shared_layer ==> shared is Some && at_hand_agrees(
            e,
            shared,
            f,
            handed,
            offset + seq_len,
        ),
        !att.is_kv_shared_layer ==> {
            let (k2, v2) = (other.keys(e.s.weights, tables, zs, 0), other.values(zs));
            &&& e.held_keys(att.layer_idx, att.kv_cache.empty) == leading(f, k2, offset as nat)
            &&& e.held_values(att.layer_idx, att.kv_cache.empty) == leading(f, v2, offset as nat)
        },
    ensures
        kv_agree(
            e,
            att.met(e.s.weights, tables, xs, shared, offset),
            f,
            other.met(e.s.weights, tables, zs, handed, 0),
            offset + seq_len,
        ),
{
    if !att.is_kv_shared_layer {
        lemma_appended_agree(
            e,
            f,
            att,
            other,
            tables,
            xs,
            zs,
            b_size,
            seq_len,
            offset,
            total,
            positions,
            hidden,
        );
        let w = e.s.weights;
        let (k, v) = (att.keys(w, tables, xs, offset), att.values(xs));
        let (k2, v2) = (other.keys(w, tables, zs, 0), other.values(zs));
        lemma_read_cached(e, att.layer_idx, att.kv_cache.empty, k, v);
        lemma_read_cached(f, other.layer_idx, true, k2, v2);
        let met = att.met(w, tables, xs, shared, offset);
        let met2 = other.met(w, tables, zs, handed, 0);
        assert(f.held_keys(other.layer_idx, true).len() == 0);
        assert(f.held_values(other.layer_idx, true).len() == 0);
        assert forall|j: int| 0 <= j < offset + seq_len implies #[trigger] read(e, met.0, 2, j)
            == read(f, met2.0, 2, 0 + j) by {
            if j >= offset {
                assert(read(e, k, 2, j - offset) == read(f, k2, 2, offset + (j - offset)));
            }
        }
        assert forall|j: int| 0 <= j < offset + seq_len implies #[trigger] read(e, met.1, 2, j)
            == read(f, met2.1, 2, 0 + j) by {
            if j >= offset {
                assert(read(e, v, 2, j - offset) == read(f, v2, 2, offset + (j - offset)));
            }
        }
    }
}

/// Attention over a part, behind what the cache holds of the whole, gives what attention
/// over the whole gives at the part's positions.
pub proof fn law_attention_over_a_part(
    e: Reading,
    f: Reading,
    att: Attention,
    other: Attention,
    tables: Tables,
    xs: Term,
    zs: Term,
    shared: Option<(Term, Term)>,
    handed: Option<(Term, Term)>,
    window: Option<usize>,
    b_size: usize,
    seq_len: usize,
    offset: usize,
    total: usize,
    positions: usize,
    hidden: usize,
    source: usize,
    other_source: usize,
)
    requires
        attention_ready(
            e,
            f,
            att,
            other,
            tables,
            xs,
            zs,
            b_size,
            seq_len,
            offset,
            total,
            positions,
            hidden,
        ),
        window matches Some(w) ==> total <= w + 1,
        att.is_kv_shared_layer ==> {
            &&& shared is Some
            &&& handed is Some
            &&& kv_fits(
                e.s,
                shared->0,
                Dim::Fixed(b_size),
                att.num_kv_heads,
                source,
                att.head_dim,
            )
            &&& kv_fits(
                f.s,
                handed->0,
                Dim::Fixed(b_size),
                att.num_kv_heads,
                other_source,
                att.head_dim,
            )
            &&& at_hand_agrees(e, shared, f, handed, offset + seq_len)
        },
        !att.is_kv_shared_layer ==> {
            let (k2, v2) = (other.keys(e.s.weights, tables, zs, 0), other.values(zs));
            &&& source == att.layer_idx
            &&& other_source == att.layer_idx
            &&& e.held_keys(att.layer_idx, att.kv_cache.empty) == leading(f, k2, offset as nat)
            &&& e.held_values(att.layer_idx, att.kv_cache.empty) == leading(f, v2, offset as nat)
        },
    ensures
        ({
            let w = e.s.weights;
            let part = att.attention(
                w,
                tables,
                xs,
                shared,
                pass_mask(b_size, seq_len, offset, window, w),
                offset,
            );
            let whole = other.attention(
                w,
                tables,
                zs,
                handed,
                pass_mask(b_size, total, 0, window, w),
                0,
            );
            &&& part matches Ok(a) && whole matches Ok(c) && agree(
                e,
                a.out,
                f,
                c.out,
                1,
                offset as int,
                seq_len as int,
            ) && at_hand_agrees(e, a.stored, f, c.stored, offset + seq_len)
        }),
{
    let b = Dim::Fixed(b_size);
    let w = e.s.weights;
    let mask = pass_mask(b_size, seq_len, offset, window, w);
    let mask2 = pass_mask(b_size, total, 0, window, w);
    let part = att.attention(w, tables, xs, shared, mask, offset);
    let whole = other.attention(w, tables, zs, handed, mask2, 0);
    if seq_len > 1 {
        lemma_mask_fits(e.s, b_size, seq_len, offset, window);
    }
    if total > 1 {
        lemma_mask_fits(f.s, b_size, total, 0, window);
    }
    assert((e.s.cached)(source) == offset + seq_len);
    assert((f.s.cached)(other_source) == total);
    assert(mask_fits(e.s, mask, b, Dim::Fixed(seq_len), source));
    assert(mask_fits(f.s, mask2, b, Dim::Fixed(total), other_source));
    let met = att.met(w, tables, xs, shared, offset);
    let met2 = other.met(w, tables, zs, handed, 0);
    lemma_met_agree(
        e,
        f,
        att,
        other,
        tables,
        xs,
        zs,
        shared,
        handed,
        b_size,
        seq_len,
        offset,
        total,
        positions,
        hidden,
    );
    assert(part is Ok && whole is Ok && (part->Ok_0.stored is Some) == (whole->Ok_0.stored is Some)
        && (part->Ok_0.stored is Some ==> part->Ok_0.stored == Some(met) && whole->Ok_0.stored
        == Some(met2))) by {
        reveal(Attention::attention);
    }
    lemma_attention_rows(
        e,
        att,
        tables,
        xs,
        shared,
        mask,
        offset,
        positions,
        b,
        Dim::Fixed(seq_len),
        hidden,
        source,
    );
    lemma_attention_rows(
        f,
        other,
        tables,
        zs,
        handed,
        mask2,
        0,
        positions,
        b,
        Dim::Fixed(total),
        hidden,
        other_source,
    );
    let (a, c) = (part->Ok_0, whole->Ok_0);
    let (n, m) = ((offset + seq_len) as nat, total as nat);
    assert forall|i: int| 0 <= i < seq_len implies #[trigger] read(e, a.out, 1, i) == read(
        f,
        c.out,
        1,
        offset + i,
    ) by {
        assert(read(e, xs, 1, i) == read(f, zs, 1, offset + i));
        let at = offset + i;
        assert(seen(e, met.0, n, mask, i) =~= seen(f, met2.0, m, mask2, at)) by {
            lemma_seen_agree(
                e,
                f,
                met.0,
                met2.0,
                window,
                b_size,
                seq_len,
                offset,
                total,
                w,
                i,
            );
        }
        assert(seen(e, met.1, n, mask, i) =~= seen(f, met2.1, m, mask2, at)) by {
            lemma_seen_agree(
                e,
                f,
                met.1,
                met2.1,
                window,
                b_size,
                seq_len,
                offset,
                total,
                w,
                i,
            );
        }
    }
}

/// A position of a part sees what it sees in the whole.
proof fn lemma_seen_agree(
    e: Reading,
    f: Reading,
    y: Term,
    z: Term,
    window: Option<usize>,
    b_size: usize,
    seq_len: usize,
    offset: usize,
    total: usize,
    dtype: DType,
    i: int,
)
    requires
        offset + seq_len <= total,
        window matches Some(w) ==> total <= w + 1,
        agree(e, y, f, z, 2, 0, offset + seq_len),
        0 <= i < seq_len,
    ensures
        seen(
            e,
            y,
            (offset + seq_len) as nat,
            pass_mask(b_size, seq_len, offset, window, dtype),
            i,
        ) == seen(f, z, total as nat, pass_mask(b_size, total, 0, window, dtype), offset + i),
{
    let left = seen(
        e,
        y,
        (offset + seq_len) as nat,
        pass_mask(b_size, seq_len, offset, window, dtype),
        i,
    );
    let right = seen(
        f,
        z,
        total as nat,
        pass_mask(b_size, total, 0, window, dtype),
        offset + i,
    );
    assert forall|j: int| #[trigger] left.contains_key(j) == right.contains_key(j) by {
        if 0 <= j < offset + seq_len {
            lemma_sees_all_before(b_size, seq_len, offset, window, dtype, i, j);
        }
        if 0 <= j < total {
            lemma_sees_all_before(b_size, total, 0, window, dtype, offset + i, j);
        }
    }
    assert forall|j: int| #[trigger] left.contains_key(j) implies left[j] == right[j] by {
        assert(read(e, y, 2, j) == read(f, z, 2, 0 + j));
        assert(right.contains_key(j));
    }
    assert(left =~= right);
}

/// A pass through the layers of a decoder, and how it is read.
pub struct Run {
    pub model: TextModel,
    pub inputs: Inputs,
    pub r: Reading,
    pub b_size: usize,
    pub seq_len: usize,
}

impl Run {
    /// Whether this is a pass of a sound configuration's decoder, with attention that is
    /// not fused, over `seq_len` tokens in each of `b_size` rows, with caches that hand
    /// back all positions.
    pub open spec fn well(self, cfg: Gemma4TextConfig) -> bool {
        let s = self.r.s;
        let (b_size, n, offset) = (self.b_size, self.seq_len, self.inputs.offset);
        let m = self.model;
        &&& self.r.wf()
        &&& self.r.tables.contains(m.rotary_emb_global.sin@)
        &&& self.r.tables.contains(m.rotary_emb_global.cos@)
        &&& self.r.tables.contains(m.rotary_emb_local.sin@)
        &&& self.r.tables.contains(m.rotary_emb_local.cos@)
        &&& m.belongs_to(cfg, s.weights)
        &&& cfg.sound()
        &&& !cfg.use_flash_attn
        &&& inputs_fit(s, cfg, self.inputs, Dim::Fixed(b_size), Dim::Fixed(n))
        &&& self.inputs.full_mask == pass_mask(b_size, n, offset, None, s.weights)
        &&& self.inputs.sliding_mask == pass_mask(
            b_size,
            n,
            offset,
            Some(cfg.sliding_window),
            s.weights,
        )
        &&& TextModel::masks_fit(n, offset)
        &&& forall|l: usize| #[trigger] (s.cached)(l) == offset + n
    }

    /// The angle tables of a layer.
    pub open spec fn tables_at(self, i: int) -> Tables {
        self.model.layers@[i].self_attn.tables(
            self.model.rotary_emb_global,
            self.model.rotary_emb_local,
        )
    }

    /// The hidden states that a layer's attention is given.
    pub open spec fn normed_at(self, i: int) -> Term {
        rms_norm(
            self.model.layers@[i].input_layernorm,
            self.r.s.weights,
            self.model.pass(self.inputs, i as nat)->Ok_0.xs,
        )
    }

    /// The keys and values that a layer appends to its cache.
    pub open spec fn appended_at(self, i: int) -> (Term, Term) {
        let att = self.model.layers@[i].self_attn;
        (
            att.keys(
                self.r.s.weights,
                self.tables_at(i),
                self.normed_at(i),
                self.inputs.offset,
            ),
            att.values(self.normed_at(i)),
        )
    }

    /// Whether this is a pass over a part of what another pass of the same configuration's
    /// decoder, with nothing in its caches, goes over, within the sliding window.
    pub open spec fn part_of(self, whole: Run, cfg: Gemma4TextConfig) -> bool {
        let offset = self.inputs.offset;
        &&& self.well(cfg)
        &&& whole.well(cfg)
        &&& same_terms(self.r, whole.r)
        &&& self.b_size == whole.b_size
        &&& whole.inputs.offset == 0
        &&& whole.model.layers@ == layers_of(cfg)
        &&& offset + self.seq_len <= whole.seq_len <= cfg.sliding_window + 1
        &&& agree(
            self.r,
            self.inputs.xs,
            whole.r,
            whole.inputs.xs,
            1,
            offset as int,
            self.seq_len as int,
        )
        &&& forall|i: int|
            0 <= i < self.seq_len ==> #[trigger] optional_row(
                self.r,
                self.inputs.per_layer,
                1,
                i,
            ) == optional_row(whole.r, whole.inputs.per_layer, 1, offset + i)
    }

    /// Whether the caches hold, layer by layer, the keys and values of another pass at the
    /// positions before those at hand.
    pub open spec fn follows(self, whole: Run, cfg: Gemma4TextConfig) -> bool {
        let n = self.inputs.offset as nat;
        forall|i: usize|
            i < cfg.num_hidden_layers && !cfg.shares_kv(i as int) ==> {
                let fresh = self.model.layers@[i as int].self_attn.kv_cache.empty;
                let (k, v) = #[trigger] whole.appended_at(i as int);
                &&& self.r.held_keys(i, fresh) == leading(whole.r, k, n)
                &&& self.r.held_values(i, fresh) == leading(whole.r, v, n)
            }
    }
}

impl Run {
    /// Whether, with what this pass appends, the cache of a layer holds the keys and values
    /// of another pass up to the last position at hand.
    pub open spec fn keeps_up(self, whole: Run, i: usize) -> bool {
        let fresh = self.model.layers@[i as int].self_attn.kv_cache.empty;
        let (k, v) = self.appended_at(i as int);
        let (k2, v2) = whole.appended_at(i as int);
        let n = self.seq_len as nat;
        let end = (self.inputs.offset + self.seq_len) as nat;
        &&& self.r.held_keys(i, fresh) + leading(self.r, k, n) == leading(whole.r, k2, end)
        &&& self.r.held_values(i, fresh) + leading(self.r, v, n) == leading(whole.r, v2, end)
    }

    /// Whether this pass and another, through `n` layers, give the same logits.
    pub open spec fn same_logits(self, other: Run, n: nat) -> bool {
        let w = self.r.s.weights;
        let p = self.model.pass(self.inputs, n)->Ok_0;
        let q = other.model.pass(other.inputs, n)->Ok_0;
        let logits = self.model.logits(w, p.xs, self.seq_len);
        let others = other.model.logits(w, q.xs, other.seq_len);
        &&& logits is Ok
        &&& others is Ok
        &&& read(self.r, logits->Ok_0, 1, 0) == read(other.r, others->Ok_0, 1, 0)
    }
}

/// Whether two passes have come to the same at the positions of the first, which is part
/// of the second.
pub open spec fn progress_agrees(part: Run, p: Progress, whole: Run, q: Progress) -> bool {
    let offset = part.inputs.offset as int;
    let n = part.seq_len as int;
    &&& agree(part.r, p.xs, whole.r, q.xs, 1, offset, n)
    &&& at_hand_agrees(part.r, p.sliding_kv, whole.r, q.sliding_kv, offset + n)
    &&& at_hand_agrees(part.r, p.full_kv, whole.r, q.full_kv, offset + n)
}

/// Both runs of a layer's attention start from the same.
proof fn lemma_layer_ready(part: Run, whole: Run, cfg: Gemma4TextConfig, i: int)
    requires
        part.part_of(whole, cfg),
        0 <= i < cfg.num_hidden_layers,
        part.model.pass(part.inputs, i as nat) is Ok,
        whole.model.pass(whole.inputs, i as nat) is Ok,
        agree(
            part.r,
            part.model.pass(part.inputs, i as nat)->Ok_0.xs,
            whole.r,
            whole.model.pass(whole.inputs, i as nat)->Ok_0.xs,
            1,
            part.inputs.offset as int,
            part.seq_len as int,
        ),
    ensures
        attention_ready(
            part.r,
            whole.r,
            part.model.layers@[i].self_attn,
            whole.model.layers@[i].self_attn,
            part.tables_at(i),
            part.normed_at(i),
            whole.normed_at(i),
            part.b_size,
            part.seq_len,
            part.inputs.offset,
            whole.seq_len,
            cfg.max_position_embeddings,
            cfg.hidden_size,
        ),
        part.tables_at(i) == whole.tables_at(i),
{
    let w = part.r.s.weights;
    let b = Dim::Fixed(part.b_size);
    let (t, u) = (Dim::Fixed(part.seq_len), Dim::Fixed(whole.seq_len));
    lemma_layer_of(part.model, cfg, w, i);
    lemma_layer_of(whole.model, cfg, w, i);
    lemma_layer_sound(part.model, cfg, w, i);
    lemma_layer_sound(whole.model, cfg, w, i);
    lemma_layer_tables_fit(part.r.s, part.model, cfg, i);
    lemma_layer_tables_fit(whole.r.s, whole.model, cfg, i);
    lemma_pass_fits(part.r.s, part.model, cfg, part.inputs, b, t, i as nat);
    lemma_pass_fits(whole.r.s, whole.model, cfg, whole.inputs, b, u, i as nat);
    let p = part.model.pass(part.inputs, i as nat)->Ok_0;
    let q = whole.model.pass(whole.inputs, i as nat)->Ok_0;
    let norm = part.model.layers@[i].input_layernorm;
    let hidden = Dim::Fixed(cfg.hidden_size);
    lemma_norm_fits(part.r.s, norm, p.xs, seq![b, t, hidden]);
    lemma_norm_fits(whole.r.s, norm, q.xs, seq![b, u, hidden]);
    lemma_norm_rows(part.r, norm, w, p.xs, 1);
    lemma_norm_rows(whole.r, norm, w, q.xs, 1);
    let (x, z) = (part.normed_at(i), whole.normed_at(i));
    let offset = part.inputs.offset;
    assert forall|j: int| 0 <= j < part.seq_len implies #[trigger] read(part.r, x, 1, j) == read(
        whole.r,
        z,
        1,
        offset + j,
    ) by {
        assert(read(part.r, p.xs, 1, j) == read(whole.r, q.xs, 1, offset + j));
    }
}

/// A layer whose keys and values at hand come from a cache has some cache as their source.
pub open spec fn source_of(
    s: Setting,
    cfg: Gemma4TextConfig,
    layer: DecoderLayer,
    kv: Option<(Term, Term)>,
    b: Dim,
    sliding: bool,
) -> usize {
    if layer.self_attn.is_kv_shared_layer {
        choose|source: usize| #[trigger]
            kv_fits(
                s,
                kv->0,
                b,
                cfg.kind_kv_heads(sliding),
                source,
                cfg.kind_head_dim(sliding),
            )
    } else {
        layer.self_attn.layer_idx
    }
}

/// Both runs of a layer's attention give the same.
proof fn lemma_attention_agrees(
    part: Run,
    whole: Run,
    cfg: Gemma4TextConfig,
    i: int,
)
    requires
        part.part_of(whole, cfg),
        part.follows(whole, cfg),
        0 <= i < cfg.num_hidden_layers,
        part.model.pass(part.inputs, (i + 1) as nat) is Ok,
        whole.model.pass(whole.inputs, (i + 1) as nat) is Ok,
        part.model.pass(part.inputs, i as nat) is Ok,
        whole.model.pass(whole.inputs, i as nat) is Ok,
        progress_agrees(
            part,
            part.model.pass(part.inputs, i as nat)->Ok_0,
            whole,
            whole.model.pass(whole.inputs, i as nat)->Ok_0,
        ),
    ensures
        ({
            let sliding = cfg.sliding@[i];
            let w = part.r.s.weights;
            let p = part.model.pass(part.inputs, i as nat)->Ok_0;
            let q = whole.model.pass(whole.inputs, i as nat)->Ok_0;
            let b = Dim::Fixed(part.b_size);
            let d = Dim::Fixed(cfg.hidden_size);
            let a = part.model.layers@[i].self_attn.attention(
                w,
                part.tables_at(i),
                part.normed_at(i),
                p.kv(sliding),
                if sliding {
                    part.inputs.sliding_mask
                } else {
                    part.inputs.full_mask
                },
                part.inputs.offset,
            );
            let c = whole.model.layers@[i].self_attn.attention(
                w,
                whole.tables_at(i),
                whole.normed_at(i),
                q.kv(sliding),
                if sliding {
                    whole.inputs.sliding_mask
                } else {
                    whole.inputs.full_mask
                },
                0,
            );
            &&& a is Ok
            &&& c is Ok
            &&& a->Ok_0.out.has(part.r.s, seq![b, Dim::Fixed(part.seq_len), d], w)
            &&& c->Ok_0.out.has(whole.r.s, seq![b, Dim::Fixed(whole.seq_len), d], w)
            &&& agree(
                part.r,
                a->Ok_0.out,
                whole.r,
                c->Ok_0.out,
                1,
                part.inputs.offset as int,
                part.seq_len as int,
            )
            &&& at_hand_agrees(
                part.r,
                a->Ok_0.stored,
                whole.r,
                c->Ok_0.stored,
                part.inputs.offset + part.seq_len,
            )
        }),
{
    let w = part.r.s.weights;
    let b = Dim::Fixed(part.b_size);
    let (t, u) = (Dim::Fixed(part.seq_len), Dim::Fixed(whole.seq_len));
    let sliding = cfg.sliding@[i];
    let p = part.model.pass(part.inputs, i as nat)->Ok_0;
    let q = whole.model.pass(whole.inputs, i as nat)->Ok_0;
    lemma_layer_ready(part, whole, cfg, i);
    lemma_layer_of(part.model, cfg, w, i);
    lemma_layer_of(whole.model, cfg, w, i);
    lemma_layer_sound(part.model, cfg, w, i);
    lemma_layer_sound(whole.model, cfg, w, i);
    lemma_pass_fits(part.r.s, part.model, cfg, part.inputs, b, t, i as nat);
    lemma_pass_fits(whole.r.s, whole.model, cfg, whole.inputs, b, u, i as nat);
    lemma_pass_rank(part.model, part.inputs, i as nat);
    lemma_pass_rank(whole.model, whole.inputs, i as nat);
    lemma_step(part.model, part.inputs, p, i);
    lemma_step(whole.model, whole.inputs, q, i);
    let (layer, other) = (part.model.layers@[i], whole.model.layers@[i]);
    let source = source_of(part.r.s, cfg, layer, p.kv(sliding), b, sliding);
    let other_source = source_of(whole.r.s, cfg, other, q.kv(sliding), b, sliding);
    let window = if sliding {
        Some(cfg.sliding_window)
    } else {
        None
    };
    if !layer.self_attn.is_kv_shared_layer {
        assert(whole.appended_at(i as usize as int) == whole.appended_at(i));
    }
    law_attention_over_a_part(
        part.r,
        whole.r,
        layer.self_attn,
        other.self_attn,
        part.tables_at(i),
        part.normed_at(i),
        whole.normed_at(i),
        p.kv(sliding),
        q.kv(sliding),
        window,
        part.b_size,
        part.seq_len,
        part.inputs.offset,
        whole.seq_len,
        cfg.max_position_embeddings,
        cfg.hidden_size,
        source,
        other_source,
    );
    let mask = pass_mask(part.b_size, part.seq_len, part.inputs.offset, window, w);
    let mask2 = pass_mask(part.b_size, whole.seq_len, 0, window, w);
    assert(mask_fits(part.r.s, mask, b, t, source));
    assert(mask_fits(whole.r.s, mask2, b, u, other_source));
    lemma_attention_fits(
        part.r.s,
        layer.self_attn,
        part.tables_at(i),
        part.normed_at(i),
        p.kv(sliding),
        mask,
        part.inputs.offset,
        cfg.max_position_embeddings,
        b,
        t,
        cfg.hidden_size,
        source,
    );
    lemma_attention_fits(
        whole.r.s,
        other.self_attn,
        part.tables_at(i),
        whole.normed_at(i),
        q.kv(sliding),
        mask2,
        0,
        cfg.max_position_embeddings,
        b,
        u,
        cfg.hidden_size,
        other_source,
    );
}

/// Behind each layer, a part has what the whole has at its positions.
proof fn lemma_pass_agrees(part: Run, whole: Run, cfg: Gemma4TextConfig, n: nat)
    requires
        part.part_of(whole, cfg),
        part.follows(whole, cfg),
        n <= cfg.num_hidden_layers,
        part.model.pass(part.inputs, n) is Ok,
        whole.model.pass(whole.inputs, n) is Ok,
    ensures
        progress_agrees(
            part,
            part.model.pass(part.inputs, n)->Ok_0,
            whole,
            whole.model.pass(whole.inputs, n)->Ok_0,
        ),
    decreases n,
{
    if n > 0 {
        let i = n - 1;
        lemma_pass_agrees(part, whole, cfg, i as nat);
        lemma_attention_agrees(part, whole, cfg, i);
        let w = part.r.s.weights;
        let b = Dim::Fixed(part.b_size);
        let (t, u) = (Dim::Fixed(part.seq_len), Dim::Fixed(whole.seq_len));
        let sliding = cfg.sliding@[i];
        let p = part.model.pass(part.inputs, i as nat)->Ok_0;
        let q = whole.model.pass(whole.inputs, i as nat)->Ok_0;
        let (layer, other) = (part.model.layers@[i], whole.model.layers@[i]);
        lemma_layer_of(part.model, cfg, w, i);
        lemma_layer_of(whole.model, cfg, w, i);
        lemma_layer_sound(part.model, cfg, w, i);
        lemma_layer_sound(whole.model, cfg, w, i);
        lemma_pass_fits(part.r.s, part.model, cfg, part.inputs, b, t, i as nat);
        lemma_pass_fits(whole.r.s, whole.model, cfg, whole.inputs, b, u, i as nat);
        let l = part.model.step(part.inputs, p, i)->Ok_0;
        let m = whole.model.step(whole.inputs, q, i)->Ok_0;
        let a = layer.self_attn.attention(
            w,
            part.tables_at(i),
            part.normed_at(i),
            p.kv(sliding),
            if sliding {
                part.inputs.sliding_mask
            } else {
                part.inputs.full_mask
            },
            part.inputs.offset,
        )->Ok_0;
        let c = other.self_attn.attention(
            w,
            whole.tables_at(i),
            whole.normed_at(i),
            q.kv(sliding),
            if sliding {
                whole.inputs.sliding_mask
            } else {
                whole.inputs.full_mask
            },
            0,
        )->Ok_0;
        let own = own_input(part.inputs.per_layer, i as usize);
        let own2 = own_input(whole.inputs.per_layer, i as usize);
        assert(l.out == layer.behind(w, p.xs, a.out, own) && l.stored == a.stored) by {
            reveal(DecoderLayer::run);
        }
        assert(m.out == other.behind(w, q.xs, c.out, own2) && m.stored == c.stored) by {
            reveal(DecoderLayer::run);
        }
        lemma_own_input_at(part, cfg, i as usize);
        lemma_own_input_at(whole, cfg, i as usize);
        let width = cfg.hidden_size_per_layer_input;
        lemma_behind_rows(part.r, layer, p.xs, a.out, own, b, t, cfg.hidden_size, width);
        lemma_behind_rows(whole.r, other, q.xs, c.out, own2, b, u, cfg.hidden_size, width);
        let offset = part.inputs.offset;
        assert forall|j: int| 0 <= j < part.seq_len implies #[trigger] read(part.r, l.out, 1, j)
            == read(whole.r, m.out, 1, offset + j) by {
            assert(read(part.r, p.xs, 1, j) == read(whole.r, q.xs, 1, offset + j));
            assert(read(part.r, a.out, 1, j) == read(whole.r, c.out, 1, offset + j));
            assert(optional_row(part.r, part.inputs.per_layer, 1, j) == optional_row(
                whole.r,
                whole.inputs.per_layer,
                1,
                offset + j,
            ));
            assert(optional_row(part.r, own, 1, j) == optional_row(whole.r, own2, 1, offset + j));
        }
    }
}

/// A layer's own input, position by position.
proof fn lemma_own_input_at(run: Run, cfg: Gemma4TextConfig, i: usize)
    requires
        run.well(cfg),
        i < cfg.num_hidden_layers,
    ensures
        own_input(run.inputs.per_layer, i) matches Some(p) ==> p.has(
            run.r.s,
            seq![
                Dim::Fixed(run.b_size),
                Dim::Fixed(run.seq_len),
                Dim::Fixed(cfg.hidden_size_per_layer_input),
            ],
            run.r.s.weights,
        ),
        forall|j: int| #[trigger]
            optional_row(run.r, own_input(run.inputs.per_layer, i), 1, j) == own_row(
                optional_row(run.r, run.inputs.per_layer, 1, j),
                i,
            ),
{
    if let Some(per_layer) = run.inputs.per_layer {
        lemma_own_input_fits(
            run.r.s,
            per_layer,
            Dim::Fixed(run.b_size),
            Dim::Fixed(run.seq_len),
            cfg.num_hidden_layers,
            cfg.hidden_size_per_layer_input,
            i,
        );
    }
    lemma_own_input_rows(run.r, run.inputs.per_layer, i);
}

/// Where a part ends with the last token of the whole, their logits are the same.
proof fn lemma_logits_agree(part: Run, whole: Run, cfg: Gemma4TextConfig)
    requires
        part.part_of(whole, cfg),
        part.seq_len > 0,
        part.inputs.offset + part.seq_len == whole.seq_len,
        part.model.pass(part.inputs, cfg.num_hidden_layers as nat) is Ok,
        whole.model.pass(whole.inputs, cfg.num_hidden_layers as nat) is Ok,
        agree(
            part.r,
            part.model.pass(part.inputs, cfg.num_hidden_layers as nat)->Ok_0.xs,
            whole.r,
            whole.model.pass(whole.inputs, cfg.num_hidden_layers as nat)->Ok_0.xs,
            1,
            part.inputs.offset as int,
            part.seq_len as int,
        ),
    ensures
        part.same_logits(whole, cfg.num_hidden_layers as nat),
{
    let n = cfg.num_hidden_layers as nat;
    let b = Dim::Fixed(part.b_size);
    let d = Dim::Fixed(cfg.hidden_size);
    let (t, u) = (Dim::Fixed(part.seq_len), Dim::Fixed(whole.seq_len));
    let p = part.model.pass(part.inputs, n)->Ok_0;
    let q = whole.model.pass(whole.inputs, n)->Ok_0;
    lemma_pass_fits(part.r.s, part.model, cfg, part.inputs, b, t, n);
    lemma_pass_fits(whole.r.s, whole.model, cfg, whole.inputs, b, u, n);
    lemma_logits_rows(part.r, part.model, p.xs, part.seq_len, seq![b, t, d]);
    lemma_logits_rows(whole.r, whole.model, q.xs, whole.seq_len, seq![b, u, d]);
    let last = part.seq_len - 1;
    assert(read(part.r, p.xs, 1, last) == read(whole.r, q.xs, 1, part.inputs.offset + last));
}

/// Behind the last layer, a part has what the whole has at its positions, and where both
/// end with the same token their logits are the same. With what the part appends, the
/// caches hold the keys and values of the whole up to the part's last position, so that
/// the next part can follow.
pub proof fn law_part_gives_what_the_whole_gives(part: Run, whole: Run, cfg: Gemma4TextConfig)
    requires
        part.part_of(whole, cfg),
        part.follows(whole, cfg),
        part.seq_len > 0,
        part.model.pass(part.inputs, cfg.num_hidden_layers as nat) is Ok,
        whole.model.pass(whole.inputs, cfg.num_hidden_layers as nat) is Ok,
    ensures
        progress_agrees(
            part,
            part.model.pass(part.inputs, cfg.num_hidden_layers as nat)->Ok_0,
            whole,
            whole.model.pass(whole.inputs, cfg.num_hidden_layers as nat)->Ok_0,
        ),
        part.inputs.offset + part.seq_len == whole.seq_len ==> part.same_logits(
            whole,
            cfg.num_hidden_layers as nat,
        ),
        forall|i: usize|
            i < cfg.num_hidden_layers && !cfg.shares_kv(i as int) ==> #[trigger] part.keeps_up(
                whole,
                i,
            ),
{
    lemma_pass_agrees(part, whole, cfg, cfg.num_hidden_layers as nat);
    if part.inputs.offset + part.seq_len == whole.seq_len {
        lemma_logits_agree(part, whole, cfg);
    }
    assert forall|i: usize|
        i < cfg.num_hidden_layers && !cfg.shares_kv(i as int) implies #[trigger] part.keeps_up(
        whole,
        i,
    ) by {
        lemma_caches_keep_up(part, whole, cfg, i);
    }
}

/// With what a part appends, a cache holds the keys and values of the whole up to the
/// part's last position.
proof fn lemma_caches_keep_up(part: Run, whole: Run, cfg: Gemma4TextConfig, i: usize)
    requires
        part.part_of(whole, cfg),
        part.follows(whole, cfg),
        i < cfg.num_hidden_layers,
        !cfg.shares_kv(i as int),
        part.model.pass(part.inputs, cfg.num_hidden_layers as nat) is Ok,
        whole.model.pass(whole.inputs, cfg.num_hidden_layers as nat) is Ok,
    ensures
        part.keeps_up(whole, i),
{
    let w = part.r.s.weights;
    lemma_pass_prefix(part.model, part.inputs, i as nat, cfg.num_hidden_layers as nat);
    lemma_pass_prefix(whole.model, whole.inputs, i as nat, cfg.num_hidden_layers as nat);
    lemma_pass_agrees(part, whole, cfg, i as nat);
    lemma_layer_ready(part, whole, cfg, i as int);
    lemma_layer_of(part.model, cfg, w, i as int);
    let (att, other) = (
        part.model.layers@[i as int].self_attn,
        whole.model.layers@[i as int].self_attn,
    );
    lemma_appended_agree(
        part.r,
        whole.r,
        att,
        other,
        part.tables_at(i as int),
        part.normed_at(i as int),
        whole.normed_at(i as int),
        part.b_size,
        part.seq_len,
        part.inputs.offset,
        whole.seq_len,
        cfg.max_position_embeddings,
        cfg.hidden_size,
    );
    let fresh = att.kv_cache.empty;
    let (k, v) = part.appended_at(i as int);
    let (k2, v2) = whole.appended_at(i as int);
    let offset = part.inputs.offset;
    let (n, end) = (part.seq_len as nat, (offset + part.seq_len) as nat);
    let (keys, values) = (part.r.held_keys(i, fresh), part.r.held_values(i, fresh));
    assert forall|j: int| 0 <= j < end implies (keys + leading(part.r, k, n))[j]
        == #[trigger] leading(whole.r, k2, end)[j] by {
        if j >= offset {
            assert(read(part.r, k, 2, j - offset) == read(whole.r, k2, 2, offset + (j - offset)));
        }
    }
    assert(keys + leading(part.r, k, n) =~= leading(whole.r, k2, end));
    assert forall|j: int| 0 <= j < end implies (values + leading(part.r, v, n))[j]
        == #[trigger] leading(whole.r, v2, end)[j] by {
        if j >= offset {
            assert(read(part.r, v, 2, j - offset) == read(whole.r, v2, 2, offset + (j - offset)));
        }
    }
    assert(values + leading(part.r, v, n) =~= leading(whole.r, v2, end));
}

/// What a layer with keys and values of its own appends to its cache in a pass.
pub proof fn lemma_appends_at(run: Run, cfg: Gemma4TextConfig, i: int)
    requires
        run.well(cfg),
        0 <= i < cfg.num_hidden_layers,
        !cfg.shares_kv(i),
        run.model.pass(run.inputs, cfg.num_hidden_layers as nat) is Ok,
    ensures
        ({
            let (k, v) = run.appended_at(i);
            let d = seq![
                Dim::Fixed(run.b_size),
                Dim::Fixed(cfg.kind_kv_heads(cfg.sliding@[i])),
                Dim::Fixed(run.seq_len),
                Dim::Fixed(cfg.kind_head_dim(cfg.sliding@[i])),
            ];
            &&& run.model.step(
                run.inputs,
                run.model.pass(run.inputs, i as nat)->Ok_0,
                i,
            )->Ok_0.action == Some(
                Term::Append {
                    layer: i as usize,
                    fresh: run.model.layers@[i].self_attn.kv_cache.empty,
                    k: Box::new(k),
                    v: Box::new(v),
                },
            )
            &&& k.dims() == d
            &&& v.dims() == d
        }),
{
    let s = run.r.s;
    let (b, t) = (Dim::Fixed(run.b_size), Dim::Fixed(run.seq_len));
    let n = cfg.num_hidden_layers as nat;
    lemma_pass_prefix(run.model, run.inputs, i as nat, n);
    lemma_pass_prefix(run.model, run.inputs, (i + 1) as nat, n);
    lemma_layer_of(run.model, cfg, s.weights, i);
    lemma_layer_sound(run.model, cfg, s.weights, i);
    lemma_pass_fits(s, run.model, cfg, run.inputs, b, t, i as nat);
    let p = run.model.pass(run.inputs, i as nat)->Ok_0;
    lemma_step_fits(s, run.model, cfg, run.inputs, p, b, t, i);
    assert(run.model.step(run.inputs, p, i) is Ok);
    reveal(DecoderLayer::run);
    reveal(Attention::attention);
}

} // verus!
