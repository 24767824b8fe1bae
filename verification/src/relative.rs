//! Attention rests on the distance of positions alone.

use crate::attention::{Attention, Tables};
use crate::blockwise::{lemma_appended_rows, lemma_attention_rows, turn_of};
use crate::fitting::{attention_sound, mask_fits, tables_fit};
use crate::reading::{
    attended_row, halves_row, lemma_read_cached, lemma_score_by_distance, read, repeated_row,
    score_row, seen, turned_row, Reading, Row, Turn,
};
use crate::rotary::{
    half_turn, law_scores_rest_on_distance, negated, pair_product, product, sum, sum_cosines,
    sum_sines, turn,
};
use crate::sizes::Setting;
use crate::term::{Binary, Dim, Term, Unary};
use vstd::prelude::*;

verus! {

/// Whether hidden states can go through the attention of a layer with keys and values of
/// its own and nothing in its cache, at the positions from `offset` on.
pub open spec fn starts_well(
    s: Setting,
    att: Attention,
    tables: Tables,
    xs: Term,
    mask: Option<Term>,
    offset: usize,
    positions: usize,
    b: Dim,
    seq_len: usize,
    hidden: usize,
) -> bool {
    let t = Dim::Fixed(seq_len);
    &&& attention_sound(att, hidden)
    &&& !att.use_flash_attn
    &&& !att.is_kv_shared_layer
    &&& att.kv_cache.empty
    &&& tables_fit(s, tables, att.head_dim, positions)
    &&& xs.has(s, seq![b, t, Dim::Fixed(hidden)], s.weights)
    &&& offset + seq_len <= positions
    &&& (s.cached)(att.layer_idx) == seq_len
    &&& mask_fits(s, mask, b, t, att.layer_idx)
}

/// What a query meets in a cache that held nothing: keys turned by the lines of their own
/// positions, and values.
proof fn lemma_met_rows(
    r: Reading,
    att: Attention,
    tables: Tables,
    xs: Term,
    mask: Option<Term>,
    offset: usize,
    positions: usize,
    b: Dim,
    seq_len: usize,
    hidden: usize,
    i: int,
)
    requires
        r.wf(),
        r.tables.contains(tables.sin),
        r.tables.contains(tables.cos),
        starts_well(r.s, att, tables, xs, mask, offset, positions, b, seq_len, hidden),
    ensures
        ({
            let (k, v) = att.met(r.s.weights, tables, xs, None, offset);
            let (keys, values) = (
                seen(r, k, seq_len as nat, mask, i),
                seen(r, v, seq_len as nat, mask, i),
            );
            &&& forall|j: int| #[trigger]
                keys.contains_key(j) ==> keys[j] == turned_row(
                    turn_of(
                        tables,
                        att.key_row(r.s.weights, read(r, xs, 1, j)),
                        offset + j,
                        att.head_dim,
                    ),
                )
            &&& forall|j: int| #[trigger]
                values.contains_key(j) ==> values[j] == att.value_row(
                    r.s.weights,
                    read(r, xs, 1, j),
                )
        }),
{
    let t = Dim::Fixed(seq_len);
    lemma_appended_rows(r, att, tables, xs, offset, positions, b, t, hidden);
    let keys = att.keys(r.s.weights, tables, xs, offset);
    lemma_read_cached(r, att.layer_idx, true, keys, att.values(xs));
    assert forall|j: int| #[trigger]
        seen(r, att.met(r.s.weights, tables, xs, None, offset).0, seq_len as nat, mask, i)
            .contains_key(j) implies read(
        r,
        att.met(r.s.weights, tables, xs, None, offset).0,
        2,
        j,
    ) == read(r, keys, 2, j) by {
        assert(r.held_keys(att.layer_idx, true).len() == 0);
    }
    assert forall|j: int| #[trigger]
        seen(r, att.met(r.s.weights, tables, xs, None, offset).1, seq_len as nat, mask, i)
            .contains_key(j) implies read(
        r,
        att.met(r.s.weights, tables, xs, None, offset).1,
        2,
        j,
    ) == read(r, att.values(xs), 2, j) by {
        assert(r.held_values(att.layer_idx, true).len() == 0);
    }
}

/// Only the distance of positions matters: hidden states that go through the same
/// attention with nothing in its cache and under the same mask give the same at every
/// position, wherever in the text they start.
pub proof fn law_attention_rests_on_distance(
    r: Reading,
    att: Attention,
    tables: Tables,
    xs: Term,
    mask: Option<Term>,
    offset: usize,
    other: usize,
    positions: usize,
    b: Dim,
    seq_len: usize,
    hidden: usize,
)
    requires
        r.wf(),
        r.by_distance,
        r.tables.contains(tables.sin),
        r.tables.contains(tables.cos),
        starts_well(r.s, att, tables, xs, mask, offset, positions, b, seq_len, hidden),
        starts_well(r.s, att, tables, xs, mask, other, positions, b, seq_len, hidden),
    ensures
        ({
            let first = att.attention(r.s.weights, tables, xs, None, mask, offset);
            let second = att.attention(r.s.weights, tables, xs, None, mask, other);
            &&& first is Ok
            &&& second is Ok
            &&& forall|i: int| #[trigger]
                read(r, first->Ok_0.out, 1, i) == read(r, second->Ok_0.out, 1, i)
        }),
{
    let t = Dim::Fixed(seq_len);
    let first = att.attention(r.s.weights, tables, xs, None, mask, offset);
    let second = att.attention(r.s.weights, tables, xs, None, mask, other);
    assert(first is Ok && second is Ok) by {
        reveal(Attention::attention);
    }
    lemma_attention_rows(
        r,
        att,
        tables,
        xs,
        None,
        mask,
        offset,
        positions,
        b,
        t,
        hidden,
        att.layer_idx,
    );
    lemma_attention_rows(
        r,
        att,
        tables,
        xs,
        None,
        mask,
        other,
        positions,
        b,
        t,
        hidden,
        att.layer_idx,
    );
    assert forall|i: int| #[trigger]
        read(r, first->Ok_0.out, 1, i) == read(r, second->Ok_0.out, 1, i) by {
        lemma_met_rows(r, att, tables, xs, mask, offset, positions, b, seq_len, hidden, i);
        lemma_met_rows(r, att, tables, xs, mask, other, positions, b, seq_len, hidden, i);
        let (k, v) = att.met(r.s.weights, tables, xs, None, offset);
        let (k2, v2) = att.met(r.s.weights, tables, xs, None, other);
        let n = seq_len as nat;
        let (keys, values) = (seen(r, k, n, mask, i), seen(r, v, n, mask, i));
        let (keys2, values2) = (seen(r, k2, n, mask, i), seen(r, v2, n, mask, i));
        let plain = att.query_row(r.s.weights, read(r, xs, 1, i));
        let q = turn_of(tables, plain, offset + i, att.head_dim);
        let q2 = turn_of(tables, plain, other + i, att.head_dim);
        let row = attended_row(true, att.num_kv_groups, turned_row(q), keys, values);
        let row2 = attended_row(true, att.num_kv_groups, turned_row(q2), keys2, values2);
        assert(row->Attend_0 =~= row2->Attend_0) by {
            assert forall|j: int| #[trigger] keys.contains_key(j) implies score_row(
                true,
                turned_row(q),
                repeated_row(att.num_kv_groups, keys[j]),
            ) == score_row(
                true,
                turned_row(q2),
                repeated_row(att.num_kv_groups, keys2[j]),
            ) && values[j] == values2[j] by {
                let key = att.key_row(r.s.weights, read(r, xs, 1, j));
                lemma_score_by_distance(
                    q,
                    turn_of(tables, key, offset + j, att.head_dim),
                    att.num_kv_groups,
                );
                lemma_score_by_distance(
                    q2,
                    turn_of(tables, key, other + j, att.head_dim),
                    att.num_kv_groups,
                );
                assert(keys2.contains_key(j));
                assert(values.contains_key(j) && values2.contains_key(j));
            }
        }
    }
}

/// Whether numbers given to rows, one vector each, come about by the operations of a
/// rotation: taking parts, negating, joining, multiplying and adding.
pub open spec fn respects_rotation(value: spec_fn(Row) -> Seq<int>) -> bool {
    &&& forall|row: Row, start: usize, count: usize| #[trigger]
        value(row.each(Unary::NarrowLast { start, count })) == value(row).subrange(
            start as int,
            start + count,
        )
    &&& forall|row: Row| #[trigger] value(row.each(Unary::Neg)) == negated(value(row))
    &&& forall|row: Row| #[trigger] value(row.each(Unary::UnsqueezeFirst)) == value(row)
    &&& forall|a: Row, b: Row| #[trigger] value(a.zip(Binary::CatLast, b)) == value(a) + value(b)
    &&& forall|a: Row, b: Row| #[trigger]
        value(a.zip(Binary::BroadcastMul, b)) == product(value(a), value(b))
    &&& forall|a: Row, b: Row| #[trigger] value(a.zip(Binary::Add, b)) == sum(value(a), value(b))
}

/// A turned row is its vector turned by the cosines and sines of its line.
pub proof fn law_turned_row_is_a_turn(value: spec_fn(Row) -> Seq<int>, t: Turn)
    requires
        respects_rotation(value),
        value(t.row).len() == t.width,
    ensures
        value(turned_row(t)) == turn(
            value(t.row),
            value(Row::Line(t.cos, t.line)),
            value(Row::Line(t.sin, t.line)),
        ),
{
    let w = t.width;
    let v = value(t.row);
    let low = t.row.each(Unary::NarrowLast { start: 0, count: w / 2 });
    let high = t.row.each(Unary::NarrowLast { start: w / 2, count: (w - w / 2) as usize });
    let half = high.each(Unary::Neg).zip(Binary::CatLast, low);
    assert(value(high) == v.subrange((w / 2) as int, w as int));
    assert(value(low) == v.subrange(0, (w / 2) as int));
    assert(value(high.each(Unary::Neg)) == negated(value(high)));
    assert(value(half) == half_turn(v));
    lemma_halves_value(value, t.cos, t.line);
    lemma_halves_value(value, t.sin, t.line);
    let straight = t.row.zip(Binary::BroadcastMul, halves_row(t.cos, t.line));
    let across = half.zip(Binary::BroadcastMul, halves_row(t.sin, t.line));
    assert(value(straight.zip(Binary::Add, across)) == sum(value(straight), value(across)));
}

/// A line of a table repeated for both halves of a head.
proof fn lemma_halves_value(value: spec_fn(Row) -> Seq<int>, table: Term, line: int)
    requires
        respects_rotation(value),
    ensures
        value(halves_row(table, line)) == value(Row::Line(table, line)) + value(
            Row::Line(table, line),
        ),
{
    let once = Row::Line(table, line);
    let twice = once.zip(Binary::CatLast, once);
    assert(value(twice) == value(once) + value(once));
    assert(value(twice.each(Unary::UnsqueezeFirst)) == value(twice));
    assert(value(twice.each(Unary::UnsqueezeFirst).each(Unary::UnsqueezeFirst)) == value(
        twice.each(Unary::UnsqueezeFirst),
    ));
}

/// Whether line `p + m` of a pair of tables has the cosines and sines of the sums of the
/// angles of lines `p` and `m`, as it has where angles grow with the line.
pub open spec fn lines_add(
    value: spec_fn(Row) -> Seq<int>,
    cos: Term,
    sin: Term,
    p: int,
    m: int,
) -> bool {
    let (c, s) = (value(Row::Line(cos, p)), value(Row::Line(sin, p)));
    let (c2, s2) = (value(Row::Line(cos, m)), value(Row::Line(sin, m)));
    &&& c.len() == s.len() == c2.len() == s2.len()
    &&& value(Row::Line(cos, p + m)) == sum_cosines(c, s, c2, s2)
    &&& value(Row::Line(sin, p + m)) == sum_sines(c, s, c2, s2)
}

/// A score may be read by the distance of lines: moving a query and a key by `m` lines
/// multiplies the product of each pair of their elements by the squared length of the
/// cosine and sine of line `m`, which is one for an angle, and nothing else.
pub proof fn law_moving_both_keeps_products(
    value: spec_fn(Row) -> Seq<int>,
    q: Turn,
    k: Turn,
    m: int,
    i: int,
)
    requires
        respects_rotation(value),
        q.cos == k.cos,
        q.sin == k.sin,
        q.width == k.width,
        q.width % 2 == 0,
        value(q.row).len() == q.width,
        value(k.row).len() == q.width,
        value(Row::Line(q.cos, m)).len() == q.width / 2,
        lines_add(value, q.cos, q.sin, q.line, m),
        lines_add(value, q.cos, q.sin, k.line, m),
        0 <= i < q.width / 2,
    ensures
        ({
            let (c, s) = (value(Row::Line(q.cos, m))[i], value(Row::Line(q.sin, m))[i]);
            let q2 = Turn { line: q.line + m, ..q };
            let k2 = Turn { line: k.line + m, ..k };
            pair_product(value(turned_row(q2)), value(turned_row(k2)), i) == (c * c + s * s)
                * pair_product(value(turned_row(q)), value(turned_row(k)), i)
        }),
{
    let q2 = Turn { line: q.line + m, ..q };
    let k2 = Turn { line: k.line + m, ..k };
    law_turned_row_is_a_turn(value, q);
    law_turned_row_is_a_turn(value, k);
    law_turned_row_is_a_turn(value, q2);
    law_turned_row_is_a_turn(value, k2);
    law_scores_rest_on_distance(
        value(q.row),
        value(k.row),
        value(Row::Line(q.cos, q.line)),
        value(Row::Line(q.sin, q.line)),
        value(Row::Line(q.cos, k.line)),
        value(Row::Line(q.sin, k.line)),
        value(Row::Line(q.cos, m)),
        value(Row::Line(q.sin, m)),
        i,
    );
}

} // verus!
