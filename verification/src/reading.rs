//! What stands at one position of a tensor.

use crate::depend::{elementwise, is_column, rowwise, weightless};
use crate::mask::blocks;
use crate::sizes::Setting;
use crate::term::{
    broadcast_dims, dim_broadcast, dim_from_last, Binary, DType, Dim, Embedding, Projection, Term,
    Unary,
};
use vstd::prelude::*;

verus! {

/// What stands at one position of a tensor, and how it is computed. Two tensors that
/// have the same row at two positions have the same numbers there, up to rounding.
pub enum Row {
    /// The token at a position of the text.
    Token(int),
    /// The embedding at a position of the text that the caller hands in.
    Embedded(int),
    /// A line of an angle table.
    Line(Term, int),
    /// All of a tensor.
    Whole(Term),
    /// An operation that works on each position by itself.
    Each(Unary, Box<Row>),
    /// An operation that works on each position of two tensors by itself.
    Zip(Binary, Box<Row>, Box<Row>),
    /// A row under other extents behind the axis of the positions.
    Shaped(Box<Row>, Seq<Dim>),
    Project(Projection, Box<Row>),
    Lookup(Embedding, DType, Box<Row>),
    /// Values weighted by the softmax of scores: for each position that is seen, its
    /// score and its value.
    Attend(Map<int, (Row, Row)>),
    /// The product of a query and a key.
    Score(Box<Row>, Box<Row>),
    /// The product of a query and a key turned by lines of the same tables, by what they
    /// are before that and the distance between the lines. Where angles grow with the
    /// line, the product rests on nothing else, as
    /// [`law_moving_both_keeps_products`](crate::relative::law_moving_both_keeps_products)
    /// states.
    Distance { q: Box<Row>, k: Box<Row>, cos: Term, sin: Term, distance: int },
}

impl Row {
    /// The row after an operation on each position.
    pub open spec fn each(self, op: Unary) -> Row {
        Row::Each(op, Box::new(self))
    }

    /// The row after an operation on each position of two tensors.
    pub open spec fn zip(self, op: Binary, other: Row) -> Row {
        Row::Zip(op, Box::new(self), Box::new(other))
    }

    /// The row after a projection.
    pub open spec fn project(self, p: Projection) -> Row {
        Row::Project(p, Box::new(self))
    }

    /// The row under other extents.
    pub open spec fn shaped(self, dims: Seq<Dim>) -> Row {
        Row::Shaped(Box::new(self), dims)
    }
}

/// How rows are read.
pub struct Reading {
    /// The extents of what caches hand back.
    pub s: Setting,
    /// The position in the text of the first row of the input.
    pub base: int,
    /// The angle tables.
    pub tables: Set<Term>,
    /// The keys that the cache of each layer held before.
    pub keys: spec_fn(usize) -> Seq<Row>,
    /// The values that the cache of each layer held before.
    pub values: spec_fn(usize) -> Seq<Row>,
    /// Whether scores of turned queries and keys are read by their distance.
    pub by_distance: bool,
}

impl Reading {
    /// Angle tables are made as a decoder makes them.
    pub open spec fn wf(self) -> bool {
        forall|t: Term| #[trigger]
            self.tables.contains(t) ==> t.dims().len() == 2 && match t {
                Term::Apply(Unary::Sin, _)
                | Term::Apply(Unary::Cos, _)
                | Term::Apply(Unary::Cast(_), _) => true,
                _ => false,
            }
    }

    /// The keys in the cache of a layer before an append, none where it is fresh.
    pub open spec fn held_keys(self, layer: usize, fresh: bool) -> Seq<Row> {
        if fresh {
            Seq::empty()
        } else {
            (self.keys)(layer)
        }
    }

    /// The values in the cache of a layer before an append, none where it is fresh.
    pub open spec fn held_values(self, layer: usize, fresh: bool) -> Seq<Row> {
        if fresh {
            Seq::empty()
        } else {
            (self.values)(layer)
        }
    }
}

/// What stands at position `i` of `t` along `axis`.
///
/// What a cache hands back is what it held before, where it is not fresh, and behind
/// that what is appended.
#[verifier::opaque]
pub open spec fn read(r: Reading, t: Term, axis: int, i: int) -> Row
    decreases t,
{
    if r.tables.contains(t) {
        Row::Line(t, i)
    } else {
        match t {
            Term::TokenIds(_) => if axis == 1 {
                Row::Token(r.base + i)
            } else {
                Row::Whole(t)
            },
            Term::Embeds(_, _) => if axis == 1 {
                Row::Embedded(r.base + i)
            } else {
                Row::Whole(t)
            },
            Term::Apply(op, y) => match op {
                Unary::Transpose(a, b) => if axis == a && (b == a + 1 || a == b + 1) {
                    read(r, *y, b as int, i)
                } else if axis == b && (b == a + 1 || a == b + 1) {
                    read(r, *y, a as int, i)
                } else {
                    Row::Whole(t)
                },
                Unary::UnsqueezeFirst => if axis > 0 {
                    read(r, *y, axis - 1, i).each(op)
                } else {
                    Row::Whole(t)
                },
                Unary::Squeeze(k) => if axis < k {
                    read(r, *y, axis, i).each(op)
                } else {
                    Row::Whole(t)
                },
                Unary::Narrow { axis: k, start, .. } => if axis == k {
                    read(r, *y, axis, start + i)
                } else {
                    read(r, *y, axis, i).each(op)
                },
                _ => if rowwise(op, axis, y.dims().len()) {
                    read(r, *y, axis, i).each(op)
                } else {
                    Row::Whole(t)
                },
            },
            Term::Combine(Binary::Matmul, p, v) => match *p {
                Term::Apply(Unary::SoftmaxLast, y) => if axis == p.dims().len() - 2 {
                    Row::Attend(
                        Map::new(
                            |j: int| is_column(r.s, *p, j) && !weightless(*p, i, j),
                            |j: int| (read_score(r, *y, i, j), read(r, *v, axis, j)),
                        ),
                    )
                } else {
                    Row::Whole(t)
                },
                _ => Row::Whole(t),
            },
            Term::Combine(op, a, b) => if op == Binary::CatLast && axis >= a.dims().len() - 1 {
                Row::Whole(t)
            } else {
                let ka = axis - (t.dims().len() - a.dims().len());
                let kb = axis - (t.dims().len() - b.dims().len());
                let left = if 0 <= ka && a.dims()[ka] == t.dims()[axis] {
                    read(r, *a, ka, i)
                } else {
                    Row::Whole(*a)
                };
                let right = if 0 <= kb && b.dims()[kb] == t.dims()[axis] {
                    read(r, *b, kb, i)
                } else {
                    Row::Whole(*b)
                };
                left.zip(op, right)
            },
            Term::Reshape(y, dims) => if axis < y.dims().len() && axis < dims.len()
                && y.dims().take(axis + 1) == dims.take(axis + 1) {
                read(r, *y, axis, i).shaped(dims.skip(axis + 1))
            } else {
                Row::Whole(t)
            },
            Term::Project(p, y) => if axis < y.dims().len() - 1 {
                read(r, *y, axis, i).project(p)
            } else {
                Row::Whole(t)
            },
            Term::Lookup(table, dtype, ids) => if axis < ids.dims().len() {
                Row::Lookup(table, dtype, Box::new(read(r, *ids, axis, i)))
            } else {
                Row::Whole(t)
            },
            Term::CachedKeys(a) => match *a {
                Term::Append { layer, fresh, k, .. } => if axis == 2 {
                    let held = r.held_keys(layer, fresh);
                    if i < held.len() {
                        held[i]
                    } else {
                        read(r, *k, 2, i - held.len())
                    }
                } else {
                    Row::Whole(t)
                },
                _ => Row::Whole(t),
            },
            Term::CachedValues(a) => match *a {
                Term::Append { layer, fresh, v, .. } => if axis == 2 {
                    let held = r.held_values(layer, fresh);
                    if i < held.len() {
                        held[i]
                    } else {
                        read(r, *v, 2, i - held.len())
                    }
                } else {
                    Row::Whole(t)
                },
                _ => Row::Whole(t),
            },
            _ => Row::Whole(t),
        }
    }
}

/// The score in row `i` and column `j` of `t`, before a mask is added.
#[verifier::opaque]
pub open spec fn read_score(r: Reading, t: Term, i: int, j: int) -> Row
    decreases t,
{
    match t {
        Term::Combine(Binary::BroadcastAdd, scores, _) => read_score(r, *scores, i, j),
        Term::Combine(Binary::Matmul, a, b) => score_row(
            r.by_distance,
            read(r, *a, a.dims().len() - 2, i),
            read(r, *b, b.dims().len() - 1, j),
        ),
        _ => Row::Whole(t),
    }
}

/// A row turned by a line of angle tables.
pub struct Turn {
    pub row: Row,
    pub cos: Term,
    pub sin: Term,
    pub line: int,
    /// The number of elements that are turned.
    pub width: usize,
}

/// A line of a table repeated for both halves of a head.
pub open spec fn halves_row(table: Term, line: int) -> Row {
    let once = Row::Line(table, line);
    once.zip(Binary::CatLast, once).each(Unary::UnsqueezeFirst).each(Unary::UnsqueezeFirst)
}

/// The row after the turn.
pub open spec fn turned_row(t: Turn) -> Row {
    let w = t.width;
    let low = t.row.each(Unary::NarrowLast { start: 0, count: w / 2 });
    let high = t.row.each(Unary::NarrowLast { start: w / 2, count: (w - w / 2) as usize });
    let half = high.each(Unary::Neg).zip(Binary::CatLast, low);
    t.row.zip(Binary::BroadcastMul, halves_row(t.cos, t.line)).zip(
        Binary::Add,
        half.zip(Binary::BroadcastMul, halves_row(t.sin, t.line)),
    )
}

/// A key/value head repeated for its queries.
pub open spec fn repeated_row(times: usize, row: Row) -> Row {
    row.each(Unary::RepeatKv(times)).each(Unary::Contiguous)
}

/// Whether a query and a key are the given ones, turned by lines of the same tables.
pub open spec fn both_turned(q: Row, k: Row, a: Turn, b: Turn, times: usize) -> bool {
    &&& q == turned_row(a)
    &&& k == repeated_row(times, turned_row(b))
    &&& a.cos == b.cos
    &&& a.sin == b.sin
    &&& a.width == b.width
}

/// The score of a query and a key: where both are turned by lines of the same tables, by
/// the distance of these lines, if it is to be read so.
pub open spec fn score_row(by_distance: bool, q: Row, k: Row) -> Row {
    if by_distance && exists|a: Turn, b: Turn, times: usize| both_turned(q, k, a, b, times) {
        let (a, b, times) = choose|a: Turn, b: Turn, times: usize| both_turned(q, k, a, b, times);
        Row::Distance {
            q: Box::new(a.row),
            k: Box::new(repeated_row(times, b.row)),
            cos: a.cos,
            sin: a.sin,
            distance: a.line - b.line,
        }
    } else {
        Row::Score(Box::new(q), Box::new(k))
    }
}

/// The score of a query and a key turned by lines of the same tables.
pub proof fn lemma_score_by_distance(a: Turn, b: Turn, times: usize)
    requires
        a.cos == b.cos,
        a.sin == b.sin,
        a.width == b.width,
    ensures
        score_row(true, turned_row(a), repeated_row(times, turned_row(b))) == (Row::Distance {
            q: Box::new(a.row),
            k: Box::new(repeated_row(times, b.row)),
            cos: a.cos,
            sin: a.sin,
            distance: a.line - b.line,
        }),
{
    let (q, k) = (turned_row(a), repeated_row(times, turned_row(b)));
    assert(both_turned(q, k, a, b, times));
    let (c, d, n) = choose|c: Turn, d: Turn, n: usize| both_turned(q, k, c, d, n);
    assert(both_turned(q, k, c, d, n));
    assert(turned_row(a) == turned_row(c));
    assert(turned_row(b) == turned_row(d));
}

/// An operation on each position by itself.
pub proof fn lemma_read_rowwise(r: Reading, y: Term, op: Unary, axis: int)
    requires
        r.wf(),
        0 <= axis < y.dims().len(),
        y.dims().len() >= 3,
        rowwise(op, axis, y.dims().len()),
    ensures
        y.apply(op).dims().len() == y.dims().len(),
        y.apply(op).dims()[axis] == y.dims()[axis],
        forall|i: int| #[trigger]
            read(r, y.apply(op), axis, i) == read(r, y, axis, i).each(op),
{
    let t = y.apply(op);
    assert(t.dims().len() == y.dims().len());
    assert(!r.tables.contains(t));
    assert forall|i: int| #[trigger]
        read(r, t, axis, i) == read(r, y, axis, i).each(op) by {
        reveal(read);
    }
}

/// Neighbouring axes exchanged.
pub proof fn lemma_read_transposed(r: Reading, y: Term, a: usize, b: usize)
    requires
        r.wf(),
        y.dims().len() >= 3,
        a < y.dims().len(),
        b < y.dims().len(),
        b == a + 1,
    ensures
        forall|i: int| #[trigger]
            read(r, y.apply(Unary::Transpose(a, b)), b as int, i) == read(r, y, a as int, i),
        forall|i: int| #[trigger]
            read(r, y.apply(Unary::Transpose(a, b)), a as int, i) == read(r, y, b as int, i),
{
    let t = y.apply(Unary::Transpose(a, b));
    assert(t.dims().len() == y.dims().len());
    assert(!r.tables.contains(t));
    assert forall|i: int| #[trigger] read(r, t, b as int, i) == read(r, y, a as int, i) by {
        reveal(read);
    }
    assert forall|i: int| #[trigger] read(r, t, a as int, i) == read(r, y, b as int, i) by {
        reveal(read);
    }
}

/// A later axis removed.
pub proof fn lemma_read_squeezed(r: Reading, y: Term, k: usize, axis: int)
    requires
        r.wf(),
        y.dims().len() >= 4,
        0 <= axis < k < y.dims().len(),
    ensures
        forall|i: int| #[trigger]
            read(r, y.apply(Unary::Squeeze(k)), axis, i) == read(r, y, axis, i).each(
                Unary::Squeeze(k),
            ),
{
    let t = y.apply(Unary::Squeeze(k));
    assert(t.dims().len() == y.dims().len() - 1);
    assert(!r.tables.contains(t));
    assert forall|i: int| #[trigger]
        read(r, t, axis, i) == read(r, y, axis, i).each(Unary::Squeeze(k)) by {
        reveal(read);
    }
}

/// Some positions taken.
pub proof fn lemma_read_narrowed(r: Reading, y: Term, axis: usize, start: usize, len: Dim)
    requires
        r.wf(),
    ensures
        forall|i: int| #[trigger]
            read(r, y.apply(Unary::Narrow { axis, start, len }), axis as int, i) == read(
                r,
                y,
                axis as int,
                start + i,
            ),
{
    let t = y.apply(Unary::Narrow { axis, start, len });
    assert(!r.tables.contains(t));
    assert forall|i: int| #[trigger]
        read(r, t, axis as int, i) == read(r, y, axis as int, start + i) by {
        reveal(read);
    }
}

/// Other extents behind the positions.
pub proof fn lemma_read_reshaped(r: Reading, y: Term, dims: Seq<Dim>, axis: int)
    requires
        r.wf(),
        0 <= axis < y.dims().len(),
        axis < dims.len(),
        y.dims().take(axis + 1) == dims.take(axis + 1),
    ensures
        forall|i: int| #[trigger]
            read(r, y.reshape(dims), axis, i) == read(r, y, axis, i).shaped(
                dims.skip(axis + 1),
            ),
{
    let t = y.reshape(dims);
    assert(!r.tables.contains(t));
    assert forall|i: int| #[trigger]
        read(r, t, axis, i) == read(r, y, axis, i).shaped(dims.skip(axis + 1)) by {
        reveal(read);
    }
}

/// A projection.
pub proof fn lemma_read_projected(r: Reading, y: Term, p: Projection, axis: int)
    requires
        r.wf(),
        0 <= axis < y.dims().len() - 1,
    ensures
        forall|i: int| #[trigger]
            read(r, y.project(p), axis, i) == read(r, y, axis, i).project(p),
{
    let t = y.project(p);
    assert(!r.tables.contains(t));
    assert forall|i: int| #[trigger]
        read(r, t, axis, i) == read(r, y, axis, i).project(p) by {
        reveal(read);
    }
}

/// Two tensors with the same positions.
pub proof fn lemma_read_together(r: Reading, a: Term, op: Binary, b: Term, axis: int)
    requires
        r.wf(),
        0 <= axis < a.dims().len(),
        a.dims().len() == b.dims().len(),
        elementwise(op) || (op == Binary::CatLast && axis < a.dims().len() - 1),
        a.dims()[axis] == b.dims()[axis],
    ensures
        a.combine(op, b).dims().len() == a.dims().len(),
        a.combine(op, b).dims()[axis] == a.dims()[axis],
        forall|i: int| #[trigger]
            read(r, a.combine(op, b), axis, i) == read(r, a, axis, i).zip(
                op,
                read(r, b, axis, i),
            ),
{
    let t = a.combine(op, b);
    assert(t.dims().len() == a.dims().len());
    assert(t.dims()[axis] == a.dims()[axis]);
    assert(!r.tables.contains(t));
    assert forall|i: int| #[trigger]
        read(r, t, axis, i) == read(r, a, axis, i).zip(
        op,
        read(r, b, axis, i),
    ) by {
        reveal(read);
    }
}

/// A tensor and one without that axis.
pub proof fn lemma_read_with_whole(r: Reading, a: Term, op: Binary, b: Term, axis: int)
    requires
        r.wf(),
        0 <= axis < a.dims().len() - b.dims().len(),
        elementwise(op),
        a.combine(op, b).dims()[axis] == a.dims()[axis],
    ensures
        forall|i: int| #[trigger]
            read(r, a.combine(op, b), axis, i) == read(r, a, axis, i).zip(
                op,
                Row::Whole(b),
            ),
{
    let t = a.combine(op, b);
    assert(!r.tables.contains(t));
    if op == Binary::Add || op == Binary::Mul {
        assert(t.dims() == a.dims());
    } else {
        assert(t.dims().len() == a.dims().len());
    }
    assert forall|i: int| #[trigger]
        read(r, t, axis, i) == read(r, a, axis, i).zip(
        op,
        Row::Whole(b),
    ) by {
        reveal(read);
    }
}

/// The rows of a table that tokens select.
pub proof fn lemma_read_looked_up(r: Reading, ids: Term, table: Embedding, dtype: DType)
    requires
        r.wf(),
        ids is TokenIds,
        ids.dims().len() == 2,
    ensures
        forall|i: int| #[trigger]
            read(r, Term::Lookup(table, dtype, Box::new(ids)), 1, i) == Row::Lookup(
                table,
                dtype,
                Box::new(Row::Token(r.base + i)),
            ),
{
    let t = Term::Lookup(table, dtype, Box::new(ids));
    assert forall|i: int| #[trigger]
        read(r, t, 1, i) == Row::Lookup(table, dtype, Box::new(Row::Token(r.base + i))) by {
        assert(read(r, ids, 1, i) == Row::Token(r.base + i)) by {
            reveal(read);
        }
        reveal(read);
    }
}

/// What a cache hands back.
pub proof fn lemma_read_cached(r: Reading, layer: usize, fresh: bool, k: Term, v: Term)
    requires
        r.wf(),
    ensures
        ({
            let action = Term::Append { layer, fresh, k: Box::new(k), v: Box::new(v) };
            let (keys, values) = (r.held_keys(layer, fresh), r.held_values(layer, fresh));
            &&& forall|i: int| #[trigger]
                read(r, Term::CachedKeys(Box::new(action)), 2, i) == if i < keys.len() {
                    keys[i]
                } else {
                    read(r, k, 2, i - keys.len())
                }
            &&& forall|i: int| #[trigger]
                read(r, Term::CachedValues(Box::new(action)), 2, i) == if i < values.len() {
                    values[i]
                } else {
                    read(r, v, 2, i - values.len())
                }
        }),
{
    let action = Term::Append { layer, fresh, k: Box::new(k), v: Box::new(v) };
    let (keys, values) = (r.held_keys(layer, fresh), r.held_values(layer, fresh));
    assert forall|i: int| #[trigger]
        read(r, Term::CachedKeys(Box::new(action)), 2, i) == if i < keys.len() {
            keys[i]
        } else {
            read(r, k, 2, i - keys.len())
        } by {
        reveal(read);
    }
    assert forall|i: int| #[trigger]
        read(r, Term::CachedValues(Box::new(action)), 2, i) == if i < values.len() {
            values[i]
        } else {
            read(r, v, 2, i - values.len())
        } by {
        reveal(read);
    }
}

/// The rows of the first `count` positions along axis two that a mask lets row `i` see.
pub open spec fn seen(
    r: Reading,
    t: Term,
    count: nat,
    mask: Option<Term>,
    i: int,
) -> Map<int, Row> {
    Map::new(
        |j: int| 0 <= j < count && !(mask matches Some(m) && blocks(m, i, j)),
        |j: int| read(r, t, 2, j),
    )
}

/// Values weighted by the softmax of a query's scores with keys.
pub open spec fn attended_row(
    by_distance: bool,
    times: usize,
    q: Row,
    keys: Map<int, Row>,
    values: Map<int, Row>,
) -> Row {
    Row::Attend(
        Map::new(
            |j: int| keys.contains_key(j),
            |j: int|
                (
                    score_row(by_distance, q, repeated_row(times, keys[j])),
                    repeated_row(times, values[j]),
                ),
        ),
    )
}

/// Queries against keys, and values weighted by that.
pub proof fn lemma_read_attended(
    r: Reading,
    q: Term,
    k: Term,
    v: Term,
    mask: Option<Term>,
    times: usize,
    count: nat,
    out: Term,
)
    requires
        r.wf(),
        q.dims().len() == 4,
        k.dims().len() == 4,
        v.dims().len() == 4,
        r.s.size(k.dims()[2]) == count,
        mask matches Some(m) ==> m.dims().len() == 4 && dim_broadcast(
            k.dims()[2],
            m.dims()[3],
        ) == k.dims()[2],
        ({
            let keys = k.apply(Unary::RepeatKv(times)).apply(Unary::Contiguous);
            let values = v.apply(Unary::RepeatKv(times)).apply(Unary::Contiguous);
            let scores = q.combine(Binary::Matmul, keys.apply(Unary::Transpose(2, 3)));
            let masked = match mask {
                Some(m) => scores.combine(Binary::BroadcastAdd, m),
                None => scores,
            };
            out == masked.apply(Unary::SoftmaxLast).combine(Binary::Matmul, values)
        }),
    ensures
        forall|i: int| #[trigger]
            read(r, out, 2, i) == attended_row(
                r.by_distance,
                times,
                read(r, q, 2, i),
                seen(r, k, count, mask, i),
                seen(r, v, count, mask, i),
            ),
{
    let repeat = Unary::RepeatKv(times);
    let k_rep = k.apply(repeat);
    let keys = k_rep.apply(Unary::Contiguous);
    let v_rep = v.apply(repeat);
    let values = v_rep.apply(Unary::Contiguous);
    lemma_read_rowwise(r, k, repeat, 2);
    lemma_read_rowwise(r, k_rep, Unary::Contiguous, 2);
    lemma_read_rowwise(r, v, repeat, 2);
    lemma_read_rowwise(r, v_rep, Unary::Contiguous, 2);
    let kt = keys.apply(Unary::Transpose(2, 3));
    lemma_read_transposed(r, keys, 2, 3);
    let scores = q.combine(Binary::Matmul, kt);
    assert(kt.dims().len() == 4 && kt.dims()[3] == k.dims()[2]);
    assert(scores.dims().len() == 4 && scores.dims()[3] == k.dims()[2]);
    let masked = match mask {
        Some(m) => scores.combine(Binary::BroadcastAdd, m),
        None => scores,
    };
    if let Some(m) = mask {
        assert(masked.dims() == broadcast_dims(scores.dims(), m.dims()));
        assert(dim_from_last(scores.dims(), 0) == k.dims()[2]);
        assert(dim_from_last(m.dims(), 0) == m.dims()[3]);
    }
    assert(masked.dims().len() == 4 && masked.dims()[3] == k.dims()[2]);
    let probs = masked.apply(Unary::SoftmaxLast);
    assert(out == probs.combine(Binary::Matmul, values));
    assert(probs.dims() == masked.dims());
    assert forall|i: int| #[trigger]
        read(r, out, 2, i) == attended_row(
            r.by_distance,
            times,
            read(r, q, 2, i),
            seen(r, k, count, mask, i),
            seen(r, v, count, mask, i),
        ) by {
        let entries = Map::new(
            |j: int| is_column(r.s, probs, j) && !weightless(probs, i, j),
            |j: int| (read_score(r, masked, i, j), read(r, values, 2, j)),
        );
        assert(read(r, out, 2, i) is Attend && read(r, out, 2, i)->Attend_0 =~= entries) by {
            reveal(read);
            reveal(read_score);
        }
        let (ks, vs) = (seen(r, k, count, mask, i), seen(r, v, count, mask, i));
        let wanted = Map::new(
            |j: int| ks.contains_key(j),
            |j: int|
                (
                    score_row(r.by_distance, read(r, q, 2, i), repeated_row(times, ks[j])),
                    repeated_row(times, vs[j]),
                ),
        );
        assert forall|j: int| #[trigger] entries.contains_key(j) == wanted.contains_key(j) by {
            assert(probs.dims().last() == k.dims()[2]);
        }
        assert forall|j: int| #[trigger] wanted.contains_key(j) implies entries[j] == wanted[j] by {
            lemma_read_score(r, q, kt, mask, i, j);
            assert(read(r, kt, 3, j) == read(r, keys, 2, j));
            assert(read(r, values, 2, j) == repeated_row(times, read(r, v, 2, j)));
            assert(ks[j] == read(r, k, 2, j) && vs[j] == read(r, v, 2, j));
        }
        assert(entries =~= wanted);
    }
}

/// A score under a mask.
proof fn lemma_read_score(r: Reading, q: Term, kt: Term, mask: Option<Term>, i: int, j: int)
    requires
        q.dims().len() == 4,
        kt.dims().len() == 4,
    ensures
        ({
            let scores = q.combine(Binary::Matmul, kt);
            let masked = match mask {
                Some(m) => scores.combine(Binary::BroadcastAdd, m),
                None => scores,
            };
            read_score(r, masked, i, j) == score_row(
                r.by_distance,
                read(r, q, 2, i),
                read(r, kt, 3, j),
            )
        }),
{
    let scores = q.combine(Binary::Matmul, kt);
    assert(read_score(r, scores, i, j) == score_row(
        r.by_distance,
        read(r, q, 2, i),
        read(r, kt, 3, j),
    )) by {
        reveal(read_score);
        reveal(read);
    }
    if let Some(m) = mask {
        let masked = scores.combine(Binary::BroadcastAdd, m);
        assert(read_score(r, masked, i, j) == read_score(r, scores, i, j)) by {
            reveal(read_score);
            reveal(read);
        }
    }
}

} // verus!
