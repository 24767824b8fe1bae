//! Rotary position embeddings.

use crate::parts::{group_parts, lemma_part_trans, parts};
use crate::refusal::Refusal;
use crate::tape::{Tape, Tensor};
use crate::term::{broadcast_dims, Binary, DType, Dim, F64Bits, Precision, Term, Unary};
use vstd::prelude::*;

verus! {

broadcast use {
    crate::tape::group_tape,
    crate::tape::group_adds,
    crate::parts::group_parts,
};

/// The number that an extent stands for, where it is known.
pub open spec fn known(d: Dim) -> usize {
    match d {
        Dim::Fixed(n) => n,
        Dim::Cached(_) => 0,
    }
}

/// Whether a tensor has axes, the last of which has a known extent.
pub open spec fn known_width(x: Term) -> bool {
    x.dims().len() > 0 && x.dims().last() is Fixed
}

/// Whether the last axis of a tensor, where it has axes, has a known extent.
pub open spec fn width_known(x: Term) -> bool {
    x.dims().len() > 0 ==> x.dims().last() is Fixed
}

/// The second half of the last axis negated, and then the first half.
pub open spec fn rotate_half(x: Term) -> Term {
    let dim = known(x.dims().last());
    let first = x.apply(Unary::NarrowLast { start: 0, count: dim / 2 });
    let second = x.apply(
        Unary::NarrowLast { start: dim / 2, count: (dim - dim / 2) as usize },
    );
    second.apply(Unary::Neg).combine(Binary::CatLast, first)
}

/// An angle table repeated for both halves of a head, for all batches and heads.
pub open spec fn both_halves(table: Term) -> Term {
    table.combine(Binary::CatLast, table).apply(Unary::UnsqueezeFirst).apply(Unary::UnsqueezeFirst)
}

/// `x` rotated by the angles of which `cos` and `sin` are tables.
pub open spec fn rotated(x: Term, cos: Term, sin: Term) -> Term {
    x.combine(Binary::BroadcastMul, both_halves(cos)).combine(
        Binary::Add,
        rotate_half(x).combine(Binary::BroadcastMul, both_halves(sin)),
    )
}

/// The rows of a table for `len` positions from `offset` on.
pub open spec fn rows(table: Term, offset: usize, len: Dim) -> Term {
    table.apply(Unary::Narrow { axis: 0, start: offset, len })
}

/// `x` rotated by the angles of `len` positions from `offset` on.
pub open spec fn turned(x: Term, sin: Term, cos: Term, offset: usize, len: Dim) -> Term {
    rotated(x, rows(cos, offset, len), rows(sin, offset, len))
}

/// Why a table has no rows for `len` positions from `offset` on, where it has none.
pub open spec fn past(table: Term, offset: usize, len: Dim) -> Option<Refusal> {
    if table.dims().len() == 0 {
        Some(Refusal::NoAxis)
    } else {
        match (table.dims()[0], len) {
            (Dim::Fixed(size), Dim::Fixed(n)) => if offset + n > size {
                Some(Refusal::Range { start: offset, len: n, size })
            } else {
                None
            },
            _ => None,
        }
    }
}

/// Why a pair of tables has no rows for `len` positions from `offset` on, where one of
/// them has none.
pub open spec fn past_tables(sin: Term, cos: Term, offset: usize, len: Dim) -> Option<Refusal> {
    match past(cos, offset, len) {
        Some(e) => Some(e),
        None => past(sin, offset, len),
    }
}

/// Checks that a table has rows for `len` positions from `offset` on.
fn check_rows(tape: &Tape, table: &Tensor, offset: usize, len: Dim) -> (r: Option<Refusal>)
    requires
        tape.wf(),
        tape.holds(*table),
    ensures
        r == past(table@, offset, len),
{
    let dims = tape.dims(table);
    if dims.len() == 0 {
        return Some(Refusal::NoAxis);
    }
    match (dims[0], len) {
        (Dim::Fixed(size), Dim::Fixed(n)) => if offset > size || n > size - offset {
            Some(Refusal::Range { start: offset, len: n, size })
        } else {
            None
        },
        _ => None,
    }
}

/// Negates the second half of the last axis and puts it in front of the first.
fn rotate_half_of(tape: &mut Tape, x: &Tensor, dim: usize) -> (r: Tensor)
    requires
        old(tape).wf(),
        old(tape).holds(*x),
        x@.dims().last() == Dim::Fixed(dim),
    ensures
        final(tape).computes(*old(tape), parts(r@)),
        final(tape).holds(r),
        r@ == rotate_half(x@),
{
    let x1 = tape.apply(Unary::NarrowLast { start: 0, count: dim / 2 }, x);
    let x2 = tape.apply(Unary::NarrowLast { start: dim / 2, count: dim - dim / 2 }, x);
    let negated = tape.apply(Unary::Neg, &x2);
    tape.combine(Binary::CatLast, &negated, &x1)
}

/// Repeats an angle table for both halves of a head.
fn repeat_table(tape: &mut Tape, table: &Tensor) -> (r: Tensor)
    requires
        old(tape).wf(),
        old(tape).holds(*table),
    ensures
        final(tape).computes(*old(tape), parts(r@)),
        final(tape).holds(r),
        r@ == both_halves(table@),
{
    let twice = tape.combine(Binary::CatLast, table, table);
    let once = tape.apply(Unary::UnsqueezeFirst, &twice);
    tape.apply(Unary::UnsqueezeFirst, &once)
}

/// The known extent of the last axis of a tensor.
fn width(tape: &Tape, x: &Tensor) -> (r: usize)
    requires
        tape.wf(),
        tape.holds(*x),
        known_width(x@),
    ensures
        x@.dims().last() == Dim::Fixed(r),
{
    match tape.last_dim(x) {
        Ok(Dim::Fixed(n)) => n,
        _ => 0,
    }
}

/// Rotates one tensor, given tables that are repeated already.
fn rotate(tape: &mut Tape, x: &Tensor, cos: &Tensor, sin: &Tensor) -> (r: Tensor)
    requires
        old(tape).wf(),
        old(tape).holds(*x),
        old(tape).holds(*cos),
        old(tape).holds(*sin),
        known_width(x@),
    ensures
        final(tape).computes(*old(tape), parts(r@)),
        final(tape).holds(r),
        r@ == x@.combine(Binary::BroadcastMul, cos@).combine(
            Binary::Add,
            rotate_half(x@).combine(Binary::BroadcastMul, sin@),
        ),
{
    let dim = width(tape, x);
    let straight = tape.combine(Binary::BroadcastMul, x, cos);
    let half = rotate_half_of(tape, x, dim);
    let turned = tape.combine(Binary::BroadcastMul, &half, sin);
    tape.combine(Binary::Add, &straight, &turned)
}

/// A table is part of itself repeated for both halves.
proof fn lemma_table_part(table: Term)
    ensures
        table.part_of(both_halves(table)),
{
    let twice = table.combine(Binary::CatLast, table);
    let once = twice.apply(Unary::UnsqueezeFirst);
    lemma_part_trans(table, twice, once);
    lemma_part_trans(table, once, both_halves(table));
}

/// A tensor and its angle tables are parts of the rotated tensor.
pub broadcast proof fn lemma_rotated_parts(x: Term, cos: Term, sin: Term)
    ensures
        x.part_of(#[trigger] rotated(x, cos, sin)),
        cos.part_of(rotated(x, cos, sin)),
        sin.part_of(rotated(x, cos, sin)),
        both_halves(cos).part_of(rotated(x, cos, sin)),
        both_halves(sin).part_of(rotated(x, cos, sin)),
{
    let all = rotated(x, cos, sin);
    let straight = x.combine(Binary::BroadcastMul, both_halves(cos));
    let turned = rotate_half(x).combine(Binary::BroadcastMul, both_halves(sin));
    lemma_part_trans(x, straight, all);
    lemma_part_trans(both_halves(cos), straight, all);
    lemma_part_trans(both_halves(sin), turned, all);
    lemma_table_part(cos);
    lemma_table_part(sin);
    lemma_part_trans(cos, both_halves(cos), all);
    lemma_part_trans(sin, both_halves(sin), all);
}

/// Rotates queries and keys, the halves of a head against each other.
pub fn apply_gemma4_rope(
    tape: &mut Tape,
    q: &Tensor,
    k: &Tensor,
    cos: &Tensor,
    sin: &Tensor,
) -> (r: Result<(Tensor, Tensor), Refusal>)
    requires
        old(tape).wf(),
        old(tape).holds(*q),
        old(tape).holds(*k),
        old(tape).holds(*cos),
        old(tape).holds(*sin),
        width_known(q@),
        width_known(k@),
    ensures
        ({
            let axes = q@.dims().len() > 0 && k@.dims().len() > 0 && cos@.dims().len() > 0
                && sin@.dims().len() > 0;
            match r {
                Ok((q2, k2)) => {
                    &&& axes
                    &&& final(tape).computes(*old(tape), parts(q2@).union(parts(k2@)))
                    &&& final(tape).holds(q2)
                    &&& final(tape).holds(k2)
                    &&& q2@ == rotated(q@, cos@, sin@)
                    &&& k2@ == rotated(k@, cos@, sin@)
                },
                Err(e) => !axes && e == Refusal::NoAxis && *final(tape) == *old(tape),
            }
        }),
{
    if tape.dims(cos).len() == 0 || tape.dims(sin).len() == 0 || tape.dims(q).len() == 0
        || tape.dims(k).len() == 0 {
        return Err(Refusal::NoAxis);
    }
    let cos2 = repeat_table(tape, cos);
    let sin2 = repeat_table(tape, sin);
    let q_embed = rotate(tape, q, &cos2, &sin2);
    let k_embed = rotate(tape, k, &cos2, &sin2);
    proof {
        lemma_rotated_parts(q@, cos@, sin@);
    }
    Ok((q_embed, k_embed))
}

/// The tables of a rotary embedding: a row of angles for each position.
#[derive(Clone, Copy)]
pub struct RotaryEmbedding {
    pub sin: Tensor,
    pub cos: Tensor,
}

/// Every even number below `head_dim`.
pub open spec fn even_numerators(head_dim: usize) -> Seq<Option<usize>> {
    Seq::new((head_dim / 2 + head_dim % 2) as nat, |i: int| Some((2 * i) as usize))
}

/// The first `angles` even numbers, and then nothing up to half of `head_dim`.
pub open spec fn padded_numerators(head_dim: usize, angles: usize) -> Seq<Option<usize>> {
    Seq::new(
        (head_dim / 2) as nat,
        |i: int|
            if i < angles {
                Some((2 * i) as usize)
            } else {
                None
            },
    )
}

/// The angle of each of `positions` positions under each of a row of frequencies.
pub open spec fn angles(inv_freq: Term, positions: usize, dtype: DType) -> Term {
    Term::Arange(positions as u32).apply(Unary::Cast(dtype)).reshape(
        seq![Dim::Fixed(positions), Dim::Fixed(1)],
    ).combine(Binary::Matmul, inv_freq)
}

/// The angles of layers with sliding attention.
pub open spec fn local_angles(
    dtype: DType,
    head_dim: usize,
    theta: F64Bits,
    positions: usize,
) -> Term {
    angles(
        (Term::InvFreq {
            numerators: even_numerators(head_dim),
            head_dim,
            theta,
            precision: Precision::Double,
        }).apply(Unary::Cast(dtype)),
        positions,
        dtype,
    )
}

/// The angles of layers with full attention.
pub open spec fn global_angles(
    head_dim: usize,
    theta: F64Bits,
    rope_angles: usize,
    positions: usize,
) -> Term {
    angles(
        Term::InvFreq {
            numerators: padded_numerators(head_dim, rope_angles),
            head_dim,
            theta,
            precision: Precision::Single,
        },
        positions,
        DType::F32,
    )
}

/// Records the angles of each position under a row of frequencies.
fn record_angles(tape: &mut Tape, inv_freq: &Tensor, positions: usize, dtype: DType) -> (r: Tensor)
    requires
        old(tape).wf(),
        old(tape).holds(*inv_freq),
    ensures
        final(tape).computes(*old(tape), parts(r@)),
        final(tape).holds(r),
        r@ == angles(inv_freq@, positions, dtype),
{
    let count = tape.arange(positions as u32);
    let typed = tape.apply(Unary::Cast(dtype), &count);
    let dims: Vec<Dim> = vec![Dim::Fixed(positions), Dim::Fixed(1)];
    assert(dims@ =~= seq![Dim::Fixed(positions), Dim::Fixed(1)]);
    let t = tape.reshape(&typed, dims);
    tape.combine(Binary::Matmul, &t, inv_freq)
}

impl RotaryEmbedding {
    /// Whether the tables are tensors of a tape.
    pub open spec fn on(self, tape: Tape) -> bool {
        tape.holds(self.sin) && tape.holds(self.cos)
    }

    /// Records the tables of layers with sliding attention.
    pub fn new(
        tape: &mut Tape,
        dtype: DType,
        head_dim: usize,
        rope_theta: F64Bits,
        max_seq_len: usize,
    ) -> (r: RotaryEmbedding)
        requires
            old(tape).wf(),
        ensures
            final(tape).computes(*old(tape), parts(r.sin@).union(parts(r.cos@))),
            r.on(*final(tape)),
            r.sin@ == local_angles(dtype, head_dim, rope_theta, max_seq_len).apply(Unary::Sin),
            r.cos@ == local_angles(dtype, head_dim, rope_theta, max_seq_len).apply(Unary::Cos),
    {
        let half: usize = head_dim / 2 + head_dim % 2;
        let mut numerators: Vec<Option<usize>> = Vec::new();
        for i in 0..half
            invariant
                half == head_dim / 2 + head_dim % 2,
                numerators@ == even_numerators(head_dim).take(i as int),
        {
            numerators.push(Some(2 * i));
            assert(even_numerators(head_dim).take(i + 1) =~= even_numerators(head_dim).take(
                i as int,
            ).push(even_numerators(head_dim)[i as int]));
        }
        assert(even_numerators(head_dim).take(half as int) =~= even_numerators(head_dim));
        let inv_freq = tape.inv_freq(numerators, head_dim, rope_theta, Precision::Double);
        let typed = tape.apply(Unary::Cast(dtype), &inv_freq);
        let freqs = record_angles(tape, &typed, max_seq_len, dtype);
        let sin = tape.apply(Unary::Sin, &freqs);
        let cos = tape.apply(Unary::Cos, &freqs);
        RotaryEmbedding { sin, cos }
    }

    /// Rotates queries and keys at the positions from `seqlen_offset` on.
    pub fn apply_rotary_emb_qkv(
        &self,
        tape: &mut Tape,
        q: &Tensor,
        k: &Tensor,
        seqlen_offset: usize,
    ) -> (r: Result<(Tensor, Tensor), Refusal>)
        requires
            old(tape).wf(),
            self.on(*old(tape)),
            old(tape).holds(*q),
            old(tape).holds(*k),
            width_known(q@),
            width_known(k@),
        ensures
            match r {
                Ok((q2, k2)) => {
                    &&& q@.dims().len() == 4
                    &&& k@.dims().len() > 0
                    &&& past_tables(self.sin@, self.cos@, seqlen_offset, q@.dims()[2]) is None
                    &&& final(tape).computes(*old(tape), parts(q2@).union(parts(k2@)))
                    &&& final(tape).holds(q2)
                    &&& final(tape).holds(k2)
                    &&& q2@ == turned(q@, self.sin@, self.cos@, seqlen_offset, q@.dims()[2])
                    &&& k2@ == turned(k@, self.sin@, self.cos@, seqlen_offset, q@.dims()[2])
                },
                Err(e) => {
                    &&& *final(tape) == *old(tape)
                    &&& if q@.dims().len() != 4 {
                        e == (Refusal::Rank { expected: 4, found: q@.dims().len() as usize })
                    } else {
                        match past_tables(self.sin@, self.cos@, seqlen_offset, q@.dims()[2]) {
                            Some(past) => e == past,
                            None => k@.dims().len() == 0 && e == Refusal::NoAxis,
                        }
                    }
                },
            },
    {
        let (_b_sz, _h, seq_len, _n_embd) = match tape.dims4(q) {
            Ok(d) => d,
            Err(e) => {
                return Err(e);
            },
        };
        if let Some(e) = check_rows(tape, &self.cos, seqlen_offset, seq_len) {
            return Err(e);
        }
        if let Some(e) = check_rows(tape, &self.sin, seqlen_offset, seq_len) {
            return Err(e);
        }
        if tape.dims(k).len() == 0 {
            return Err(Refusal::NoAxis);
        }
        let cos = tape.apply(
            Unary::Narrow { axis: 0, start: seqlen_offset, len: seq_len },
            &self.cos,
        );
        let sin = tape.apply(
            Unary::Narrow { axis: 0, start: seqlen_offset, len: seq_len },
            &self.sin,
        );
        proof {
            lemma_rotated_parts(q@, cos@, sin@);
        }
        apply_gemma4_rope(tape, q, k, &cos, &sin)
    }
}

/// The tables of a rotary embedding in which only some pairs of elements rotate.
#[derive(Clone, Copy)]
pub struct ProportionalRotaryEmbedding {
    pub sin: Tensor,
    pub cos: Tensor,
}

impl ProportionalRotaryEmbedding {
    /// Whether the tables are tensors of a tape.
    pub open spec fn on(self, tape: Tape) -> bool {
        tape.holds(self.sin) && tape.holds(self.cos)
    }

    /// Records the tables of layers with full attention. Pairs beyond the first
    /// `rope_angles` have frequency zero and so are left as they are.
    pub fn new(
        tape: &mut Tape,
        dtype: DType,
        head_dim: usize,
        rope_theta: F64Bits,
        rope_angles: usize,
        max_seq_len: usize,
    ) -> (r: ProportionalRotaryEmbedding)
        requires
            old(tape).wf(),
            rope_angles <= head_dim / 2,
        ensures
            final(tape).computes(*old(tape), parts(r.sin@).union(parts(r.cos@))),
            r.on(*final(tape)),
            r.sin@ == global_angles(head_dim, rope_theta, rope_angles, max_seq_len).apply(
                Unary::Sin,
            ).apply(Unary::Cast(dtype)),
            r.cos@ == global_angles(head_dim, rope_theta, rope_angles, max_seq_len).apply(
                Unary::Cos,
            ).apply(Unary::Cast(dtype)),
    {
        let half_dim: usize = head_dim / 2;
        let ghost all = padded_numerators(head_dim, rope_angles);
        let mut numerators: Vec<Option<usize>> = Vec::new();
        for i in 0..rope_angles
            invariant
                half_dim == head_dim / 2,
                rope_angles <= half_dim,
                all == padded_numerators(head_dim, rope_angles),
                numerators@ == all.take(i as int),
        {
            numerators.push(Some(2 * i));
            assert(all.take(i + 1) =~= all.take(i as int).push(all[i as int]));
        }
        for i in rope_angles..half_dim
            invariant
                half_dim == head_dim / 2,
                rope_angles <= half_dim,
                all == padded_numerators(head_dim, rope_angles),
                numerators@ == all.take(i as int),
        {
            numerators.push(None);
            assert(all.take(i + 1) =~= all.take(i as int).push(all[i as int]));
        }
        assert(all.take(half_dim as int) =~= all);
        let inv_freq = tape.inv_freq(numerators, head_dim, rope_theta, Precision::Single);
        let freqs = record_angles(tape, &inv_freq, max_seq_len, DType::F32);
        let wide_cos = tape.apply(Unary::Cos, &freqs);
        let cos = tape.apply(Unary::Cast(dtype), &wide_cos);
        let wide_sin = tape.apply(Unary::Sin, &freqs);
        let sin = tape.apply(Unary::Cast(dtype), &wide_sin);
        ProportionalRotaryEmbedding { sin, cos }
    }

    /// Rotates queries and keys at the positions from `seqlen_offset` on.
    pub fn apply_rotary_emb_qkv(
        &self,
        tape: &mut Tape,
        q: &Tensor,
        k: &Tensor,
        seqlen_offset: usize,
    ) -> (r: Result<(Tensor, Tensor), Refusal>)
        requires
            old(tape).wf(),
            self.on(*old(tape)),
            old(tape).holds(*q),
            old(tape).holds(*k),
            width_known(q@),
            width_known(k@),
        ensures
            match r {
                Ok((q2, k2)) => {
                    &&& q@.dims().len() == 4
                    &&& k@.dims().len() > 0
                    &&& past_tables(self.sin@, self.cos@, seqlen_offset, q@.dims()[2]) is None
                    &&& final(tape).computes(*old(tape), parts(q2@).union(parts(k2@)))
                    &&& final(tape).holds(q2)
                    &&& final(tape).holds(k2)
                    &&& q2@ == turned(q@, self.sin@, self.cos@, seqlen_offset, q@.dims()[2])
                    &&& k2@ == turned(k@, self.sin@, self.cos@, seqlen_offset, q@.dims()[2])
                },
                Err(e) => {
                    &&& *final(tape) == *old(tape)
                    &&& if q@.dims().len() != 4 {
                        e == (Refusal::Rank { expected: 4, found: q@.dims().len() as usize })
                    } else {
                        match past_tables(self.sin@, self.cos@, seqlen_offset, q@.dims()[2]) {
                            Some(past) => e == past,
                            None => k@.dims().len() == 0 && e == Refusal::NoAxis,
                        }
                    }
                },
            },
    {
        RotaryEmbedding { sin: self.sin, cos: self.cos }.apply_rotary_emb_qkv(
            tape,
            q,
            k,
            seqlen_offset,
        )
    }
}

/// The elements of `t` along its last axis at one position, where the terms in `given`
/// have the elements found there and `t` is made of them by taking parts, negating,
/// joining, multiplying and adding.
pub open spec fn elements(t: Term, given: Map<Term, Seq<int>>) -> Seq<int>
    decreases t,
{
    if given.contains_key(t) {
        given[t]
    } else {
        match t {
            Term::Apply(Unary::NarrowLast { start, count }, y) => elements(*y, given).subrange(
                start as int,
                start + count,
            ),
            Term::Apply(Unary::Neg, y) => negated(elements(*y, given)),
            Term::Apply(Unary::UnsqueezeFirst, y) => elements(*y, given),
            Term::Combine(Binary::CatLast, a, b) => elements(*a, given) + elements(*b, given),
            Term::Combine(Binary::BroadcastMul, a, b) => product(
                elements(*a, given),
                elements(*b, given),
            ),
            Term::Combine(Binary::Add, a, b) => sum(elements(*a, given), elements(*b, given)),
            _ => Seq::empty(),
        }
    }
}

/// A vector with every element negated.
pub open spec fn negated(v: Seq<int>) -> Seq<int> {
    v.map_values(|e: int| -e)
}

/// The elements of two vectors multiplied pairwise.
pub open spec fn product(v: Seq<int>, w: Seq<int>) -> Seq<int> {
    Seq::new(v.len(), |i: int| v[i] * w[i])
}

/// The elements of two vectors added pairwise.
pub open spec fn sum(v: Seq<int>, w: Seq<int>) -> Seq<int> {
    Seq::new(v.len(), |i: int| v[i] + w[i])
}

/// The half-turn of a vector: its second half negated in front of its first half.
pub open spec fn half_turn(v: Seq<int>) -> Seq<int> {
    let h = v.len() / 2;
    negated(v.subrange(h as int, v.len() as int)) + v.subrange(0, h as int)
}

/// A vector turned, each pair of elements half a vector apart by its own cosine and sine.
pub open spec fn turn(v: Seq<int>, c: Seq<int>, s: Seq<int>) -> Seq<int> {
    sum(product(v, c + c), product(half_turn(v), s + s))
}

/// Rotation by halves turns each vector by half: `[-v[d/2..], v[..d/2]]`.
pub proof fn law_rotation_is_by_halves(x: Term, v: Seq<int>)
    requires
        x.dims().len() > 0,
        x.dims().last() == Dim::Fixed(v.len() as usize),
        v.len() <= usize::MAX,
    ensures
        elements(rotate_half(x), map![x => v]) == half_turn(v),
{
    lemma_half_elements(x, map![x => v], v);
}

/// The elements of a tensor rotated by halves.
proof fn lemma_half_elements(x: Term, given: Map<Term, Seq<int>>, v: Seq<int>)
    requires
        x.dims().len() > 0,
        x.dims().last() == Dim::Fixed(v.len() as usize),
        v.len() <= usize::MAX,
        given.contains_key(x),
        given[x] == v,
        forall|t: Term| #[trigger] given.contains_key(t) && t != x ==> !x.part_of(t),
    ensures
        elements(rotate_half(x), given) == half_turn(v),
{
    broadcast use group_parts;

    let dim = v.len() as usize;
    let first = x.apply(Unary::NarrowLast { start: 0, count: dim / 2 });
    let second = x.apply(
        Unary::NarrowLast { start: dim / 2, count: (dim - dim / 2) as usize },
    );
    let neg = second.apply(Unary::Neg);
    let both = neg.combine(Binary::CatLast, first);
    assert(first != x && second != x && neg != x && both != x);
    lemma_part_trans(x, second, neg);
    lemma_part_trans(x, first, both);
    assert(elements(x, given) == v);
    assert(elements(first, given) == v.subrange(0, (dim / 2) as int));
    assert(elements(second, given) == v.subrange((dim / 2) as int, dim as int));
    assert(elements(neg, given) == negated(v.subrange((dim / 2) as int, dim as int)));
    assert(elements(both, given) == half_turn(v));
}

/// Rotation by angle tables turns the vector at each position by the cosines and sines
/// of that position.
pub proof fn law_rotation_turns_vectors(
    x: Term,
    cos: Term,
    sin: Term,
    v: Seq<int>,
    c: Seq<int>,
    s: Seq<int>,
)
    requires
        x.dims().len() > 0,
        x.dims().last() == Dim::Fixed(v.len() as usize),
        v.len() <= usize::MAX,
        !x.part_of(cos) && !x.part_of(sin),
        !cos.part_of(x) && !cos.part_of(sin),
        !sin.part_of(x) && !sin.part_of(cos),
    ensures
        elements(rotated(x, cos, sin), map![x => v, cos => c, sin => s]) == turn(v, c, s),
{
    broadcast use group_parts;

    let given = map![x => v, cos => c, sin => s];
    assert(x != cos && x != sin && cos != sin);
    lemma_half_elements(x, given, v);
    lemma_table_elements(cos, given, c);
    lemma_table_elements(sin, given, s);
    let half = rotate_half(x);
    let dim = v.len() as usize;
    let first = x.apply(Unary::NarrowLast { start: 0, count: dim / 2 });
    lemma_part_trans(x, first, half);
    let straight = x.combine(Binary::BroadcastMul, both_halves(cos));
    let turned = half.combine(Binary::BroadcastMul, both_halves(sin));
    let all = straight.combine(Binary::Add, turned);
    lemma_part_trans(x, half, turned);
    lemma_part_trans(x, straight, all);
    assert(straight != x && turned != x && all != x);
    assert(elements(x, given) == v);
    assert(!given.contains_key(straight));
    assert(elements(straight, given) == product(v, c + c));
    assert(elements(turned, given) == product(half_turn(v), s + s));
    assert(elements(all, given) == turn(v, c, s));
}

/// The elements of a table repeated for both halves.
proof fn lemma_table_elements(table: Term, given: Map<Term, Seq<int>>, c: Seq<int>)
    requires
        given.contains_key(table),
        given[table] == c,
        forall|t: Term| #[trigger] given.contains_key(t) && t != table ==> !table.part_of(t),
    ensures
        elements(both_halves(table), given) == c + c,
{
    broadcast use group_parts;

    let twice = table.combine(Binary::CatLast, table);
    let once = twice.apply(Unary::UnsqueezeFirst);
    let all = once.apply(Unary::UnsqueezeFirst);
    lemma_part_trans(table, twice, once);
    lemma_part_trans(table, once, all);
    assert(twice != table && once != table && all != table);
    assert(elements(table, given) == c);
    assert(elements(twice, given) == c + c);
    assert(elements(once, given) == c + c);
}

/// Two half-turns of a vector of even length negate it.
pub proof fn law_two_half_turns_negate(v: Seq<int>)
    requires
        v.len() % 2 == 0,
    ensures
        half_turn(half_turn(v)) == negated(v),
{
    assert(half_turn(half_turn(v)) =~= negated(v));
}

/// A turn works on pairs of elements half a vector apart: it takes `(a, b)` to
/// `(a c - b s, b c + a s)`.
pub proof fn law_turn_works_on_pairs(v: Seq<int>, c: Seq<int>, s: Seq<int>, i: int)
    requires
        v.len() % 2 == 0,
        c.len() == v.len() / 2,
        s.len() == v.len() / 2,
        0 <= i < v.len() / 2,
    ensures
        turn(v, c, s).len() == v.len(),
        turn(v, c, s)[i] == v[i] * c[i] - v[i + v.len() / 2] * s[i],
        turn(v, c, s)[i + v.len() / 2] == v[i + v.len() / 2] * c[i] + v[i] * s[i],
{
    let h = (v.len() / 2) as int;
    assert(half_turn(v)[i] == -v[i + h]);
    assert(half_turn(v)[i + h] == v[i]);
    assert((c + c)[i] == c[i] && (c + c)[i + h] == c[i]);
    assert((s + s)[i] == s[i] && (s + s)[i + h] == s[i]);
    assert((-v[i + h]) * s[i] == -(v[i + h] * s[i])) by (nonlinear_arith);
}

/// A turn multiplies the squared length of each pair of elements by the squared length
/// of its cosine and sine, so it keeps the length where these are those of an angle.
pub proof fn law_turn_scales_pairs(v: Seq<int>, c: Seq<int>, s: Seq<int>, i: int)
    requires
        v.len() % 2 == 0,
        c.len() == v.len() / 2,
        s.len() == v.len() / 2,
        0 <= i < v.len() / 2,
    ensures
        ({
            let h = v.len() / 2;
            let w = turn(v, c, s);
            w[i] * w[i] + w[i + h] * w[i + h] == (c[i] * c[i] + s[i] * s[i]) * (v[i] * v[i] + v[i
                + h] * v[i + h])
        }),
{
    law_turn_works_on_pairs(v, c, s, i);
    let h = (v.len() / 2) as int;
    let (a, b, x, y) = (v[i], v[i + h], c[i], s[i]);
    let (ax, by, bx, ay) = (a * x, b * y, b * x, a * y);
    assert((ax - by) * (ax - by) == ax * ax - 2 * (ax * by) + by * by) by (nonlinear_arith);
    assert((bx + ay) * (bx + ay) == bx * bx + 2 * (bx * ay) + ay * ay) by (nonlinear_arith);
    assert((a * x) * (b * y) == (b * x) * (a * y)) by (nonlinear_arith);
    assert((a * x) * (a * x) == (x * x) * (a * a)) by (nonlinear_arith);
    assert((b * y) * (b * y) == (y * y) * (b * b)) by (nonlinear_arith);
    assert((b * x) * (b * x) == (x * x) * (b * b)) by (nonlinear_arith);
    assert((a * y) * (a * y) == (y * y) * (a * a)) by (nonlinear_arith);
    let (xx, yy, aa, bb) = (x * x, y * y, a * a, b * b);
    assert((xx + yy) * (aa + bb) == xx * aa + yy * bb + xx * bb + yy * aa) by (nonlinear_arith);
}

/// A turn and then the turn with the sines negated multiply each element by the squared
/// length of its cosine and sine, so the second undoes the first where these are those
/// of an angle.
pub proof fn law_turning_back_undoes_a_turn(v: Seq<int>, c: Seq<int>, s: Seq<int>, i: int)
    requires
        v.len() % 2 == 0,
        c.len() == v.len() / 2,
        s.len() == v.len() / 2,
        0 <= i < v.len() / 2,
    ensures
        ({
            let h = v.len() / 2;
            let back = turn(turn(v, c, s), c, negated(s));
            &&& back.len() == v.len()
            &&& back[i] == (c[i] * c[i] + s[i] * s[i]) * v[i]
            &&& back[i + h] == (c[i] * c[i] + s[i] * s[i]) * v[i + h]
        }),
{
    law_turn_works_on_pairs(v, c, s, i);
    law_turn_works_on_pairs(turn(v, c, s), c, negated(s), i);
    let h = (v.len() / 2) as int;
    let (a, b, x, y) = (v[i], v[i + h], c[i], s[i]);
    assert((a * x - b * y) * x - (b * x + a * y) * (-y) == (x * x + y * y) * a)
        by (nonlinear_arith);
    assert((b * x + a * y) * x + (a * x - b * y) * (-y) == (x * x + y * y) * b)
        by (nonlinear_arith);
}

/// The cosines of sums of angles, given the cosines and sines of the angles.
pub open spec fn sum_cosines(c: Seq<int>, s: Seq<int>, c2: Seq<int>, s2: Seq<int>) -> Seq<int> {
    Seq::new(c.len(), |i: int| c[i] * c2[i] - s[i] * s2[i])
}

/// The sines of sums of angles, given the cosines and sines of the angles.
pub open spec fn sum_sines(c: Seq<int>, s: Seq<int>, c2: Seq<int>, s2: Seq<int>) -> Seq<int> {
    Seq::new(c.len(), |i: int| s[i] * c2[i] + c[i] * s2[i])
}

/// Two turns are one turn by the sums of their angles.
pub proof fn law_turns_compose(
    v: Seq<int>,
    c: Seq<int>,
    s: Seq<int>,
    c2: Seq<int>,
    s2: Seq<int>,
)
    requires
        v.len() % 2 == 0,
        c.len() == v.len() / 2,
        s.len() == v.len() / 2,
        c2.len() == v.len() / 2,
        s2.len() == v.len() / 2,
    ensures
        turn(turn(v, c, s), c2, s2) == turn(v, sum_cosines(c, s, c2, s2), sum_sines(c, s, c2, s2)),
{
    let h = (v.len() / 2) as int;
    let once = turn(v, c, s);
    let twice = turn(once, c2, s2);
    let (cc, ss) = (sum_cosines(c, s, c2, s2), sum_sines(c, s, c2, s2));
    let whole = turn(v, cc, ss);
    assert forall|i: int| 0 <= i < h implies twice[i] == whole[i] && #[trigger] twice[i + h]
        == whole[i + h] by {
        law_turn_works_on_pairs(v, c, s, i);
        law_turn_works_on_pairs(once, c2, s2, i);
        law_turn_works_on_pairs(v, cc, ss, i);
        let (a, b, x, y, z, w) = (v[i], v[i + h], c[i], s[i], c2[i], s2[i]);
        lemma_sum_of_turns(a, b, x, y, z, w);
    }
    assert(once.len() == v.len() && twice.len() == v.len() && whole.len() == v.len());
    assert forall|j: int| 0 <= j < v.len() implies #[trigger] twice[j] == whole[j] by {
        if j < h {
            assert(twice[j + h] == whole[j + h]);
        } else {
            assert(twice[(j - h) + h] == whole[(j - h) + h]);
        }
    }
    assert(twice =~= whole);
}

/// A pair turned by one angle and then by another.
proof fn lemma_sum_of_turns(a: int, b: int, x: int, y: int, z: int, w: int)
    ensures
        (a * x - b * y) * z - (b * x + a * y) * w == a * (x * z - y * w) - b * (y * z + x * w),
        (b * x + a * y) * z + (a * x - b * y) * w == b * (x * z - y * w) + a * (y * z + x * w),
{
    assert((a * x - b * y) * z == a * (x * z) - b * (y * z)) by (nonlinear_arith);
    assert((b * x + a * y) * w == b * (x * w) + a * (y * w)) by (nonlinear_arith);
    assert((b * x + a * y) * z == b * (x * z) + a * (y * z)) by (nonlinear_arith);
    assert((a * x - b * y) * w == a * (x * w) - b * (y * w)) by (nonlinear_arith);
    let (xz, yw, yz, xw) = (x * z, y * w, y * z, x * w);
    assert(a * (xz - yw) == a * xz - a * yw) by (nonlinear_arith);
    assert(b * (yz + xw) == b * yz + b * xw) by (nonlinear_arith);
    assert(b * (xz - yw) == b * xz - b * yw) by (nonlinear_arith);
    assert(a * (yz + xw) == a * yz + a * xw) by (nonlinear_arith);
}

/// The product of a pair of elements of one vector with that of another.
pub open spec fn pair_product(v: Seq<int>, w: Seq<int>, i: int) -> int {
    let h = v.len() / 2;
    v[i] * w[i] + v[i + h] * w[i + h]
}

/// Turning two vectors alike multiplies the product of each pair by the squared length
/// of its cosine and sine, so it keeps the product where these are those of an angle.
pub proof fn law_turning_both_scales_products(
    v: Seq<int>,
    w: Seq<int>,
    c: Seq<int>,
    s: Seq<int>,
    i: int,
)
    requires
        v.len() % 2 == 0,
        w.len() == v.len(),
        c.len() == v.len() / 2,
        s.len() == v.len() / 2,
        0 <= i < v.len() / 2,
    ensures
        pair_product(turn(v, c, s), turn(w, c, s), i) == (c[i] * c[i] + s[i] * s[i]) * pair_product(
            v,
            w,
            i,
        ),
{
    law_turn_works_on_pairs(v, c, s, i);
    law_turn_works_on_pairs(w, c, s, i);
    let h = (v.len() / 2) as int;
    let (a, b, d, e, x, y) = (v[i], v[i + h], w[i], w[i + h], c[i], s[i]);
    let (ax, by, dx, ey) = (a * x, b * y, d * x, e * y);
    let (bx, ay, ex, dy) = (b * x, a * y, e * x, d * y);
    assert((ax - by) * (dx - ey) == ax * dx - ax * ey - by * dx + by * ey) by (nonlinear_arith);
    assert((bx + ay) * (ex + dy) == bx * ex + bx * dy + ay * ex + ay * dy) by (nonlinear_arith);
    assert((a * x) * (e * y) == (a * y) * (e * x)) by (nonlinear_arith);
    assert((b * y) * (d * x) == (b * x) * (d * y)) by (nonlinear_arith);
    assert((a * x) * (d * x) == (x * x) * (a * d)) by (nonlinear_arith);
    assert((b * y) * (e * y) == (y * y) * (b * e)) by (nonlinear_arith);
    assert((b * x) * (e * x) == (x * x) * (b * e)) by (nonlinear_arith);
    assert((a * y) * (d * y) == (y * y) * (a * d)) by (nonlinear_arith);
    let (xx, yy, ad, be) = (x * x, y * y, a * d, b * e);
    assert((xx + yy) * (ad + be) == xx * ad + yy * be + xx * be + yy * ad) by (nonlinear_arith);
}

/// Moving a query and a key by one more angle multiplies the product of each pair by the
/// squared length of that angle's cosine and sine. So where the angles grow with the
/// position, a score rests on the distance between the positions alone.
pub proof fn law_scores_rest_on_distance(
    q: Seq<int>,
    k: Seq<int>,
    cq: Seq<int>,
    sq: Seq<int>,
    ck: Seq<int>,
    sk: Seq<int>,
    c: Seq<int>,
    s: Seq<int>,
    i: int,
)
    requires
        q.len() % 2 == 0,
        k.len() == q.len(),
        cq.len() == q.len() / 2,
        sq.len() == q.len() / 2,
        ck.len() == q.len() / 2,
        sk.len() == q.len() / 2,
        c.len() == q.len() / 2,
        s.len() == q.len() / 2,
        0 <= i < q.len() / 2,
    ensures
        pair_product(
            turn(q, sum_cosines(cq, sq, c, s), sum_sines(cq, sq, c, s)),
            turn(k, sum_cosines(ck, sk, c, s), sum_sines(ck, sk, c, s)),
            i,
        ) == (c[i] * c[i] + s[i] * s[i]) * pair_product(turn(q, cq, sq), turn(k, ck, sk), i),
{
    law_turns_compose(q, cq, sq, c, s);
    law_turns_compose(k, ck, sk, c, s);
    law_turn_works_on_pairs(q, cq, sq, i);
    law_turn_works_on_pairs(k, ck, sk, i);
    law_turning_both_scales_products(turn(q, cq, sq), turn(k, ck, sk), c, s, i);
}

/// Rotation keeps the extents of heads of even width, given tables of half that width
/// with a row for each position.
pub proof fn law_rotation_keeps_extents(
    x: Term,
    cos: Term,
    sin: Term,
    b: Dim,
    heads: Dim,
    t: Dim,
    half: usize,
)
    requires
        2 * half <= usize::MAX,
        x.dims() == seq![b, heads, t, Dim::Fixed((2 * half) as usize)],
        cos.dims() == seq![t, Dim::Fixed(half)],
        sin.dims() == seq![t, Dim::Fixed(half)],
    ensures
        rotated(x, cos, sin).dims() == x.dims(),
{
    let d = x.dims();
    let wide = seq![Dim::Fixed(1), Dim::Fixed(1), t, Dim::Fixed((2 * half) as usize)];
    let twice = cos.combine(Binary::CatLast, cos);
    assert(twice.dims() =~= seq![t, Dim::Fixed((2 * half) as usize)]);
    let once = twice.apply(Unary::UnsqueezeFirst);
    assert(once.dims() == seq![Dim::Fixed(1)] + twice.dims());
    assert(both_halves(cos).dims() =~= wide);
    let straight = x.combine(Binary::BroadcastMul, both_halves(cos));
    assert(straight.dims() == broadcast_dims(d, wide));
    assert(broadcast_dims(d, wide) =~= d);
}

/// Pairs of elements up to `rope_angles` rotate, and none of the others do.
pub proof fn law_only_leading_pairs_rotate(head_dim: usize, rope_angles: usize, i: int)
    requires
        rope_angles <= head_dim / 2,
        0 <= i < head_dim / 2,
    ensures
        padded_numerators(head_dim, rope_angles).len() == head_dim / 2,
        (padded_numerators(head_dim, rope_angles)[i] is Some) == (i < rope_angles),
{
}

/// Where all pairs of a head of even width rotate, they do so at the frequencies of
/// ordinary rotary embeddings.
pub proof fn law_full_rotation_is_ordinary(head_dim: usize)
    requires
        head_dim % 2 == 0,
    ensures
        padded_numerators(head_dim, head_dim / 2) == even_numerators(head_dim),
{
    assert(padded_numerators(head_dim, head_dim / 2) =~= even_numerators(head_dim));
}

} // verus!
