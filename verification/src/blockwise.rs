//! What stands at one position behind each block of a decoder.

use crate::attention::{split_heads, Attention, Tables};
use crate::fitting::{
    attention_sound, kv_fits, lemma_attend_fits, lemma_feed_forward_fits, lemma_heads_fit,
    lemma_norm_fits, lemma_own_kv_fits, lemma_plain_norm_fits, lemma_table_fits,
    lemma_turned_fits, mask_fits, tables_fit,
};
use crate::layer::DecoderLayer;
use crate::mlp::{feed_forward, MLP};
use crate::model::TextModel;
use crate::norm::{internal_dtype, lemma_rms_norm_dims, plain_norm, rms_norm, RmsNorm};
use crate::pass::own_input;
use crate::reading::{
    attended_row, halves_row, lemma_read_attended, lemma_read_looked_up, lemma_read_narrowed,
    lemma_read_projected, lemma_read_reshaped, lemma_read_rowwise, lemma_read_squeezed,
    lemma_read_together, lemma_read_transposed, lemma_read_with_whole, read, seen, turned_row,
    Reading, Row, Turn,
};
use crate::rotary::{both_halves, rotate_half, rows, turned};
use crate::sound::layer_sound;
use crate::term::{
    broadcast_dims, dim_from_last, Binary, DType, Dim, F64Bits, Linear, Projection, Scalar, Term,
    Unary,
};
use vstd::prelude::*;

verus! {

/// A row normalized.
pub open spec fn norm_row(
    norm: RmsNorm,
    weights: DType,
    dtype: DType,
    width: Dim,
    row: Row,
) -> Row {
    let wide = row.each(Unary::Cast(internal_dtype(dtype)));
    let mean = wide.each(Unary::Sqr).each(Unary::SumLast).each(
        Unary::DivScalar(Scalar::Extent(width)),
    );
    let root = mean.each(Unary::AddScalar(Scalar::Given(norm.eps))).each(Unary::Sqrt);
    wide.zip(Binary::BroadcastDiv, root).each(Unary::Cast(dtype)).zip(
        Binary::BroadcastMul,
        Row::Whole(Term::Param(norm.weight, weights)),
    )
}

/// Normalization works on each position by itself.
pub proof fn lemma_norm_rows(r: Reading, norm: RmsNorm, weights: DType, y: Term, axis: int)
    requires
        r.wf(),
        y.dims().len() >= 3,
        0 <= axis < y.dims().len() - 1,
    ensures
        forall|i: int| #[trigger]
            read(r, rms_norm(norm, weights, y), axis, i) == norm_row(
                norm,
                weights,
                y.dtype(),
                y.dims().last(),
                read(r, y, axis, i),
            ),
{
    let cast = Unary::Cast(internal_dtype(y.dtype()));
    let div = Unary::DivScalar(Scalar::Extent(y.dims().last()));
    let eps = Unary::AddScalar(Scalar::Given(norm.eps));
    let wide = y.apply(cast);
    lemma_read_rowwise(r, y, cast, axis);
    let squares = wide.apply(Unary::Sqr);
    lemma_read_rowwise(r, wide, Unary::Sqr, axis);
    let sum = squares.apply(Unary::SumLast);
    lemma_read_rowwise(r, squares, Unary::SumLast, axis);
    let mean = sum.apply(div);
    lemma_read_rowwise(r, sum, div, axis);
    let shifted = mean.apply(eps);
    lemma_read_rowwise(r, mean, eps, axis);
    let root = shifted.apply(Unary::Sqrt);
    lemma_read_rowwise(r, shifted, Unary::Sqrt, axis);
    let normed = wide.combine(Binary::BroadcastDiv, root);
    lemma_read_together(r, wide, Binary::BroadcastDiv, root, axis);
    let narrow = normed.apply(Unary::Cast(y.dtype()));
    lemma_read_rowwise(r, normed, Unary::Cast(y.dtype()), axis);
    let weight = Term::Param(norm.weight, weights);
    assert(weight.dims().len() == 1);
    let n = narrow.dims().len();
    assert(narrow.combine(Binary::BroadcastMul, weight).dims() == broadcast_dims(
        narrow.dims(),
        weight.dims(),
    ));
    assert(dim_from_last(weight.dims(), n - 1 - axis) == Dim::Fixed(1));
    assert(dim_from_last(narrow.dims(), n - 1 - axis) == narrow.dims()[axis]);
    lemma_read_with_whole(r, narrow, Binary::BroadcastMul, weight, axis);
}

/// A row normalized without a weight.
pub open spec fn plain_norm_row(eps: F64Bits, dtype: DType, row: Row) -> Row {
    let wide = row.each(Unary::Cast(DType::F32));
    let root = wide.each(Unary::Sqr).each(Unary::MeanLast).each(
        Unary::AddScalar(Scalar::Given(eps)),
    ).each(Unary::Sqrt);
    wide.zip(Binary::BroadcastDiv, root).each(Unary::Cast(dtype))
}

/// Normalization without a weight works on each position by itself.
pub proof fn lemma_plain_norm_rows(r: Reading, eps: F64Bits, y: Term, axis: int)
    requires
        r.wf(),
        y.dims().len() >= 3,
        0 <= axis < y.dims().len() - 1,
    ensures
        forall|i: int| #[trigger]
            read(r, plain_norm(eps, y), axis, i) == plain_norm_row(
                eps,
                y.dtype(),
                read(r, y, axis, i),
            ),
{
    let cast = Unary::Cast(DType::F32);
    let shift = Unary::AddScalar(Scalar::Given(eps));
    let wide = y.apply(cast);
    lemma_read_rowwise(r, y, cast, axis);
    let squares = wide.apply(Unary::Sqr);
    lemma_read_rowwise(r, wide, Unary::Sqr, axis);
    let mean = squares.apply(Unary::MeanLast);
    lemma_read_rowwise(r, squares, Unary::MeanLast, axis);
    let shifted = mean.apply(shift);
    lemma_read_rowwise(r, mean, shift, axis);
    let root = shifted.apply(Unary::Sqrt);
    lemma_read_rowwise(r, shifted, Unary::Sqrt, axis);
    let normed = wide.combine(Binary::BroadcastDiv, root);
    lemma_read_together(r, wide, Binary::BroadcastDiv, root, axis);
    lemma_read_rowwise(r, normed, Unary::Cast(y.dtype()), axis);
}

/// A row projected and split into heads.
pub open spec fn heads_row(l: Linear, heads: usize, width: usize, row: Row) -> Row {
    row.project(Projection::Own(l)).shaped(seq![Dim::Fixed(heads), Dim::Fixed(width)])
}

/// Heads of projected hidden states, position by position.
pub proof fn lemma_heads_rows(
    r: Reading,
    l: Linear,
    xs: Term,
    b: Dim,
    t: Dim,
    heads: usize,
    width: usize,
)
    requires
        r.wf(),
        xs.dims() == seq![b, t, Dim::Fixed(l.in_dim)],
    ensures
        forall|i: int| #[trigger]
            read(r, split_heads(xs.project(Projection::Own(l)), b, t, heads, width), 2, i)
                == heads_row(l, heads, width, read(r, xs, 1, i)),
{
    let flat = xs.project(Projection::Own(l));
    lemma_read_projected(r, xs, Projection::Own(l), 1);
    let four = seq![b, t, Dim::Fixed(heads), Dim::Fixed(width)];
    assert(flat.dims().take(2) =~= four.take(2));
    let shaped = flat.reshape(four);
    lemma_read_reshaped(r, flat, four, 1);
    assert(four.skip(2) =~= seq![Dim::Fixed(heads), Dim::Fixed(width)]);
    assert(shaped.dims() == four);
    lemma_read_transposed(r, shaped, 1, 2);
}

/// Rows of an angle table for both halves of a head.
proof fn lemma_halves_rows(
    r: Reading,
    table: Term,
    positions: usize,
    half: usize,
    offset: usize,
    t: Dim,
)
    requires
        r.wf(),
        r.tables.contains(table),
        table.dims() == seq![Dim::Fixed(positions), Dim::Fixed(half)],
    ensures
        forall|i: int| #[trigger]
            read(r, both_halves(rows(table, offset, t)), 2, i) == halves_row(table, offset + i),
{
    let some = rows(table, offset, t);
    assert(some.dims() =~= seq![t, Dim::Fixed(half)]);
    lemma_read_narrowed(r, table, 0, offset, t);
    let twice = some.combine(Binary::CatLast, some);
    lemma_read_together(r, some, Binary::CatLast, some, 0);
    let once = twice.apply(Unary::UnsqueezeFirst);
    let again = once.apply(Unary::UnsqueezeFirst);
    assert(!r.tables.contains(once) && !r.tables.contains(again));
    assert forall|i: int| #[trigger] read(r, again, 2, i) == halves_row(table, offset + i) by {
        assert(read(r, table, 0, offset + i) == Row::Line(table, offset + i)) by {
            reveal(read);
        }
        assert(read(r, some, 0, i) == Row::Line(table, offset + i));
        assert(read(r, once, 1, i) == read(r, twice, 0, i).each(Unary::UnsqueezeFirst)) by {
            reveal(read);
        }
        assert(read(r, again, 2, i) == read(r, once, 1, i).each(Unary::UnsqueezeFirst)) by {
            reveal(read);
        }
    }
}

/// The turn of a row by a line of a layer's tables.
pub open spec fn turn_of(tables: Tables, row: Row, line: int, width: usize) -> Turn {
    Turn { row, cos: tables.cos, sin: tables.sin, line, width }
}

/// Rotation turns each position by its own line of the tables.
pub proof fn lemma_turned_rows(
    r: Reading,
    tables: Tables,
    y: Term,
    positions: usize,
    half: usize,
    offset: usize,
    b: Dim,
    heads: usize,
    t: Dim,
)
    requires
        r.wf(),
        r.tables.contains(tables.sin),
        r.tables.contains(tables.cos),
        2 * half <= usize::MAX,
        y.has(r.s, seq![b, Dim::Fixed(heads), t, Dim::Fixed((2 * half) as usize)], r.s.weights),
        tables.sin.has(r.s, seq![Dim::Fixed(positions), Dim::Fixed(half)], r.s.weights),
        tables.cos.has(r.s, seq![Dim::Fixed(positions), Dim::Fixed(half)], r.s.weights),
        offset + r.s.size(t) <= positions,
    ensures
        forall|i: int| #[trigger]
            read(r, turned(y, tables.sin, tables.cos, offset, t), 2, i) == turned_row(
                turn_of(tables, read(r, y, 2, i), offset + i, (2 * half) as usize),
            ),
{
    let w = (2 * half) as usize;
    let wide = seq![Dim::Fixed(1), Dim::Fixed(1), t, Dim::Fixed(w)];
    lemma_table_fits(r.s, tables.cos, positions, half, offset, t);
    lemma_table_fits(r.s, tables.sin, positions, half, offset, t);
    lemma_halves_rows(r, tables.cos, positions, half, offset, t);
    lemma_halves_rows(r, tables.sin, positions, half, offset, t);
    let cos = both_halves(rows(tables.cos, offset, t));
    let sin = both_halves(rows(tables.sin, offset, t));
    let straight = y.combine(Binary::BroadcastMul, cos);
    lemma_read_together(r, y, Binary::BroadcastMul, cos, 2);
    let low = Unary::NarrowLast { start: 0, count: w / 2 };
    let high = Unary::NarrowLast { start: w / 2, count: (w - w / 2) as usize };
    let first = y.apply(low);
    lemma_read_rowwise(r, y, low, 2);
    let second = y.apply(high);
    lemma_read_rowwise(r, y, high, 2);
    let negated = second.apply(Unary::Neg);
    lemma_read_rowwise(r, second, Unary::Neg, 2);
    let turn = negated.combine(Binary::CatLast, first);
    lemma_read_together(r, negated, Binary::CatLast, first, 2);
    assert(rotate_half(y) == turn);
    let across = turn.combine(Binary::BroadcastMul, sin);
    lemma_read_together(r, turn, Binary::BroadcastMul, sin, 2);
    lemma_read_together(r, straight, Binary::Add, across, 2);
}

impl Attention {
    /// The normalized query of a row, before rotation.
    pub open spec fn query_row(self, weights: DType, row: Row) -> Row {
        norm_row(
            self.q_norm,
            weights,
            weights,
            Dim::Fixed(self.head_dim),
            heads_row(self.q_proj, self.num_heads, self.head_dim, row),
        )
    }

    /// The normalized key of a row, before rotation.
    pub open spec fn key_row(self, weights: DType, row: Row) -> Row {
        norm_row(
            self.k_norm->0,
            weights,
            weights,
            Dim::Fixed(self.head_dim),
            heads_row(self.k_proj->0, self.num_kv_heads, self.head_dim, row),
        )
    }

    /// The normalized value of a row.
    pub open spec fn value_row(self, weights: DType, row: Row) -> Row {
        plain_norm_row(
            self.rms_norm_eps,
            weights,
            heads_row(self.v_proj->0, self.num_kv_heads, self.head_dim, row),
        )
    }

    /// The heads of a row side by side again, through the output projection.
    pub open spec fn merged_row(self, row: Row) -> Row {
        row.shaped(seq![Dim::Fixed((self.num_heads * self.head_dim) as usize)]).project(
            Projection::Own(self.o_proj),
        )
    }

    /// The append to the layer's cache.
    pub open spec fn append(self, weights: DType, t: Tables, xs: Term, offset: usize) -> Term {
        Term::Append {
            layer: self.layer_idx,
            fresh: self.kv_cache.empty,
            k: Box::new(self.keys(weights, t, xs, offset)),
            v: Box::new(self.values(xs)),
        }
    }

    /// The keys and values that queries meet: those in the layer's cache after its own
    /// append, or those that it is handed.
    pub open spec fn met(
        self,
        weights: DType,
        t: Tables,
        xs: Term,
        shared: Option<(Term, Term)>,
        offset: usize,
    ) -> (Term, Term) {
        if self.is_kv_shared_layer {
            shared->0
        } else {
            let action = self.append(weights, t, xs, offset);
            (Term::CachedKeys(Box::new(action)), Term::CachedValues(Box::new(action)))
        }
    }

    /// What attention yields at a position, given what its query meets.
    pub open spec fn out_row(
        self,
        by_distance: bool,
        weights: DType,
        t: Tables,
        row: Row,
        line: int,
        keys: Map<int, Row>,
        values: Map<int, Row>,
    ) -> Row {
        let q = turned_row(turn_of(t, self.query_row(weights, row), line, self.head_dim));
        self.merged_row(attended_row(by_distance, self.num_kv_groups, q, keys, values))
    }
}

/// The normalized queries, position by position.
proof fn lemma_query_rows(r: Reading, att: Attention, xs: Term, b: Dim, t: Dim, hidden: usize)
    requires
        r.wf(),
        attention_sound(att, hidden),
        xs.has(r.s, seq![b, t, Dim::Fixed(hidden)], r.s.weights),
    ensures
        att.queries(r.s.weights, xs).has(
            r.s,
            seq![b, Dim::Fixed(att.num_heads), t, Dim::Fixed(att.head_dim)],
            r.s.weights,
        ),
        forall|i: int| #[trigger]
            read(r, att.queries(r.s.weights, xs), 2, i) == att.query_row(
                r.s.weights,
                read(r, xs, 1, i),
            ),
{
    let split = split_heads(
        xs.project(Projection::Own(att.q_proj)),
        b,
        t,
        att.num_heads,
        att.head_dim,
    );
    let d = seq![b, Dim::Fixed(att.num_heads), t, Dim::Fixed(att.head_dim)];
    lemma_heads_fit(r.s, att.q_proj, xs, b, t, att.num_heads, att.head_dim);
    lemma_heads_rows(r, att.q_proj, xs, b, t, att.num_heads, att.head_dim);
    lemma_norm_fits(r.s, att.q_norm, split, d);
    lemma_norm_rows(r, att.q_norm, r.s.weights, split, 2);
}

/// The keys and values that a layer appends to its cache, position by position.
pub proof fn lemma_appended_rows(
    r: Reading,
    att: Attention,
    tables: Tables,
    xs: Term,
    offset: usize,
    positions: usize,
    b: Dim,
    t: Dim,
    hidden: usize,
)
    requires
        r.wf(),
        r.tables.contains(tables.sin),
        r.tables.contains(tables.cos),
        attention_sound(att, hidden),
        !att.is_kv_shared_layer,
        tables_fit(r.s, tables, att.head_dim, positions),
        xs.has(r.s, seq![b, t, Dim::Fixed(hidden)], r.s.weights),
        offset + r.s.size(t) <= positions,
    ensures
        forall|i: int| #[trigger]
            read(r, att.keys(r.s.weights, tables, xs, offset), 2, i) == turned_row(
                turn_of(
                    tables,
                    att.key_row(r.s.weights, read(r, xs, 1, i)),
                    offset + i,
                    att.head_dim,
                ),
            ),
        forall|i: int| #[trigger]
            read(r, att.values(xs), 2, i) == att.value_row(r.s.weights, read(r, xs, 1, i)),
{
    let half = att.head_dim / 2;
    assert(2 * half == att.head_dim);
    lemma_query_rows(r, att, xs, b, t, hidden);
    let kd = seq![b, Dim::Fixed(att.num_kv_heads), t, Dim::Fixed(att.head_dim)];
    let (kp, vp) = (att.k_proj->0, att.v_proj->0);
    let k_split = split_heads(
        xs.project(Projection::Own(kp)),
        b,
        t,
        att.num_kv_heads,
        att.head_dim,
    );
    lemma_heads_fit(r.s, kp, xs, b, t, att.num_kv_heads, att.head_dim);
    lemma_heads_rows(r, kp, xs, b, t, att.num_kv_heads, att.head_dim);
    lemma_norm_fits(r.s, att.k_norm->0, k_split, kd);
    lemma_norm_rows(r, att.k_norm->0, r.s.weights, k_split, 2);
    let plain = att.plain_keys(r.s.weights, xs);
    lemma_turned_rows(r, tables, plain, positions, half, offset, b, att.num_kv_heads, t);
    let v_split = split_heads(
        xs.project(Projection::Own(vp)),
        b,
        t,
        att.num_kv_heads,
        att.head_dim,
    );
    lemma_heads_fit(r.s, vp, xs, b, t, att.num_kv_heads, att.head_dim);
    lemma_heads_rows(r, vp, xs, b, t, att.num_kv_heads, att.head_dim);
    lemma_plain_norm_fits(r.s, att.rms_norm_eps, v_split, kd, r.s.weights);
    lemma_plain_norm_rows(r, att.rms_norm_eps, v_split, 2);
}

/// What attention yields, position by position.
pub proof fn lemma_attention_rows(
    r: Reading,
    att: Attention,
    tables: Tables,
    xs: Term,
    shared: Option<(Term, Term)>,
    mask: Option<Term>,
    offset: usize,
    positions: usize,
    b: Dim,
    t: Dim,
    hidden: usize,
    source: usize,
)
    requires
        r.wf(),
        r.tables.contains(tables.sin),
        r.tables.contains(tables.cos),
        !att.use_flash_attn,
        attention_sound(att, hidden),
        tables_fit(r.s, tables, att.head_dim, positions),
        xs.has(r.s, seq![b, t, Dim::Fixed(hidden)], r.s.weights),
        offset + r.s.size(t) <= positions,
        att.is_kv_shared_layer ==> (shared matches Some(kv) ==> kv_fits(
            r.s,
            kv,
            b,
            att.num_kv_heads,
            source,
            att.head_dim,
        )),
        !att.is_kv_shared_layer ==> source == att.layer_idx,
        mask_fits(r.s, mask, b, t, source),
    ensures
        att.attention(r.s.weights, tables, xs, shared, mask, offset) matches Ok(a) ==> {
            let (k, v) = att.met(r.s.weights, tables, xs, shared, offset);
            let count = (r.s.cached)(source);
            forall|i: int| #[trigger]
                read(r, a.out, 1, i) == att.out_row(
                    r.by_distance,
                    r.s.weights,
                    tables,
                    read(r, xs, 1, i),
                    offset + i,
                    seen(r, k, count, mask, i),
                    seen(r, v, count, mask, i),
                )
        },
{
    if let Ok(a) = att.attention(r.s.weights, tables, xs, shared, mask, offset) {
        let half = att.head_dim / 2;
        assert(2 * half == att.head_dim);
        lemma_query_rows(r, att, xs, b, t, hidden);
        let plain = att.queries(r.s.weights, xs);
        lemma_turned_fits(r.s, tables, plain, positions, half, offset, b, att.num_heads, t);
        lemma_turned_rows(r, tables, plain, positions, half, offset, b, att.num_heads, t);
        let q = turned(plain, tables.sin, tables.cos, offset, t);
        let (k, v) = att.met(r.s.weights, tables, xs, shared, offset);
        if !att.is_kv_shared_layer {
            lemma_own_kv_fits(r.s, att, tables, xs, offset, positions, b, t, hidden);
        }
        assert(a.out == att.merge_heads(xs, att.attend(q, k, v, mask)) && kv_fits(
            r.s,
            (k, v),
            b,
            att.num_kv_heads,
            source,
            att.head_dim,
        )) by {
            reveal(Attention::attention);
        }
        let count = (r.s.cached)(source);
        let heads = att.attend(q, k, v, mask);
        lemma_read_attended(r, q, k, v, mask, att.num_kv_groups, count, heads);
        lemma_attend_fits(r.s, att, q, k, v, mask, b, t, source);
        let back = heads.apply(Unary::Transpose(1, 2));
        lemma_read_transposed(r, heads, 1, 2);
        let flat = Dim::Fixed((att.num_heads * att.head_dim) as usize);
        let three = seq![b, t, flat];
        assert(dim_from_last(back.dims(), 1) == Dim::Fixed(att.num_heads));
        assert(dim_from_last(back.dims(), 0) == Dim::Fixed(att.head_dim));
        assert(back.dims().take(2) =~= three.take(2));
        lemma_read_reshaped(r, back, three, 1);
        assert(three.skip(2) =~= seq![flat]);
        let merged = back.reshape(three);
        lemma_read_projected(r, merged, Projection::Own(att.o_proj), 1);
        assert(a.out == merged.project(Projection::Own(att.o_proj)));
        assert forall|i: int| #[trigger]
            read(r, a.out, 1, i) == att.out_row(
                r.by_distance,
                r.s.weights,
                tables,
                read(r, xs, 1, i),
                offset + i,
                seen(r, k, count, mask, i),
                seen(r, v, count, mask, i),
            ) by {
            assert(read(r, merged, 1, i) == read(r, back, 1, i).shaped(seq![flat]));
            assert(read(r, back, 1, i) == read(r, heads, 2, i));
            assert(read(r, plain, 2, i) == att.query_row(r.s.weights, read(r, xs, 1, i)));
            assert(read(r, q, 2, i) == turned_row(
                turn_of(tables, read(r, plain, 2, i), offset + i, att.head_dim),
            ));
        }
    }
}

/// A row through a feed-forward block.
pub open spec fn fed_row(mlp: MLP, row: Row) -> Row {
    row.project(Projection::Own(mlp.gate_proj)).each(Unary::Activate(mlp.act_fn)).zip(
        Binary::Mul,
        row.project(Projection::Own(mlp.up_proj)),
    ).project(Projection::Own(mlp.down_proj))
}

/// The feed-forward block works on each position by itself.
proof fn lemma_fed_rows(r: Reading, mlp: MLP, y: Term)
    requires
        r.wf(),
        y.dims().len() == 3,
    ensures
        forall|i: int| #[trigger]
            read(r, feed_forward(mlp, y), 1, i) == fed_row(mlp, read(r, y, 1, i)),
{
    let (g, u) = (Projection::Own(mlp.gate_proj), Projection::Own(mlp.up_proj));
    let gate = y.project(g);
    lemma_read_projected(r, y, g, 1);
    let lhs = gate.apply(Unary::Activate(mlp.act_fn));
    lemma_read_rowwise(r, gate, Unary::Activate(mlp.act_fn), 1);
    let rhs = y.project(u);
    lemma_read_projected(r, y, u, 1);
    assert(rhs.dims()[1] == y.dims()[1] && lhs.dims()[1] == y.dims()[1]);
    let product = lhs.combine(Binary::Mul, rhs);
    lemma_read_together(r, lhs, Binary::Mul, rhs, 1);
    lemma_read_projected(r, product, Projection::Own(mlp.down_proj), 1);
}

impl DecoderLayer {
    /// A row behind attention and the feed-forward block.
    pub open spec fn mixed_row(self, weights: DType, hidden: Dim, row: Row, attended: Row) -> Row {
        let a = norm_row(self.post_attention_layernorm, weights, weights, hidden, attended).zip(
            Binary::Add,
            row,
        );
        let inner = norm_row(self.pre_feedforward_layernorm, weights, weights, hidden, a);
        a.zip(
            Binary::Add,
            norm_row(
                self.post_feedforward_layernorm,
                weights,
                weights,
                hidden,
                fed_row(self.mlp, inner),
            ),
        )
    }

    /// A row with the layer's own input mixed in, where there is one.
    pub open spec fn gated_row(
        self,
        weights: DType,
        hidden: Dim,
        row: Row,
        own: Option<Row>,
    ) -> Row {
        match (
            self.per_layer_input_gate,
            self.per_layer_projection,
            self.post_per_layer_input_norm,
            self.per_layer_activation,
            own,
        ) {
            (Some(gate), Some(projection), Some(norm), Some(activation), Some(input)) => {
                let ple = row.project(Projection::Own(gate)).each(
                    Unary::Activate(activation),
                ).zip(Binary::Mul, input);
                row.zip(
                    Binary::Add,
                    norm_row(
                        norm,
                        weights,
                        weights,
                        hidden,
                        ple.project(Projection::Own(projection)),
                    ),
                )
            },
            _ => row,
        }
    }

    /// A row behind the layer, given what attention yields for it.
    pub open spec fn behind_row(
        self,
        weights: DType,
        hidden: Dim,
        row: Row,
        attended: Row,
        own: Option<Row>,
    ) -> Row {
        self.gated_row(weights, hidden, self.mixed_row(weights, hidden, row, attended), own).zip(
            Binary::BroadcastMul,
            Row::Whole(Term::Param(self.layer_scalar, weights)),
        )
    }
}

/// A row of a tensor, where there is one.
pub open spec fn optional_row(r: Reading, t: Option<Term>, axis: int, i: int) -> Option<Row> {
    match t {
        Some(x) => Some(read(r, x, axis, i)),
        None => None,
    }
}

/// The hidden states behind attention and the feed-forward block, position by position.
proof fn lemma_mixed_rows(
    r: Reading,
    layer: DecoderLayer,
    xs: Term,
    attended: Term,
    b: Dim,
    t: Dim,
    hidden: usize,
    width: usize,
)
    requires
        r.wf(),
        layer_sound(layer, hidden, width),
        xs.has(r.s, seq![b, t, Dim::Fixed(hidden)], r.s.weights),
        attended.has(r.s, seq![b, t, Dim::Fixed(hidden)], r.s.weights),
    ensures
        ({
            let w = r.s.weights;
            let m = layer.after_mlp(w, layer.after_attention(w, xs, attended));
            &&& m.has(r.s, seq![b, t, Dim::Fixed(hidden)], w)
            &&& forall|i: int| #[trigger]
                read(r, m, 1, i) == layer.mixed_row(
                    w,
                    Dim::Fixed(hidden),
                    read(r, xs, 1, i),
                    read(r, attended, 1, i),
                )
        }),
{
    let d = seq![b, t, Dim::Fixed(hidden)];
    let w = r.s.weights;
    lemma_norm_fits(r.s, layer.post_attention_layernorm, attended, d);
    lemma_norm_rows(r, layer.post_attention_layernorm, w, attended, 1);
    let normed = rms_norm(layer.post_attention_layernorm, w, attended);
    let a = layer.after_attention(w, xs, attended);
    lemma_read_together(r, normed, Binary::Add, xs, 1);
    assert(a.has(r.s, d, w));
    lemma_norm_fits(r.s, layer.pre_feedforward_layernorm, a, d);
    lemma_norm_rows(r, layer.pre_feedforward_layernorm, w, a, 1);
    let inner = rms_norm(layer.pre_feedforward_layernorm, w, a);
    lemma_feed_forward_fits(r.s, layer.mlp, inner, b, t, hidden);
    lemma_fed_rows(r, layer.mlp, inner);
    let fed = feed_forward(layer.mlp, inner);
    lemma_norm_fits(r.s, layer.post_feedforward_layernorm, fed, d);
    lemma_norm_rows(r, layer.post_feedforward_layernorm, w, fed, 1);
    let outer = rms_norm(layer.post_feedforward_layernorm, w, fed);
    let m = layer.after_mlp(w, a);
    lemma_read_together(r, a, Binary::Add, outer, 1);
    assert(m.has(r.s, d, w));
    assert forall|i: int| #[trigger]
        read(r, m, 1, i) == layer.mixed_row(
            w,
            Dim::Fixed(hidden),
            read(r, xs, 1, i),
            read(r, attended, 1, i),
        ) by {
        assert(read(r, a, 1, i) == read(r, normed, 1, i).zip(Binary::Add, read(r, xs, 1, i)));
        assert(read(r, fed, 1, i) == fed_row(layer.mlp, read(r, inner, 1, i)));
    }
}

/// The hidden states with a layer's own input mixed in, position by position.
proof fn lemma_gated_rows(
    r: Reading,
    layer: DecoderLayer,
    m: Term,
    own: Option<Term>,
    b: Dim,
    t: Dim,
    hidden: usize,
    width: usize,
)
    requires
        r.wf(),
        layer_sound(layer, hidden, width),
        m.has(r.s, seq![b, t, Dim::Fixed(hidden)], r.s.weights),
        own matches Some(p) ==> p.has(r.s, seq![b, t, Dim::Fixed(width)], r.s.weights),
    ensures
        ({
            let p = layer.after_per_layer_input(r.s.weights, m, own);
            &&& p.dims() == m.dims()
            &&& forall|i: int| #[trigger]
                read(r, p, 1, i) == layer.gated_row(
                    r.s.weights,
                    Dim::Fixed(hidden),
                    read(r, m, 1, i),
                    optional_row(r, own, 1, i),
                )
        }),
{
    let d = seq![b, t, Dim::Fixed(hidden)];
    let w = r.s.weights;
    match (
        layer.per_layer_input_gate,
        layer.per_layer_projection,
        layer.post_per_layer_input_norm,
        layer.per_layer_activation,
        own,
    ) {
        (Some(gate), Some(projection), Some(norm), Some(activation), Some(input)) => {
            let (g, o) = (Projection::Own(gate), Projection::Own(projection));
            let gated = m.project(g);
            lemma_read_projected(r, m, g, 1);
            let active = gated.apply(Unary::Activate(activation));
            lemma_read_rowwise(r, gated, Unary::Activate(activation), 1);
            assert(active.dims()[1] == t);
            let ple = active.combine(Binary::Mul, input);
            lemma_read_together(r, active, Binary::Mul, input, 1);
            let projected = ple.project(o);
            lemma_read_projected(r, ple, o, 1);
            assert(projected.dims() =~= d);
            assert(projected.dtype() == w) by {
                assert(gated.dtype() == w && active.dtype() == w && ple.dtype() == w);
            }
            lemma_norm_rows(r, norm, w, projected, 1);
            lemma_rms_norm_dims(norm, w, projected);
            let mixed = rms_norm(norm, w, projected);
            assert(mixed.dims().len() == 3 && mixed.dims()[1] == t);
            lemma_read_together(r, m, Binary::Add, mixed, 1);
            let p = layer.after_per_layer_input(w, m, own);
            assert(p == m.combine(Binary::Add, mixed));
            assert forall|i: int| #[trigger]
                read(r, p, 1, i) == layer.gated_row(
                    w,
                    Dim::Fixed(hidden),
                    read(r, m, 1, i),
                    optional_row(r, own, 1, i),
                ) by {
                assert(read(r, projected, 1, i) == read(r, ple, 1, i).project(o));
                assert(read(r, active, 1, i) == read(r, gated, 1, i).each(
                    Unary::Activate(activation),
                ));
            }
        },
        _ => {
            assert(layer.after_per_layer_input(w, m, own) == m);
        },
    }
}

/// The hidden states behind a layer, position by position.
pub proof fn lemma_behind_rows(
    r: Reading,
    layer: DecoderLayer,
    xs: Term,
    attended: Term,
    own: Option<Term>,
    b: Dim,
    t: Dim,
    hidden: usize,
    width: usize,
)
    requires
        r.wf(),
        layer_sound(layer, hidden, width),
        xs.has(r.s, seq![b, t, Dim::Fixed(hidden)], r.s.weights),
        attended.has(r.s, seq![b, t, Dim::Fixed(hidden)], r.s.weights),
        own matches Some(p) ==> p.has(r.s, seq![b, t, Dim::Fixed(width)], r.s.weights),
    ensures
        forall|i: int| #[trigger]
            read(r, layer.behind(r.s.weights, xs, attended, own), 1, i) == layer.behind_row(
                r.s.weights,
                Dim::Fixed(hidden),
                read(r, xs, 1, i),
                read(r, attended, 1, i),
                optional_row(r, own, 1, i),
            ),
{
    let w = r.s.weights;
    lemma_mixed_rows(r, layer, xs, attended, b, t, hidden, width);
    let m = layer.after_mlp(w, layer.after_attention(w, xs, attended));
    lemma_gated_rows(r, layer, m, own, b, t, hidden, width);
    let p = layer.after_per_layer_input(w, m, own);
    let scalar = Term::Param(layer.layer_scalar, w);
    assert(scalar.dims().len() == 1);
    let out = p.combine(Binary::BroadcastMul, scalar);
    assert(out.dims() == broadcast_dims(p.dims(), scalar.dims()));
    assert(dim_from_last(scalar.dims(), 1) == Dim::Fixed(1));
    assert(dim_from_last(p.dims(), 1) == t);
    lemma_read_with_whole(r, p, Binary::BroadcastMul, scalar, 1);
    assert forall|i: int| #[trigger]
        read(r, layer.behind(w, xs, attended, own), 1, i) == layer.behind_row(
            w,
            Dim::Fixed(hidden),
            read(r, xs, 1, i),
            read(r, attended, 1, i),
            optional_row(r, own, 1, i),
        ) by {
        assert(read(r, out, 1, i) == read(r, p, 1, i).zip(
            Binary::BroadcastMul,
            Row::Whole(scalar),
        ));
        assert(read(r, m, 1, i) == layer.mixed_row(
            w,
            Dim::Fixed(hidden),
            read(r, xs, 1, i),
            read(r, attended, 1, i),
        ));
    }
}

impl TextModel {
    /// The embedding of the token at a position of the text.
    pub open spec fn embedded_row(self, weights: DType, position: int) -> Row {
        Row::Lookup(self.embed_tokens, weights, Box::new(Row::Token(position))).each(
            Unary::MulScalar(Scalar::Sqrt(self.hidden_size)),
        )
    }

    /// The extents of the layers' own inputs at one position.
    pub open spec fn own_dims(self) -> Seq<Dim> {
        seq![Dim::Fixed(self.layers@.len() as usize), Dim::Fixed(self.per_layer_input_dim)]
    }

    /// What the layers' own inputs have of the token at a position of the text.
    pub open spec fn token_row(self, weights: DType, position: int) -> Option<Row> {
        match self.per_layer_embed_tokens {
            Some(table) => Some(
                Row::Lookup(table, weights, Box::new(Row::Token(position))).each(
                    Unary::MulScalar(Scalar::Sqrt(self.per_layer_input_dim)),
                ).shaped(self.own_dims()),
            ),
            None => None,
        }
    }

    /// The layers' own inputs for an embedding.
    pub open spec fn own_rows(self, weights: DType, row: Row, token: Option<Row>) -> Option<Row> {
        match (self.per_layer_model_projection, self.per_layer_projection_norm) {
            (Some(projection), Some(norm)) => {
                let projected = norm_row(
                    norm,
                    weights,
                    weights,
                    Dim::Fixed(self.per_layer_input_dim),
                    row.project(Projection::Own(projection)).each(
                        Unary::MulScalar(Scalar::RecipSqrt(self.hidden_size)),
                    ).shaped(self.own_dims()),
                );
                Some(
                    match token {
                        Some(t) => projected.zip(Binary::Add, t).each(
                            Unary::MulScalar(Scalar::RecipSqrt(2)),
                        ),
                        None => projected,
                    },
                )
            },
            _ => None,
        }
    }

    /// The logits for a last hidden state.
    pub open spec fn logits_row(self, weights: DType, hidden: Dim, row: Row) -> Row {
        let logits = norm_row(self.norm, weights, weights, hidden, row).project(self.lm_head);
        match self.final_logit_softcapping {
            Some(sc) => logits.each(Unary::DivScalar(Scalar::Given(sc))).each(Unary::Tanh).each(
                Unary::MulScalar(Scalar::Given(sc)),
            ),
            None => logits,
        }
    }
}

/// The embeddings of tokens, and what the layers' own inputs have of them, position by
/// position.
pub proof fn lemma_embedded_rows(r: Reading, model: TextModel, batch_size: usize, seq_len: usize)
    requires
        r.wf(),
    ensures
        ({
            let ids = Term::TokenIds(seq![Dim::Fixed(batch_size), Dim::Fixed(seq_len)]);
            &&& forall|i: int| #[trigger]
                read(r, model.embedded(r.s.weights, ids), 1, i) == model.embedded_row(
                    r.s.weights,
                    r.base + i,
                )
            &&& model.token_inputs(r.s.weights, ids) is Ok
            &&& forall|i: int| #[trigger]
                optional_row(r, model.token_inputs(r.s.weights, ids)->Ok_0, 1, i)
                    == model.token_row(r.s.weights, r.base + i)
        }),
{
    let (b, t) = (Dim::Fixed(batch_size), Dim::Fixed(seq_len));
    let ids = Term::TokenIds(seq![b, t]);
    let w = r.s.weights;
    assert(ids.dims() == seq![b, t]);
    let found = Term::Lookup(model.embed_tokens, w, Box::new(ids));
    lemma_read_looked_up(r, ids, model.embed_tokens, w);
    lemma_read_rowwise(r, found, Unary::MulScalar(Scalar::Sqrt(model.hidden_size)), 1);
    if let Some(table) = model.per_layer_embed_tokens {
        let scale = Unary::MulScalar(Scalar::Sqrt(model.per_layer_input_dim));
        let looked = Term::Lookup(table, w, Box::new(ids));
        lemma_read_looked_up(r, ids, table, w);
        let scaled = looked.apply(scale);
        lemma_read_rowwise(r, looked, scale, 1);
        let four = seq![
            b,
            t,
            Dim::Fixed(model.layers@.len() as usize),
            Dim::Fixed(model.per_layer_input_dim),
        ];
        assert(scaled.dims().take(2) =~= four.take(2));
        lemma_read_reshaped(r, scaled, four, 1);
        assert(four.skip(2) =~= model.own_dims());
        let y = scaled.reshape(four);
        assert(model.token_inputs(w, ids)->Ok_0 == Some(y));
    }
}

/// The layers' own inputs, position by position.
pub proof fn lemma_own_rows(
    r: Reading,
    model: TextModel,
    embeds: Term,
    token_inputs: Option<Term>,
    b: Dim,
    t: Dim,
    hidden: usize,
)
    requires
        r.wf(),
        embeds.has(r.s, seq![b, t, Dim::Fixed(hidden)], r.s.weights),
        token_inputs matches Some(y) ==> y.dims().len() == 4 && y.dims()[1] == t,
    ensures
        model.per_layer_inputs(r.s.weights, embeds, token_inputs) matches Ok(own) ==> {
            forall|i: int| #[trigger]
                optional_row(r, own, 1, i) == model.own_rows(
                    r.s.weights,
                    read(r, embeds, 1, i),
                    optional_row(r, token_inputs, 1, i),
                )
        },
{
    if let (Some(projection), Some(norm)) = (
        model.per_layer_model_projection,
        model.per_layer_projection_norm,
    ) {
        let w = r.s.weights;
        let p = Projection::Own(projection);
        let flat = embeds.project(p);
        lemma_read_projected(r, embeds, p, 1);
        let scale = Unary::MulScalar(Scalar::RecipSqrt(model.hidden_size));
        let scaled = flat.apply(scale);
        lemma_read_rowwise(r, flat, scale, 1);
        let four = seq![
            b,
            t,
            Dim::Fixed(model.layers@.len() as usize),
            Dim::Fixed(model.per_layer_input_dim),
        ];
        assert(scaled.dims().take(2) =~= four.take(2));
        let shaped = scaled.reshape(four);
        lemma_read_reshaped(r, scaled, four, 1);
        assert(four.skip(2) =~= model.own_dims());
        assert(shaped.dims() == four);
        assert(shaped.dtype() == w) by {
            assert(flat.dtype() == w && scaled.dtype() == w);
        }
        lemma_norm_rows(r, norm, w, shaped, 1);
        lemma_rms_norm_dims(norm, w, shaped);
        let projected = rms_norm(norm, w, shaped);
        let own = model.per_layer_inputs(w, embeds, token_inputs)->Ok_0;
        if let Some(y) = token_inputs {
            let sum = projected.combine(Binary::Add, y);
            let halve = Unary::MulScalar(Scalar::RecipSqrt(2));
            lemma_read_together(r, projected, Binary::Add, y, 1);
            lemma_read_rowwise(r, sum, halve, 1);
            assert(own == Some(sum.apply(halve)));
        } else {
            assert(own == Some(projected));
        }
        assert forall|i: int| #[trigger]
            optional_row(r, own, 1, i) == model.own_rows(
                w,
                read(r, embeds, 1, i),
                optional_row(r, token_inputs, 1, i),
            ) by {
            assert(read(r, shaped, 1, i) == read(r, scaled, 1, i).shaped(model.own_dims()));
            assert(read(r, projected, 1, i) == norm_row(
                norm,
                w,
                w,
                Dim::Fixed(model.per_layer_input_dim),
                read(r, shaped, 1, i),
            ));
        }
    }
}

/// A layer's part of the layers' own inputs at one position.
pub open spec fn own_row(own: Option<Row>, i: usize) -> Option<Row> {
    match own {
        Some(row) => Some(
            row.each(Unary::Narrow { axis: 2, start: i, len: Dim::Fixed(1) }).each(
                Unary::Squeeze(2),
            ),
        ),
        None => None,
    }
}

/// A layer's part of the layers' own inputs, position by position.
pub proof fn lemma_own_input_rows(r: Reading, per_layer: Option<Term>, i: usize)
    requires
        r.wf(),
        per_layer matches Some(y) ==> y.dims().len() == 4,
    ensures
        forall|j: int| #[trigger]
            optional_row(r, own_input(per_layer, i), 1, j) == own_row(
                optional_row(r, per_layer, 1, j),
                i,
            ),
{
    if let Some(y) = per_layer {
        let narrow = Unary::Narrow { axis: 2, start: i, len: Dim::Fixed(1) };
        lemma_read_rowwise(r, y, narrow, 1);
        lemma_read_squeezed(r, y.apply(narrow), 2, 1);
        assert(own_input(per_layer, i) == Some(y.apply(narrow).apply(Unary::Squeeze(2))));
    }
}

/// The logits rest on the last position.
pub proof fn lemma_logits_rows(r: Reading, model: TextModel, xs: Term, seq_len: usize, d: Seq<Dim>)
    requires
        r.wf(),
        d.len() == 3,
        xs.has(r.s, d, r.s.weights),
        seq_len > 0,
    ensures
        model.logits(r.s.weights, xs, seq_len) matches Ok(logits) && read(r, logits, 1, 0)
            == model.logits_row(r.s.weights, d[2], read(r, xs, 1, seq_len - 1)),
{
    let w = r.s.weights;
    let start = (seq_len - 1) as usize;
    let last = xs.apply(Unary::Narrow { axis: 1, start, len: Dim::Fixed(1) });
    lemma_read_narrowed(r, xs, 1, start, Dim::Fixed(1));
    assert(read(r, last, 1, 0) == read(r, xs, 1, seq_len - 1));
    assert(last.dims().len() == 3 && last.dims()[2] == d[2]);
    lemma_norm_rows(r, model.norm, w, last, 1);
    lemma_rms_norm_dims(model.norm, w, last);
    let normed = rms_norm(model.norm, w, last);
    let plain = normed.project(model.lm_head);
    lemma_read_projected(r, normed, model.lm_head, 1);
    assert(read(r, plain, 1, 0) == read(r, normed, 1, 0).project(model.lm_head));
    if let Some(sc) = model.final_logit_softcapping {
        let div = Unary::DivScalar(Scalar::Given(sc));
        let scaled = plain.apply(div);
        lemma_read_rowwise(r, plain, div, 1);
        let capped = scaled.apply(Unary::Tanh);
        lemma_read_rowwise(r, scaled, Unary::Tanh, 1);
        lemma_read_rowwise(r, capped, Unary::MulScalar(Scalar::Given(sc)), 1);
    }
}

} // verus!
