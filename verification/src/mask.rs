//! Which positions a token may see.

use crate::parts::{lemma_part_expand, parts};
use crate::rotary::known;
use crate::shape::fixed_dims;
use crate::tape::{Tape, Tensor};
use crate::term::{Binary, DType, Dim, Term, Unary};
use vstd::arithmetic::div_mod::lemma_fundamental_div_mod_converse;
use vstd::prelude::*;

verus! {

broadcast use {
    crate::tape::group_tape,
    crate::tape::group_adds,
    crate::parts::group_parts,
};

/// Whether, among the tokens at hand, token `i` may not see token `j`: `j` comes
/// later, or lies further back than a sliding window reaches.
pub open spec fn hidden(i: int, j: int, sliding_window: Option<usize>) -> bool {
    i < j || match sliding_window {
        Some(w) => j + w < i,
        None => false,
    }
}

/// For each token at hand, row by row, which of the others it may not see.
pub open spec fn hidden_rows(tgt_len: usize, sliding_window: Option<usize>) -> Seq<bool> {
    Seq::new(
        (tgt_len * tgt_len) as nat,
        |n: int| hidden(n / tgt_len as int, n % tgt_len as int, sliding_window),
    )
}

/// The mask added to attention scores: `seqlen_offset` columns of zeros for the
/// tokens before those at hand, and then the square for those at hand.
pub open spec fn attention_mask(
    b_size: usize,
    tgt_len: usize,
    seqlen_offset: usize,
    sliding_window: Option<usize>,
    dtype: DType,
) -> Term {
    let square = Term::Mask { size: tgt_len, blocked: hidden_rows(tgt_len, sliding_window) };
    let wide = if seqlen_offset > 0 {
        Term::Zeros(seq![Dim::Fixed(tgt_len), Dim::Fixed(seqlen_offset)]).combine(
            Binary::CatLast,
            square,
        )
    } else {
        square
    };
    Term::Expand(
        Box::new(wide),
        seq![
            Dim::Fixed(b_size),
            Dim::Fixed(1),
            Dim::Fixed(tgt_len),
            Dim::Fixed((tgt_len + seqlen_offset) as usize),
        ],
    ).apply(Unary::Cast(dtype))
}

/// Lists, row by row, which tokens each token may not see.
pub fn hidden_positions(tgt_len: usize, sliding_window: Option<usize>) -> (r: Vec<bool>)
    requires
        tgt_len * tgt_len <= usize::MAX,
    ensures
        r@ == hidden_rows(tgt_len, sliding_window),
{
    let ghost all = hidden_rows(tgt_len, sliding_window);
    let mut r: Vec<bool> = Vec::new();
    for i in 0..tgt_len
        invariant
            tgt_len * tgt_len <= usize::MAX,
            all == hidden_rows(tgt_len, sliding_window),
            i <= tgt_len,
            r@.len() == i * tgt_len,
            i * tgt_len <= all.len(),
            r@ == all.take(i * tgt_len),
    {
        assert(i * tgt_len + tgt_len <= tgt_len * tgt_len) by (nonlinear_arith)
            requires
                i + 1 <= tgt_len,
        ;
        for j in 0..tgt_len
            invariant
                i < tgt_len,
                i * tgt_len + tgt_len <= tgt_len * tgt_len,
                tgt_len * tgt_len <= usize::MAX,
                all == hidden_rows(tgt_len, sliding_window),
                r@ == all.take(i * tgt_len + j),
        {
            let far = match sliding_window {
                Some(w) => j < i && w < i - j,
                None => false,
            };
            r.push(i < j || far);
            proof {
                let n = i * tgt_len + j;
                lemma_fundamental_div_mod_converse(n, tgt_len as int, i as int, j as int);
                assert(all[n] == hidden(i as int, j as int, sliding_window));
                assert(all.take(n + 1) =~= all.take(n).push(all[n]));
            }
        }
        assert((i + 1) * tgt_len == i * tgt_len + tgt_len) by (nonlinear_arith);
    }
    assert(all.take(tgt_len * tgt_len) =~= all);
    r
}

/// Records the mask for `tgt_len` tokens behind `seqlen_offset` others.
pub fn prepare_decoder_attention_mask(
    tape: &mut Tape,
    b_size: usize,
    tgt_len: usize,
    seqlen_offset: usize,
    sliding_window: Option<usize>,
    dtype: DType,
) -> (r: Tensor)
    requires
        old(tape).wf(),
        tgt_len * tgt_len <= usize::MAX,
        tgt_len + seqlen_offset <= usize::MAX,
    ensures
        final(tape).computes(*old(tape), parts(r@)),
        final(tape).holds(r),
        r@ == attention_mask(b_size, tgt_len, seqlen_offset, sliding_window, dtype),
{
    let square = tape.mask(tgt_len, hidden_positions(tgt_len, sliding_window));
    let wide = if seqlen_offset > 0 {
        let sizes: Vec<usize> = vec![tgt_len, seqlen_offset];
        assert(fixed_dims(sizes@) =~= seq![
            Dim::Fixed(tgt_len),
            Dim::Fixed(seqlen_offset),
        ]);
        let mask0 = tape.zeros(&sizes);
        tape.combine(Binary::CatLast, &mask0, &square)
    } else {
        square
    };
    let dims: Vec<Dim> = vec![
        Dim::Fixed(b_size),
        Dim::Fixed(1),
        Dim::Fixed(tgt_len),
        Dim::Fixed(tgt_len + seqlen_offset),
    ];
    assert(dims@ =~= seq![
        Dim::Fixed(b_size),
        Dim::Fixed(1),
        Dim::Fixed(tgt_len),
        Dim::Fixed((tgt_len + seqlen_offset) as usize),
    ]);
    proof {
        lemma_part_expand(wide@, dims@);
    }
    let expanded = tape.expand(&wide, dims);
    tape.apply(Unary::Cast(dtype), &expanded)
}

/// Whether a mask holds minus infinity, and not zero, in row `row` and column
/// `col` of its last two axes.
pub open spec fn blocks(mask: Term, row: int, col: int) -> bool
    decreases mask,
{
    match mask {
        Term::Mask { size, blocked } => blocked[row * size + col],
        Term::Combine(Binary::CatLast, a, b) => if col < known(a.dims().last()) {
            blocks(*a, row, col)
        } else {
            blocks(*b, row, col - known(a.dims().last()))
        },
        Term::Expand(x, _) => blocks(*x, row, col),
        Term::Apply(Unary::Cast(_), x) => blocks(*x, row, col),
        _ => false,
    }
}

/// Every token sees all tokens before those at hand; of those at hand it sees
/// itself and the earlier ones, as far back as a sliding window reaches.
pub proof fn law_mask_entries(
    b_size: usize,
    tgt_len: usize,
    seqlen_offset: usize,
    sliding_window: Option<usize>,
    dtype: DType,
    row: int,
    col: int,
)
    requires
        0 <= row < tgt_len,
        0 <= col < tgt_len + seqlen_offset,
    ensures
        blocks(
            attention_mask(b_size, tgt_len, seqlen_offset, sliding_window, dtype),
            row,
            col,
        ) == (col >= seqlen_offset && hidden(row, col - seqlen_offset, sliding_window)),
        hidden(row, col - seqlen_offset, sliding_window) == (row < col - seqlen_offset || (
        sliding_window matches Some(w) && col - seqlen_offset + w < row)),
{
    let m = attention_mask(b_size, tgt_len, seqlen_offset, sliding_window, dtype);
    reveal_with_fuel(blocks, 4);
    let square = Term::Mask { size: tgt_len, blocked: hidden_rows(tgt_len, sliding_window) };
    if col >= seqlen_offset {
        let j = col - seqlen_offset;
        let n = row * tgt_len + j;
        lemma_fundamental_div_mod_converse(n, tgt_len as int, row, j);
        assert(0 <= n < tgt_len * tgt_len) by (nonlinear_arith)
            requires
                n == row * tgt_len + j,
                0 <= row < tgt_len,
                0 <= j < tgt_len,
        ;
        assert(blocks(square, row, j) == hidden(row, j, sliding_window));
    }
    if seqlen_offset > 0 {
        let zeros = Term::Zeros(seq![Dim::Fixed(tgt_len), Dim::Fixed(seqlen_offset)]);
        assert(zeros.dims().last() == Dim::Fixed(seqlen_offset));
    }
}

/// A token sees itself and never a later one, whatever the window.
pub proof fn law_mask_is_causal(tgt_len: usize, sliding_window: Option<usize>, i: int, j: int)
    requires
        0 <= i < tgt_len,
        0 <= j < tgt_len,
    ensures
        i < j ==> hidden(i, j, sliding_window),
        !hidden(i, i, sliding_window),
        sliding_window is None && j <= i ==> !hidden(i, j, sliding_window),
{
}

/// A sliding window hides what full attention hides, and more; it hides nothing
/// more where it reaches back over all tokens at hand.
pub proof fn law_window_narrows(tgt_len: usize, window: usize, i: int, j: int)
    requires
        0 <= i < tgt_len,
        0 <= j < tgt_len,
    ensures
        hidden(i, j, None) ==> hidden(i, j, Some(window)),
        tgt_len <= window + 1 ==> hidden(i, j, Some(window)) == hidden(i, j, None),
{
}

} // verus!
