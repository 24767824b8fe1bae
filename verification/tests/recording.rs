//! What is recorded on a tape.

use gemma4_text::mask::{hidden_positions, prepare_decoder_attention_mask};
use gemma4_text::mlp::MLP;
use gemma4_text::norm::{v_norm, RmsNorm};
use gemma4_text::refusal::Refusal;
use gemma4_text::rotary::{apply_gemma4_rope, ProportionalRotaryEmbedding, RotaryEmbedding};
use gemma4_text::shape;
use gemma4_text::tape::{Op, Tape};
use gemma4_text::term::{
    Activation, Binary, Block, DType, Dim, Embedding, F64Bits, Linear, Module, Precision,
    Projection, Scalar, Unary, VarPath,
};

fn bits(x: f64) -> F64Bits {
    F64Bits { bits: x.to_bits() }
}

fn fixed(sizes: &[usize]) -> Vec<Dim> {
    sizes.iter().map(|n| Dim::Fixed(*n)).collect()
}

fn ops(tape: &Tape, from: usize) -> Vec<Op> {
    tape.nodes[from..].iter().map(|n| n.op.clone()).collect()
}

#[test]
fn a_new_tape_is_empty() {
    let tape = Tape::new(DType::BF16);
    assert_eq!(tape.len(), 0);
    assert_eq!(tape.dtype, DType::BF16);
}

#[test]
fn operations_can_be_taken_back() {
    let mut tape = Tape::new(DType::F32);
    let x = tape.embeds(&vec![1, 2, 3], DType::F32);
    let kept = tape.len();
    let y = tape.apply(Unary::Neg, &x);
    assert_eq!(y.id(), kept);
    tape.truncate(kept);
    assert_eq!(tape.len(), kept);
    assert_eq!(tape.nodes[x.id()].op, Op::Embeds);
}

#[test]
fn operands_are_listed_in_order() {
    assert_eq!(Op::Arange(4).operands(), Vec::<usize>::new());
    assert_eq!(Op::Apply(Unary::Neg, 3).operands(), vec![3]);
    assert_eq!(Op::CachedValues(2).operands(), vec![2]);
    assert_eq!(Op::Combine(Binary::Add, 5, 1).operands(), vec![5, 1]);
    assert_eq!(Op::FlashAttn { q: 3, k: 1, v: 2, causal: true }.operands(), vec![3, 1, 2]);
    assert_eq!(Op::Append { layer: 9, fresh: true, k: 4, v: 6 }.operands(), vec![4, 6]);
}

#[test]
fn ranks_are_checked() {
    let mut tape = Tape::new(DType::F32);
    let x = tape.embeds(&vec![4, 5], DType::F32);
    let s = tape.embeds(&vec![], DType::F32);
    assert_eq!(tape.dims2(&x), Ok((Dim::Fixed(4), Dim::Fixed(5))));
    assert_eq!(tape.dims3(&x), Err(Refusal::Rank { expected: 3, found: 2 }));
    assert_eq!(tape.dims4(&x), Err(Refusal::Rank { expected: 4, found: 2 }));
    assert_eq!(tape.dims2(&s), Err(Refusal::Rank { expected: 2, found: 0 }));
    assert_eq!(tape.last_dim(&x), Ok(Dim::Fixed(5)));
    assert_eq!(tape.last_dim(&s), Err(Refusal::NoAxis));
}

#[test]
fn extents_and_element_types_follow_the_operations() {
    let mut tape = Tape::new(DType::BF16);
    let x = tape.embeds(&vec![2, 3, 8], DType::F32);
    let y = tape.apply(Unary::Transpose(1, 2), &x);
    assert_eq!(*tape.dims(&y), fixed(&[2, 8, 3]));
    let y = tape.apply(Unary::Narrow { axis: 1, start: 4, len: Dim::Fixed(2) }, &y);
    assert_eq!(*tape.dims(&y), fixed(&[2, 2, 3]));
    let y = tape.apply(Unary::Cast(DType::F16), &y);
    assert_eq!(tape.dtype(&y), DType::F16);
    let y = tape.apply(Unary::SumLast, &y);
    assert_eq!(*tape.dims(&y), fixed(&[2, 2, 1]));
    let y = tape.apply(Unary::Squeeze(2), &y);
    assert_eq!(*tape.dims(&y), fixed(&[2, 2]));
    let y = tape.apply(Unary::UnsqueezeFirst, &y);
    assert_eq!(*tape.dims(&y), fixed(&[1, 2, 2]));
    let y = tape.combine(Binary::CatLast, &y, &y);
    assert_eq!(*tape.dims(&y), fixed(&[1, 2, 4]));
    let z = tape.combine(Binary::BroadcastMul, &x, &x);
    assert_eq!(*tape.dims(&z), fixed(&[2, 3, 8]));
    let linear =
        Linear { path: VarPath::root().pp(Module::QProj), in_dim: 8, out_dim: 5, bias: false };
    let p = tape.project(Projection::Own(linear), &x);
    assert_eq!(*tape.dims(&p), fixed(&[2, 3, 5]));
    let ids = tape.token_ids(&vec![2, 3]);
    assert_eq!(tape.dtype(&ids), DType::U32);
    let table = Embedding { path: VarPath::root().pp(Module::EmbedTokens), rows: 9, cols: 7 };
    let e = tape.lookup(table, &ids);
    assert_eq!(*tape.dims(&e), fixed(&[2, 3, 7]));
    assert_eq!(tape.dtype(&e), DType::BF16);
}

#[test]
fn a_cache_hands_back_an_extent_of_its_own() {
    let mut tape = Tape::new(DType::F32);
    let k = tape.embeds(&vec![1, 2, 3, 4], DType::F32);
    let v = tape.embeds(&vec![1, 2, 3, 4], DType::F32);
    let (keys, values) = tape.append(7, true, &k, &v);
    let dims = vec![Dim::Fixed(1), Dim::Fixed(2), Dim::Cached(7), Dim::Fixed(4)];
    assert_eq!(*tape.dims(&keys), dims);
    assert_eq!(*tape.dims(&values), dims);
    assert_eq!(
        ops(&tape, 2),
        vec![
            Op::Append { layer: 7, fresh: true, k: 0, v: 1 },
            Op::CachedKeys(2),
            Op::CachedValues(2),
        ]
    );
    let many = tape.apply(Unary::RepeatKv(3), &keys);
    assert_eq!(
        *tape.dims(&many),
        vec![Dim::Fixed(1), Dim::Fixed(6), Dim::Cached(7), Dim::Fixed(4)]
    );
}

#[test]
fn extents_are_matched_from_the_last_axis() {
    assert_eq!(shape::broadcast(&fixed(&[2, 1, 5]), &fixed(&[4, 1])), fixed(&[2, 4, 5]));
    assert_eq!(shape::broadcast(&fixed(&[5]), &fixed(&[3, 5])), fixed(&[3, 5]));
    assert_eq!(shape::merged(Dim::Fixed(3), Dim::Fixed(4)), Dim::Fixed(12));
    assert_eq!(shape::merged(Dim::Fixed(usize::MAX), Dim::Fixed(2)), Dim::Fixed(usize::MAX));
    assert_eq!(shape::joined(Dim::Fixed(3), Dim::Fixed(4)), Dim::Fixed(7));
    assert_eq!(
        shape::binary(Binary::Matmul, &fixed(&[2, 3, 4]), &fixed(&[2, 4, 9])),
        fixed(&[2, 3, 9])
    );
}

#[test]
fn normalization_is_recorded_in_wide_elements() {
    let mut tape = Tape::new(DType::BF16);
    let mut loads = Vec::new();
    let path = VarPath::root().pp(Module::Norm);
    let norm = RmsNorm::new(8, bits(1e-6), path, &mut loads);
    let x = tape.embeds(&vec![1, 2, 8], DType::BF16);
    let y = norm.forward(&mut tape, &x).unwrap();
    assert_eq!(
        ops(&tape, 1),
        vec![
            Op::Apply(Unary::Cast(DType::F32), 0),
            Op::Apply(Unary::Sqr, 1),
            Op::Apply(Unary::SumLast, 2),
            Op::Apply(Unary::DivScalar(Scalar::Extent(Dim::Fixed(8))), 3),
            Op::Apply(Unary::AddScalar(Scalar::Given(bits(1e-6))), 4),
            Op::Apply(Unary::Sqrt, 5),
            Op::Combine(Binary::BroadcastDiv, 1, 6),
            Op::Apply(Unary::Cast(DType::BF16), 7),
            Op::Param(norm.weight),
            Op::Combine(Binary::BroadcastMul, 8, 9),
        ]
    );
    assert_eq!(*tape.dims(&y), fixed(&[1, 2, 8]));
    assert_eq!(tape.dtype(&y), DType::BF16);
}

#[test]
fn normalization_keeps_wide_elements_wide() {
    let norm = RmsNorm::new(8, bits(1e-6), VarPath::root(), &mut Vec::new());
    for (given, inside) in [
        (DType::F16, DType::F32),
        (DType::F32, DType::F32),
        (DType::F64, DType::F64),
    ] {
        let mut tape = Tape::new(given);
        let x = tape.embeds(&vec![8], given);
        norm.forward(&mut tape, &x).unwrap();
        assert_eq!(tape.nodes[1].op, Op::Apply(Unary::Cast(inside), 0));
    }
}

#[test]
fn a_tensor_without_axes_is_not_normalized() {
    let norm = RmsNorm::new(8, bits(1e-6), VarPath::root(), &mut Vec::new());
    let mut tape = Tape::new(DType::F32);
    let x = tape.embeds(&vec![], DType::F32);
    assert!(matches!(norm.forward(&mut tape, &x), Err(Refusal::NoAxis)));
    assert_eq!(tape.len(), 1);
}

#[test]
fn values_are_normalized_in_single_precision_without_a_weight() {
    let mut tape = Tape::new(DType::BF16);
    let v = tape.embeds(&vec![2, 4], DType::F64);
    let y = v_norm(&mut tape, &v, bits(0.5));
    assert_eq!(
        ops(&tape, 1),
        vec![
            Op::Apply(Unary::Cast(DType::F32), 0),
            Op::Apply(Unary::Sqr, 1),
            Op::Apply(Unary::MeanLast, 2),
            Op::Apply(Unary::AddScalar(Scalar::Given(bits(0.5))), 3),
            Op::Apply(Unary::Sqrt, 4),
            Op::Combine(Binary::BroadcastDiv, 1, 5),
            Op::Apply(Unary::Cast(DType::F64), 6),
        ]
    );
    assert_eq!(tape.dtype(&y), DType::F64);
}

#[test]
fn the_feed_forward_block_gates_one_projection_with_another() {
    let act = Activation { index: 3 };
    let vb = VarPath::root().pp_layer(0).pp_block(Block::Mlp);
    let mlp = MLP::new(4, 10, act, false, vb, &mut Vec::new());
    let mut tape = Tape::new(DType::F32);
    let x = tape.embeds(&vec![1, 2, 4], DType::F32);
    let y = mlp.forward(&mut tape, &x);
    assert_eq!(
        ops(&tape, 1),
        vec![
            Op::Project(Projection::Own(mlp.gate_proj), 0),
            Op::Apply(Unary::Activate(act), 1),
            Op::Project(Projection::Own(mlp.up_proj), 0),
            Op::Combine(Binary::Mul, 2, 3),
            Op::Project(Projection::Own(mlp.down_proj), 4),
        ]
    );
    assert_eq!(*tape.dims(&y), fixed(&[1, 2, 4]));
}

#[test]
fn a_head_is_rotated_by_halves() {
    let mut tape = Tape::new(DType::F32);
    let q = tape.embeds(&vec![1, 2, 3, 7], DType::F32);
    let cos = tape.embeds(&vec![3, 4], DType::F32);
    let sin = tape.embeds(&vec![3, 4], DType::F32);
    let (q2, _) = apply_gemma4_rope(&mut tape, &q, &q, &cos, &sin).unwrap();
    let recorded = ops(&tape, 3);
    // The tables, doubled and with two axes in front.
    assert_eq!(recorded[0], Op::Combine(Binary::CatLast, 1, 1));
    assert_eq!(recorded[1], Op::Apply(Unary::UnsqueezeFirst, 3));
    assert_eq!(recorded[2], Op::Apply(Unary::UnsqueezeFirst, 4));
    assert_eq!(recorded[3], Op::Combine(Binary::CatLast, 2, 2));
    // The queries: an odd element belongs to the second half.
    assert_eq!(recorded[6], Op::Combine(Binary::BroadcastMul, 0, 5));
    assert_eq!(recorded[7], Op::Apply(Unary::NarrowLast { start: 0, count: 3 }, 0));
    assert_eq!(recorded[8], Op::Apply(Unary::NarrowLast { start: 3, count: 4 }, 0));
    assert_eq!(recorded[9], Op::Apply(Unary::Neg, 11));
    assert_eq!(recorded[10], Op::Combine(Binary::CatLast, 12, 10));
    assert_eq!(recorded[11], Op::Combine(Binary::BroadcastMul, 13, 8));
    assert_eq!(recorded[12], Op::Combine(Binary::Add, 9, 14));
    assert_eq!(q2.id(), 15);
}

#[test]
fn sliding_layers_rotate_every_pair() {
    let mut tape = Tape::new(DType::BF16);
    let rotary = RotaryEmbedding::new(&mut tape, DType::BF16, 6, bits(1e4), 32);
    assert_eq!(
        ops(&tape, 0),
        vec![
            Op::InvFreq {
                numerators: vec![Some(0), Some(2), Some(4)],
                head_dim: 6,
                theta: bits(1e4),
                precision: Precision::Double,
            },
            Op::Apply(Unary::Cast(DType::BF16), 0),
            Op::Arange(32),
            Op::Apply(Unary::Cast(DType::BF16), 2),
            Op::Reshape(3),
            Op::Combine(Binary::Matmul, 4, 1),
            Op::Apply(Unary::Sin, 5),
            Op::Apply(Unary::Cos, 5),
        ]
    );
    assert_eq!((rotary.sin.id(), rotary.cos.id()), (6, 7));
    assert_eq!(*tape.dims(&rotary.cos), fixed(&[32, 3]));
}

#[test]
fn an_odd_head_has_one_more_frequency() {
    let mut tape = Tape::new(DType::F32);
    RotaryEmbedding::new(&mut tape, DType::F32, 5, bits(1e4), 4);
    match &tape.nodes[0].op {
        Op::InvFreq { numerators, .. } => assert_eq!(*numerators, vec![Some(0), Some(2), Some(4)]),
        _ => panic!("no frequencies"),
    }
}

#[test]
fn full_layers_rotate_the_leading_pairs_only() {
    let mut tape = Tape::new(DType::BF16);
    let rotary = ProportionalRotaryEmbedding::new(&mut tape, DType::BF16, 8, bits(1e6), 2, 16);
    assert_eq!(
        tape.nodes[0].op,
        Op::InvFreq {
            numerators: vec![Some(0), Some(2), None, None],
            head_dim: 8,
            theta: bits(1e6),
            precision: Precision::Single,
        }
    );
    assert_eq!(*tape.dims(&rotary.sin), fixed(&[16, 4]));
    assert_eq!(tape.dtype(&rotary.sin), DType::BF16);
    // The angles themselves are in single precision.
    let angles = tape.nodes.iter().find(|n| matches!(n.op, Op::Combine(Binary::Matmul, _, _)));
    assert_eq!(angles.unwrap().dtype, DType::F32);
}

#[test]
fn a_full_rotation_has_the_frequencies_of_an_ordinary_one() {
    let mut local = Tape::new(DType::F32);
    RotaryEmbedding::new(&mut local, DType::F32, 8, bits(1e4), 4);
    let mut global = Tape::new(DType::F32);
    ProportionalRotaryEmbedding::new(&mut global, DType::F32, 8, bits(1e4), 4, 4);
    match (&local.nodes[0].op, &global.nodes[0].op) {
        (Op::InvFreq { numerators: a, .. }, Op::InvFreq { numerators: b, .. }) => assert_eq!(a, b),
        _ => panic!("no frequencies"),
    }
}

#[test]
fn the_same_calls_record_the_same_operations() {
    let record = || {
        let mut tape = Tape::new(DType::F32);
        let x = tape.embeds(&vec![2, 4], DType::F32);
        v_norm(&mut tape, &x, bits(1e-6));
        tape
    };
    assert_eq!(record().nodes, record().nodes);
}

#[test]
fn rotation_takes_the_rows_of_its_positions() {
    let mut tape = Tape::new(DType::F32);
    let rotary = RotaryEmbedding::new(&mut tape, DType::F32, 4, bits(1e4), 32);
    let q = tape.embeds(&vec![1, 2, 3, 4], DType::F32);
    let from = tape.len();
    rotary.apply_rotary_emb_qkv(&mut tape, &q, &q, 9).unwrap();
    let rows = Unary::Narrow { axis: 0, start: 9, len: Dim::Fixed(3) };
    assert_eq!(tape.nodes[from].op, Op::Apply(rows, rotary.cos.id()));
    assert_eq!(tape.nodes[from + 1].op, Op::Apply(rows, rotary.sin.id()));
}

#[test]
fn rotation_needs_angles_for_its_positions() {
    let mut tape = Tape::new(DType::F32);
    let local = RotaryEmbedding::new(&mut tape, DType::F32, 4, bits(1e4), 32);
    let global = ProportionalRotaryEmbedding::new(&mut tape, DType::F32, 4, bits(1e4), 1, 32);
    let q = tape.embeds(&vec![1, 2, 3, 4], DType::F32);
    assert!(local.apply_rotary_emb_qkv(&mut tape, &q, &q, 29).is_ok());
    let before = tape.len();
    assert!(matches!(
        local.apply_rotary_emb_qkv(&mut tape, &q, &q, 30),
        Err(Refusal::Range { start: 30, len: 3, size: 32 })
    ));
    assert!(matches!(
        global.apply_rotary_emb_qkv(&mut tape, &q, &q, usize::MAX),
        Err(Refusal::Range { start: usize::MAX, len: 3, size: 32 })
    ));
    let bare = tape.embeds(&vec![], DType::F32);
    let none = RotaryEmbedding { sin: local.sin, cos: bare };
    assert!(matches!(none.apply_rotary_emb_qkv(&mut tape, &q, &q, 0), Err(Refusal::NoAxis)));
    assert_eq!(tape.len(), before + 1);
}

#[test]
fn keys_and_tables_without_axes_are_not_rotated() {
    let mut tape = Tape::new(DType::F32);
    let local = RotaryEmbedding::new(&mut tape, DType::F32, 4, bits(1e4), 32);
    let global = ProportionalRotaryEmbedding::new(&mut tape, DType::F32, 4, bits(1e4), 1, 32);
    let q = tape.embeds(&vec![1, 2, 3, 4], DType::F32);
    let bare = tape.embeds(&vec![], DType::F32);
    let before = tape.len();
    assert!(matches!(local.apply_rotary_emb_qkv(&mut tape, &q, &bare, 0), Err(Refusal::NoAxis)));
    assert!(matches!(global.apply_rotary_emb_qkv(&mut tape, &q, &bare, 0), Err(Refusal::NoAxis)));
    // Queries come first, and then the positions.
    assert!(matches!(
        local.apply_rotary_emb_qkv(&mut tape, &bare, &bare, 0),
        Err(Refusal::Rank { expected: 4, found: 0 })
    ));
    assert!(matches!(
        local.apply_rotary_emb_qkv(&mut tape, &q, &bare, 30),
        Err(Refusal::Range { start: 30, len: 3, size: 32 })
    ));
    for (q, k, cos, sin) in [
        (bare, q, local.cos, local.sin),
        (q, bare, local.cos, local.sin),
        (q, q, bare, local.sin),
        (q, q, local.cos, bare),
    ] {
        let r = apply_gemma4_rope(&mut tape, &q, &k, &cos, &sin);
        assert!(matches!(r, Err(Refusal::NoAxis)));
    }
    assert_eq!(tape.len(), before);
}

#[test]
fn rotation_needs_four_axes() {
    let mut tape = Tape::new(DType::F32);
    let local = RotaryEmbedding::new(&mut tape, DType::F32, 4, bits(1e4), 32);
    let global = ProportionalRotaryEmbedding::new(&mut tape, DType::F32, 4, bits(1e4), 1, 32);
    let q = tape.embeds(&vec![2, 3, 4], DType::F32);
    assert!(matches!(
        local.apply_rotary_emb_qkv(&mut tape, &q, &q, 0),
        Err(Refusal::Rank { expected: 4, found: 3 })
    ));
    assert!(matches!(
        global.apply_rotary_emb_qkv(&mut tape, &q, &q, 0),
        Err(Refusal::Rank { expected: 4, found: 3 })
    ));
}

#[test]
fn later_tokens_are_hidden() {
    assert_eq!(
        hidden_positions(3, None),
        vec![false, true, true, false, false, true, false, false, false]
    );
    assert!(hidden_positions(0, None).is_empty());
}

#[test]
fn a_window_reaches_back_as_far_as_it_says_and_sees_the_token_itself() {
    assert_eq!(
        hidden_positions(4, Some(1)),
        vec![
            false, true, true, true, //
            false, false, true, true, //
            true, false, false, true, //
            true, true, false, false,
        ]
    );
    assert_eq!(hidden_positions(2, Some(0)), vec![false, true, true, false]);
    assert_eq!(hidden_positions(3, Some(usize::MAX)), hidden_positions(3, None));
}

#[test]
fn a_mask_without_earlier_tokens_is_the_square_alone() {
    let mut tape = Tape::new(DType::BF16);
    let m = prepare_decoder_attention_mask(&mut tape, 2, 3, 0, None, DType::BF16);
    assert_eq!(
        ops(&tape, 0),
        vec![
            Op::Mask { size: 3, blocked: hidden_positions(3, None) },
            Op::Expand(0),
            Op::Apply(Unary::Cast(DType::BF16), 1),
        ]
    );
    assert_eq!(*tape.dims(&m), fixed(&[2, 1, 3, 3]));
}

#[test]
fn earlier_tokens_are_seen_by_all() {
    let mut tape = Tape::new(DType::F32);
    let m = prepare_decoder_attention_mask(&mut tape, 1, 2, 5, Some(1), DType::F32);
    assert_eq!(
        ops(&tape, 0),
        vec![
            Op::Mask { size: 2, blocked: vec![false, true, false, false] },
            Op::Zeros,
            Op::Combine(Binary::CatLast, 1, 0),
            Op::Expand(2),
            Op::Apply(Unary::Cast(DType::F32), 3),
        ]
    );
    assert_eq!(tape.nodes[1].dims, fixed(&[2, 5]));
    assert_eq!(*tape.dims(&m), fixed(&[1, 1, 2, 7]));
}
