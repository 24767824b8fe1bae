//! Passes of the decoder, on the tape and in numbers.

use gemma4_text::config::Gemma4TextConfig;
use gemma4_text::model::TextModel;
use gemma4_text::refusal::Refusal;
use gemma4_text::rotary::apply_gemma4_rope;
use gemma4_text::tape::{Node, Op, Tape, Tensor};
use gemma4_text::term::{
    Activation, Binary, DType, Dim, F64Bits, Projection, Scalar, Unary, VarPath,
};
use gemma4_text::vars::{Load, Segment};

fn bits(x: f64) -> F64Bits {
    F64Bits { bits: x.to_bits() }
}

/// Five layers: two sliding, one full, and one of each that shares.
fn config() -> Gemma4TextConfig {
    let sliding = vec![true, false, true, true, false];
    Gemma4TextConfig {
        vocab_size: 11,
        hidden_size: 6,
        intermediate_size: 9,
        num_hidden_layers: 5,
        num_attention_heads: 4,
        num_key_value_heads: 2,
        num_global_key_value_heads: Some(1),
        head_dim: 4,
        global_head_dim: 8,
        attention_bias: true,
        layer_types: sliding
            .iter()
            .map(|s| String::from(if *s { "sliding_attention" } else { "full_attention" }))
            .collect(),
        sliding,
        num_kv_shared_layers: 2,
        hidden_size_per_layer_input: 3,
        vocab_size_per_layer_input: 11,
        max_position_embeddings: 32,
        sliding_window: 20,
        effective_sliding_window: 20,
        rms_norm_eps: bits(1e-6),
        rope_theta: bits(1e6),
        rope_local_base_freq: bits(1e4),
        rope_angles: 2,
        final_logit_softcapping: Some(bits(30.0)),
        hidden_activation: Activation { index: 0 },
        tie_word_embeddings: true,
        use_flash_attn: false,
    }
}

/// A tensor of numbers.
#[derive(Clone, Debug)]
struct Numbers {
    dims: Vec<usize>,
    data: Vec<f64>,
}

impl Numbers {
    fn new(dims: Vec<usize>, data: Vec<f64>) -> Numbers {
        assert_eq!(dims.iter().product::<usize>(), data.len());
        Numbers { dims, data }
    }

    fn map(&self, f: impl Fn(f64) -> f64) -> Numbers {
        Numbers::new(self.dims.clone(), self.data.iter().map(|x| f(*x)).collect())
    }

    /// The tensor as rows along its last axis.
    fn rows(&self) -> Vec<&[f64]> {
        self.data.chunks(*self.dims.last().unwrap()).collect()
    }

    fn last(&self) -> usize {
        *self.dims.last().unwrap()
    }

    /// A tensor of the given extents, from the entry at each index.
    fn gather(dims: Vec<usize>, f: impl Fn(&[usize]) -> f64) -> Numbers {
        let n: usize = dims.iter().product();
        let mut data = Vec::with_capacity(n);
        let mut at = vec![0; dims.len()];
        for _ in 0..n {
            data.push(f(&at));
            for axis in (0..dims.len()).rev() {
                at[axis] += 1;
                if at[axis] < dims[axis] {
                    break;
                }
                at[axis] = 0;
            }
        }
        Numbers::new(dims, data)
    }

    fn at(&self, index: &[usize]) -> f64 {
        assert_eq!(index.len(), self.dims.len());
        let mut place = 0;
        for (i, d) in index.iter().zip(&self.dims) {
            assert!(i < d);
            place = place * d + i;
        }
        self.data[place]
    }

    /// The entry that broadcasting finds for an index.
    fn stretched(&self, index: &[usize]) -> f64 {
        let skip = index.len() - self.dims.len();
        let own: Vec<usize> = index[skip..]
            .iter()
            .zip(&self.dims)
            .map(|(i, d)| if *d == 1 { 0 } else { *i })
            .collect();
        self.at(&own)
    }

    fn cat(&self, other: &Numbers, axis: usize) -> Numbers {
        let mut dims = self.dims.clone();
        let split = dims[axis];
        dims[axis] += other.dims[axis];
        Numbers::gather(dims, |at| {
            if at[axis] < split {
                self.at(at)
            } else {
                let mut rest = at.to_vec();
                rest[axis] -= split;
                other.at(&rest)
            }
        })
    }

    fn narrow(&self, axis: usize, start: usize, len: usize) -> Numbers {
        let mut dims = self.dims.clone();
        assert!(start + len <= dims[axis]);
        dims[axis] = len;
        Numbers::gather(dims, |at| {
            let mut from = at.to_vec();
            from[axis] += start;
            self.at(&from)
        })
    }

    fn transpose(&self, a: usize, b: usize) -> Numbers {
        let mut dims = self.dims.clone();
        dims.swap(a, b);
        Numbers::gather(dims, |at| {
            let mut from = at.to_vec();
            from.swap(a, b);
            self.at(&from)
        })
    }

    fn matmul(&self, other: &Numbers) -> Numbers {
        let n = self.dims.len();
        assert_eq!(self.dims[n - 1], other.dims[n - 2]);
        assert_eq!(self.dims[..n - 2], other.dims[..n - 2]);
        let mut dims = self.dims.clone();
        dims[n - 1] = other.dims[n - 1];
        Numbers::gather(dims, |at| {
            (0..self.last())
                .map(|i| {
                    let mut left = at.to_vec();
                    left[n - 1] = i;
                    let mut right = at.to_vec();
                    right[n - 2] = i;
                    self.at(&left) * other.at(&right)
                })
                .sum()
        })
    }

    fn softmax(&self) -> Numbers {
        let mut data = Vec::new();
        for row in self.rows() {
            let top = row.iter().cloned().fold(f64::NEG_INFINITY, f64::max);
            let sum: f64 = row.iter().map(|x| (x - top).exp()).sum();
            data.extend(row.iter().map(|x| (x - top).exp() / sum));
        }
        Numbers::new(self.dims.clone(), data)
    }
}

/// Weights that depend on their name alone.
fn weight(name: &str, i: usize) -> f64 {
    let mut h: u64 = 0xcbf29ce484222325;
    for b in name.bytes().chain(i.to_le_bytes()) {
        h = (h ^ u64::from(b)).wrapping_mul(0x100000001b3);
    }
    h ^= h >> 29;
    h = h.wrapping_mul(0xbf58476d1ce4e5b9);
    h ^= h >> 32;
    (h % 2000) as f64 / 1000.0 - 1.0
}

fn name(path: &VarPath) -> String {
    path.segments()
        .iter()
        .map(|s| match s {
            Segment::Text(t) => String::from(*t),
            Segment::Index(i) => i.to_string(),
        })
        .collect::<Vec<String>>()
        .join(".")
}

fn scalar(s: &Scalar) -> f64 {
    match s {
        Scalar::Given(b) => f64::from_bits(b.bits),
        Scalar::Extent(Dim::Fixed(n)) => *n as f64,
        Scalar::Extent(Dim::Cached(_)) => panic!("an extent of a cache as a number"),
        Scalar::Sqrt(n) => (*n as f64).sqrt(),
        Scalar::RecipSqrt(n) => (*n as f64).sqrt().recip(),
    }
}

/// A model with its tape, the numbers computed so far and its caches.
struct Run {
    model: TextModel,
    tape: Tape,
    values: Vec<Numbers>,
    caches: Vec<Option<(Numbers, Numbers)>>,
}

impl Run {
    fn new(cfg: &Gemma4TextConfig) -> Run {
        assert!(cfg.check());
        let mut tape = Tape::new(DType::F32);
        let model = TextModel::new(cfg, &mut tape, &mut Vec::new());
        let mut run =
            Run { model, tape, values: Vec::new(), caches: vec![None; cfg.num_hidden_layers] };
        run.catch_up(None);
        run
    }

    /// Feeds tokens at the positions from `offset` on.
    fn feed(&mut self, tokens: &[u32], offset: usize) -> Vec<f64> {
        let ids = self.tape.token_ids(&vec![1, tokens.len()]);
        assert!(TextModel::check_masks(tokens.len(), offset));
        let logits = self.model.forward(&mut self.tape, &ids, offset).unwrap();
        let input = Numbers::new(
            vec![1, tokens.len()],
            tokens.iter().map(|t| f64::from(*t)).collect(),
        );
        self.catch_up(Some(&input));
        self.values[logits.id()].data.clone()
    }

    /// Carries out what was recorded since the last time.
    fn catch_up(&mut self, input: Option<&Numbers>) {
        for i in self.values.len()..self.tape.nodes.len() {
            let value = self.carry_out(i, input);
            let node = &self.tape.nodes[i];
            let dims: Vec<usize> = node.dims.iter().map(|d| self.extent(d)).collect();
            assert_eq!(value.dims, dims, "{:?}", node.op);
            self.values.push(value);
        }
    }

    fn extent(&self, d: &Dim) -> usize {
        match d {
            Dim::Fixed(n) => *n,
            Dim::Cached(layer) => self.caches[*layer].as_ref().unwrap().0.dims[2],
        }
    }

    fn carry_out(&mut self, i: usize, input: Option<&Numbers>) -> Numbers {
        let node: Node = self.tape.nodes[i].clone();
        if let Op::Append { layer, fresh, k, v } = node.op {
            let (k, v) = (self.values[k].clone(), self.values[v].clone());
            let held = if fresh { None } else { self.caches[layer].take() };
            let both = match held {
                None => (k, v),
                Some((keys, values)) => (keys.cat(&k, 2), values.cat(&v, 2)),
            };
            let keys = both.0.clone();
            self.caches[layer] = Some(both);
            return keys;
        }
        let cache = |a: usize| match self.tape.nodes[a].op {
            Op::Append { layer, .. } => self.caches[layer].clone().unwrap(),
            _ => panic!("no append"),
        };
        let v = |i: usize| &self.values[i];
        match node.op {
            Op::TokenIds | Op::Embeds => input.unwrap().clone(),
            Op::Param(p) => {
                let name = format!("{}.{}", name(&p.path), p.name.text());
                Numbers::new(vec![p.len], (0..p.len).map(|i| weight(&name, i)).collect())
            }
            Op::InvFreq { numerators, head_dim, theta, .. } => Numbers::new(
                vec![1, numerators.len()],
                numerators
                    .iter()
                    .map(|n| match n {
                        Some(n) => {
                            1.0 / f64::from_bits(theta.bits).powf(*n as f64 / head_dim as f64)
                        }
                        None => 0.0,
                    })
                    .collect(),
            ),
            Op::Arange(n) => Numbers::new(vec![n as usize], (0..n).map(f64::from).collect()),
            Op::Zeros => Numbers::gather(
                node.dims.iter().map(|d| self.extent(d)).collect(),
                |_| 0.0,
            ),
            Op::Mask { size, blocked } => Numbers::new(
                vec![size, size],
                blocked.iter().map(|b| if *b { f64::NEG_INFINITY } else { 0.0 }).collect(),
            ),
            Op::Apply(op, x) => unary(op, v(x), |d| self.extent(d)),
            Op::Combine(op, a, b) => binary(op, v(a), v(b)),
            Op::Reshape(x) => Numbers::new(
                node.dims.iter().map(|d| self.extent(d)).collect(),
                v(x).data.clone(),
            ),
            Op::Expand(x) => {
                let dims = node.dims.iter().map(|d| self.extent(d)).collect();
                Numbers::gather(dims, |at| v(x).stretched(at))
            }
            Op::Project(p, x) => project(&p, v(x)),
            Op::Lookup(table, ids) => {
                let name = name(&table.path);
                let mut dims = v(ids).dims.clone();
                dims.push(table.cols);
                Numbers::gather(dims, |at| {
                    let row = v(ids).at(&at[..at.len() - 1]) as usize;
                    assert!(row < table.rows);
                    weight(&name, row * table.cols + at[at.len() - 1])
                })
            }
            Op::FlashAttn { q, k, v: value, causal } => fused(v(q), v(k), v(value), causal),
            Op::CachedKeys(a) => cache(a).0,
            Op::CachedValues(a) => cache(a).1,
            Op::Append { .. } => unreachable!(),
        }
    }
}

fn unary(op: Unary, x: &Numbers, extent: impl Fn(&Dim) -> usize) -> Numbers {
    let reduced = |f: &dyn Fn(&[f64]) -> f64| {
        let mut dims = x.dims.clone();
        *dims.last_mut().unwrap() = 1;
        Numbers::new(dims, x.rows().into_iter().map(f).collect())
    };
    match op {
        Unary::Cast(_) | Unary::Contiguous => x.clone(),
        Unary::Sqr => x.map(|a| a * a),
        Unary::Sqrt => x.map(f64::sqrt),
        Unary::Neg => x.map(|a| -a),
        Unary::Sin => x.map(f64::sin),
        Unary::Cos => x.map(f64::cos),
        Unary::Tanh => x.map(f64::tanh),
        Unary::SoftmaxLast => x.softmax(),
        Unary::SumLast => reduced(&|row| row.iter().sum()),
        Unary::MeanLast => reduced(&|row| row.iter().sum::<f64>() / row.len() as f64),
        Unary::AddScalar(s) => x.map(|a| a + scalar(&s)),
        Unary::MulScalar(s) => x.map(|a| a * scalar(&s)),
        Unary::DivScalar(s) => x.map(|a| a / scalar(&s)),
        Unary::Activate(_) => x.map(|a| a / (1.0 + (-a).exp())),
        Unary::UnsqueezeFirst => {
            let mut dims = vec![1];
            dims.extend(&x.dims);
            Numbers::new(dims, x.data.clone())
        }
        Unary::Squeeze(axis) => {
            let mut dims = x.dims.clone();
            assert_eq!(dims.remove(axis), 1);
            Numbers::new(dims, x.data.clone())
        }
        Unary::Narrow { axis, start, len } => x.narrow(axis, start, extent(&len)),
        Unary::NarrowLast { start, count } => x.narrow(x.dims.len() - 1, start, count),
        Unary::Transpose(a, b) => x.transpose(a, b),
        Unary::RepeatKv(n) => {
            let mut dims = x.dims.clone();
            dims[1] *= n;
            Numbers::gather(dims, |at| x.at(&[at[0], at[1] / n, at[2], at[3]]))
        }
    }
}

fn binary(op: Binary, a: &Numbers, b: &Numbers) -> Numbers {
    let stretch = |f: &dyn Fn(f64, f64) -> f64| {
        let n = a.dims.len().max(b.dims.len());
        let dim = |dims: &Vec<usize>, i: usize| {
            if i + dims.len() < n {
                1
            } else {
                dims[i + dims.len() - n]
            }
        };
        let dims = (0..n).map(|i| dim(&a.dims, i).max(dim(&b.dims, i))).collect();
        Numbers::gather(dims, |at| f(a.stretched(at), b.stretched(at)))
    };
    match op {
        Binary::Add | Binary::Mul => {
            assert_eq!(a.dims, b.dims);
            if op == Binary::Add {
                stretch(&|x, y| x + y)
            } else {
                stretch(&|x, y| x * y)
            }
        }
        Binary::BroadcastAdd => stretch(&|x, y| x + y),
        Binary::BroadcastMul => stretch(&|x, y| x * y),
        Binary::BroadcastDiv => stretch(&|x, y| x / y),
        Binary::Matmul => a.matmul(b),
        Binary::CatLast => a.cat(b, a.dims.len() - 1),
    }
}

fn project(p: &Projection, x: &Numbers) -> Numbers {
    let (name, n_in, n_out, bias) = match p {
        Projection::Own(l) => (name(&l.path), l.in_dim, l.out_dim, l.bias),
        Projection::Tied(e) => (name(&e.path), e.cols, e.rows, false),
    };
    assert_eq!(x.last(), n_in);
    let offset = |o: usize| {
        if bias {
            weight(&format!("{}.bias", name), o)
        } else {
            0.0
        }
    };
    let mut dims = x.dims.clone();
    *dims.last_mut().unwrap() = n_out;
    let mut data = Vec::new();
    for row in x.rows() {
        for o in 0..n_out {
            let sum: f64 = row.iter().enumerate().map(|(i, a)| a * weight(&name, o * n_in + i)).sum();
            data.push(sum + offset(o));
        }
    }
    Numbers::new(dims, data)
}

/// Attention in one go, over positions, heads and elements.
fn fused(q: &Numbers, k: &Numbers, v: &Numbers, causal: bool) -> Numbers {
    let behind = k.dims[1] - q.dims[1];
    Numbers::gather(q.dims.clone(), |at| {
        let (b, i, h, d) = (at[0], at[1], at[2], at[3]);
        let seen = if causal { i + behind + 1 } else { k.dims[1] };
        let score = |j: usize| -> f64 {
            (0..q.dims[3]).map(|e| q.at(&[b, i, h, e]) * k.at(&[b, j, h, e])).sum::<f64>()
        };
        let total: f64 = (0..seen).map(|j| score(j).exp()).sum();
        (0..seen).map(|j| score(j).exp() / total * v.at(&[b, j, h, d])).sum()
    })
}

fn close(a: &[f64], b: &[f64]) -> bool {
    a.len() == b.len() && a.iter().zip(b).all(|(x, y)| (x - y).abs() < 1e-9)
}

const PROMPT: [u32; 6] = [3, 1, 4, 10, 5, 9];

#[test]
fn feeding_in_parts_gives_the_same_logits() {
    let cfg = config();
    let whole = Run::new(&cfg).feed(&PROMPT, 0);
    assert_eq!(whole.len(), 11);
    for split in 1..PROMPT.len() {
        let mut run = Run::new(&cfg);
        run.feed(&PROMPT[..split], 0);
        let parts = run.feed(&PROMPT[split..], split);
        assert!(close(&whole, &parts), "split at {}", split);
    }
    let mut run = Run::new(&cfg);
    let mut last = Vec::new();
    for (i, token) in PROMPT.iter().enumerate() {
        last = run.feed(&[*token], i);
    }
    assert!(close(&whole, &last));
}

#[test]
fn every_token_matters() {
    let cfg = config();
    let whole = Run::new(&cfg).feed(&PROMPT, 0);
    for i in 0..PROMPT.len() {
        let mut other = PROMPT;
        other[i] = 7;
        assert!(!close(&whole, &Run::new(&cfg).feed(&other, 0)), "token {}", i);
    }
}

#[test]
fn the_order_of_tokens_matters() {
    let cfg = config();
    let whole = Run::new(&cfg).feed(&[1, 2, 3], 0);
    assert!(!close(&whole, &Run::new(&cfg).feed(&[2, 1, 3], 0)));
}

#[test]
fn a_narrow_window_hides_what_lies_behind_it() {
    let mut cfg = config();
    cfg.sliding = vec![true; 1];
    cfg.layer_types = vec![String::from("sliding_attention")];
    cfg.num_hidden_layers = 1;
    cfg.num_kv_shared_layers = 0;
    cfg.sliding_window = 1;
    // One layer sees the token itself and the one before.
    let whole = Run::new(&cfg).feed(&[2, 4, 6, 8], 0);
    assert!(close(&whole, &Run::new(&cfg).feed(&[9, 9, 6, 8], 0)));
    assert!(!close(&whole, &Run::new(&cfg).feed(&[2, 4, 9, 8], 0)));
}

#[test]
fn a_quarter_turn_moves_halves_and_two_of_them_negate() {
    let mut run = Run::new(&config());
    let q = run.tape.embeds(&vec![1, 1, 1, 4], DType::F32);
    let cos = run.tape.zeros(&vec![1, 2]);
    let sin = run.tape.apply(Unary::AddScalar(Scalar::Given(bits(1.0))), &cos);
    let (once, _) = apply_gemma4_rope(&mut run.tape, &q, &q, &cos, &sin).unwrap();
    let (twice, _) = apply_gemma4_rope(&mut run.tape, &once, &once, &cos, &sin).unwrap();
    run.catch_up(Some(&Numbers::new(vec![1, 1, 1, 4], vec![1.0, 2.0, 3.0, 4.0])));
    assert_eq!(run.values[once.id()].data, vec![-3.0, -4.0, 1.0, 2.0]);
    assert_eq!(run.values[twice.id()].data, vec![-1.0, -2.0, -3.0, -4.0]);
}

#[test]
fn turning_back_undoes_a_turn_and_lengths_stay() {
    let mut run = Run::new(&config());
    let q = run.tape.embeds(&vec![1, 1, 2, 4], DType::F32);
    let rotary = run.model.rotary_emb_local;
    let rows = Unary::Narrow { axis: 0, start: 3, len: Dim::Fixed(2) };
    let cos = run.tape.apply(rows, &rotary.cos);
    let sin = run.tape.apply(rows, &rotary.sin);
    let back = run.tape.apply(Unary::Neg, &sin);
    let (once, _) = apply_gemma4_rope(&mut run.tape, &q, &q, &cos, &sin).unwrap();
    let (again, _) = apply_gemma4_rope(&mut run.tape, &once, &once, &cos, &back).unwrap();
    let data: Vec<f64> = (1..9).map(f64::from).collect();
    run.catch_up(Some(&Numbers::new(vec![1, 1, 2, 4], data.clone())));
    let turned = &run.values[once.id()].data;
    assert!(!close(turned, &data));
    assert!(close(&run.values[again.id()].data, &data));
    for row in 0..2 {
        for pair in 0..2 {
            let (a, b) = (4 * row + pair, 4 * row + pair + 2);
            let before = data[a] * data[a] + data[b] * data[b];
            let after = turned[a] * turned[a] + turned[b] * turned[b];
            assert!(close(&[before], &[after]));
        }
    }
}

#[test]
fn two_turns_make_the_turn_by_both_angles() {
    let mut run = Run::new(&config());
    let q = run.tape.embeds(&vec![1, 1, 1, 4], DType::F32);
    let rotary = run.model.rotary_emb_local;
    let (once, _) = rotary.apply_rotary_emb_qkv(&mut run.tape, &q, &q, 3).unwrap();
    let (twice, _) = rotary.apply_rotary_emb_qkv(&mut run.tape, &once, &once, 4).unwrap();
    let (both, _) = rotary.apply_rotary_emb_qkv(&mut run.tape, &q, &q, 7).unwrap();
    let data = vec![1.0, 2.0, 3.0, 4.0];
    run.catch_up(Some(&Numbers::new(vec![1, 1, 1, 4], data)));
    let whole = &run.values[both.id()].data;
    assert!(close(&run.values[twice.id()].data, whole));
    assert!(!close(&run.values[once.id()].data, whole));
}

/// What the attention of a layer with nothing in its cache gives at some positions.
fn attended(layer: usize, offset: usize) -> Vec<f64> {
    let mut run = Run::new(&config());
    let xs = run.tape.embeds(&vec![1, 3, 6], DType::F32);
    let (full, sliding) = run.model.create_attention_masks(&mut run.tape, 1, 3, 0);
    let (global, local) = (run.model.rotary_emb_global, run.model.rotary_emb_local);
    let (out, _) = run.model.layers[layer]
        .self_attn
        .forward(&mut run.tape, &global, &local, &xs, None, full, sliding, offset)
        .unwrap();
    let data: Vec<f64> = (0..18).map(|i| f64::from(i * i % 7) - 2.5).collect();
    run.catch_up(Some(&Numbers::new(vec![1, 3, 6], data)));
    run.values[out.id()].data.clone()
}

#[test]
fn attention_rests_on_the_distance_of_positions_alone() {
    for layer in 0..3 {
        let first = attended(layer, 0);
        assert_eq!(first.len(), 18);
        for offset in [1, 7, 29] {
            assert!(close(&first, &attended(layer, offset)), "layer {} at {}", layer, offset);
        }
    }
}

#[test]
fn a_text_may_fill_the_window_and_its_parts_still_agree() {
    let mut cfg = config();
    // A token sees as many tokens before it as the window says.
    cfg.sliding_window = PROMPT.len() - 1;
    cfg.effective_sliding_window = PROMPT.len();
    let whole = Run::new(&cfg).feed(&PROMPT, 0);
    let mut run = Run::new(&cfg);
    run.feed(&PROMPT[..2], 0);
    run.feed(&PROMPT[2..5], 2);
    assert!(close(&whole, &run.feed(&PROMPT[5..], 5)));
    // One token less, and a part sees more of those before it than the whole does.
    cfg.sliding_window = PROMPT.len() - 2;
    let whole = Run::new(&cfg).feed(&PROMPT, 0);
    let mut run = Run::new(&cfg);
    run.feed(&PROMPT[..5], 0);
    assert!(!close(&whole, &run.feed(&PROMPT[5..], 5)));
}

/// The hidden states of a prompt behind the last layer, one row per token.
fn hidden_states(cfg: &Gemma4TextConfig, prompt: &[u32]) -> Vec<Vec<f64>> {
    let mut run = Run::new(cfg);
    run.feed(prompt, 0);
    let place = run.tape.nodes.iter().rev().find_map(|n| match n.op {
        Op::Apply(Unary::Narrow { axis: 1, .. }, x) => Some(x),
        _ => None,
    });
    run.values[place.unwrap()].rows().into_iter().map(|row| row.to_vec()).collect()
}

#[test]
fn no_position_depends_on_a_later_one() {
    let mut cfg = config();
    for window in [20, 1] {
        cfg.sliding_window = window;
        let whole = hidden_states(&cfg, &PROMPT);
        assert_eq!(whole.len(), 6);
        for changed in 0..PROMPT.len() {
            let mut other = PROMPT;
            other[changed] = 7;
            let rows = hidden_states(&cfg, &other);
            for row in 0..PROMPT.len() {
                if row < changed {
                    assert!(close(&whole[row], &rows[row]), "row {} after {}", row, changed);
                }
            }
            assert!(!close(&whole[changed], &rows[changed]));
        }
    }
}

#[test]
fn pairs_beyond_the_rotated_ones_stay_as_they_are() {
    let mut run = Run::new(&config());
    let q = run.tape.embeds(&vec![1, 1, 2, 8], DType::F32);
    let rotary = run.model.rotary_emb_global;
    let (turned, _) = rotary.apply_rotary_emb_qkv(&mut run.tape, &q, &q, 5).unwrap();
    let data: Vec<f64> = (1..17).map(f64::from).collect();
    run.catch_up(Some(&Numbers::new(vec![1, 1, 2, 8], data.clone())));
    let out = &run.values[turned.id()].data;
    for row in 0..2 {
        let (x, y) = (&data[8 * row..8 * row + 8], &out[8 * row..8 * row + 8]);
        // Of four pairs, the last two do not rotate.
        for pair in 2..4 {
            assert_eq!((y[pair], y[pair + 4]), (x[pair], x[pair + 4]));
        }
        for pair in 0..2 {
            let angle = (5 + row) as f64 / 1e6f64.powf((2 * pair) as f64 / 8.0);
            let expected = [
                x[pair] * angle.cos() - x[pair + 4] * angle.sin(),
                x[pair + 4] * angle.cos() + x[pair] * angle.sin(),
            ];
            assert!(close(&[y[pair], y[pair + 4]], &expected));
        }
    }
}

#[test]
fn clearing_starts_over() {
    let cfg = config();
    let mut run = Run::new(&cfg);
    let first = run.feed(&PROMPT, 0);
    let next = run.feed(&[2], 6);
    assert!(!close(&next, &Run::new(&cfg).feed(&[2], 6)));
    run.model.clear_kv_cache();
    assert!(run.model.layers.iter().all(|l| l.self_attn.kv_cache.empty));
    assert!(close(&first, &run.feed(&PROMPT, 0)));
}

#[test]
fn fused_attention_computes_the_same() {
    let mut cfg = config();
    let eager = Run::new(&cfg).feed(&PROMPT, 0);
    cfg.use_flash_attn = true;
    let mut run = Run::new(&cfg);
    assert!(close(&eager, &run.feed(&PROMPT, 0)));
    let causal: Vec<bool> = run
        .tape
        .nodes
        .iter()
        .filter_map(|n| match n.op {
            Op::FlashAttn { causal, .. } => Some(causal),
            _ => None,
        })
        .collect();
    assert_eq!(causal, vec![true; 5]);
    let from = run.tape.len();
    run.feed(&[2], 6);
    assert!(run.tape.nodes[from..].iter().all(|n| !matches!(n.op, Op::FlashAttn { causal: true, .. })));
}

#[test]
fn logits_stay_below_the_cap() {
    let mut cfg = config();
    cfg.final_logit_softcapping = None;
    let plain = Run::new(&cfg).feed(&PROMPT, 0);
    cfg.final_logit_softcapping = Some(bits(0.5));
    let capped = Run::new(&cfg).feed(&PROMPT, 0);
    let expected: Vec<f64> = plain.iter().map(|x| (x / 0.5).tanh() * 0.5).collect();
    assert!(close(&capped, &expected));
    assert!(capped.iter().all(|x| x.abs() <= 0.5));
}

#[test]
fn a_head_of_its_own_changes_the_logits_only() {
    let mut cfg = config();
    let tied = Run::new(&cfg).feed(&PROMPT, 0);
    cfg.tie_word_embeddings = false;
    let own = Run::new(&cfg).feed(&PROMPT, 0);
    assert_eq!(tied.len(), own.len());
    assert!(!close(&tied, &own));
}

#[test]
fn inputs_of_the_layers_are_mixed_in_where_there_are_some() {
    let mut cfg = config();
    let with = Run::new(&cfg).feed(&PROMPT, 0);
    cfg.hidden_size_per_layer_input = 0;
    let mut run = Run::new(&cfg);
    let without = run.feed(&PROMPT, 0);
    assert!(!close(&with, &without));
    assert!(run.tape.nodes.iter().all(|n| !matches!(n.op, Op::Apply(Unary::Squeeze(_), _))));
}

#[test]
fn tokens_are_embedded_with_the_root_of_the_hidden_size() {
    let mut run = Run::new(&config());
    let ids = run.tape.token_ids(&vec![1, 1]);
    let xs = run.model.embed_tokens(&mut run.tape, &ids);
    run.catch_up(Some(&Numbers::new(vec![1, 1], vec![3.0])));
    let expected: Vec<f64> =
        (0..6).map(|i| weight("embed_tokens", 3 * 6 + i) * 6f64.sqrt()).collect();
    assert_eq!(run.values[xs.id()].dims, vec![1, 1, 6]);
    assert!(close(&run.values[xs.id()].data, &expected));
}

#[test]
fn token_inputs_are_averaged_with_the_projected_embeddings() {
    let mut run = Run::new(&config());
    let ids = run.tape.token_ids(&vec![1, 1]);
    let xs = run.model.embed_tokens(&mut run.tape, &ids);
    let token = run.model.token_per_layer_inputs(&mut run.tape, &ids).unwrap().unwrap();
    let alone = run.model.project_per_layer_inputs(&mut run.tape, &xs, None).unwrap().unwrap();
    let both =
        run.model.project_per_layer_inputs(&mut run.tape, &xs, Some(token)).unwrap().unwrap();
    run.catch_up(Some(&Numbers::new(vec![1, 1], vec![3.0])));
    assert_eq!(run.values[token.id()].dims, vec![1, 1, 5, 3]);
    assert_eq!(
        run.values[token.id()].data[4],
        weight("embed_tokens_per_layer", 3 * 15 + 4) * 3f64.sqrt()
    );
    let expected: Vec<f64> = run.values[alone.id()]
        .data
        .iter()
        .zip(&run.values[token.id()].data)
        .map(|(a, t)| (a + t) * 2f64.sqrt().recip())
        .collect();
    assert!(close(&run.values[both.id()].data, &expected));
    // The projection is scaled by the root of the hidden size, then normalized.
    let embedded = &run.values[xs.id()].data;
    let raw: Vec<f64> = (0..3)
        .map(|o| {
            (0..6)
                .map(|i| embedded[i] * weight("per_layer_model_projection", o * 6 + i))
                .sum::<f64>()
                / 6f64.sqrt()
        })
        .collect();
    let root = (raw.iter().map(|a| a * a).sum::<f64>() / 3.0 + 1e-6).sqrt();
    let normed: Vec<f64> = (0..3)
        .map(|i| raw[i] / root * weight("per_layer_projection_norm.weight", i))
        .collect();
    assert!(close(&run.values[alone.id()].data[..3], &normed));
}

#[test]
fn without_inputs_of_the_layers_nothing_is_projected() {
    let mut cfg = config();
    cfg.hidden_size_per_layer_input = 0;
    let mut run = Run::new(&cfg);
    let ids = run.tape.token_ids(&vec![1, 1]);
    let xs = run.tape.embeds(&vec![1, 1, 6], DType::F32);
    let before = run.tape.len();
    assert!(matches!(run.model.token_per_layer_inputs(&mut run.tape, &ids), Ok(None)));
    assert!(matches!(run.model.project_per_layer_inputs(&mut run.tape, &xs, None), Ok(None)));
    assert_eq!(run.tape.len(), before);
}

/// The appends recorded from a place on: layer and freshness.
fn appends(tape: &Tape, from: usize) -> Vec<(usize, bool)> {
    tape.nodes[from..]
        .iter()
        .filter_map(|n| match n.op {
            Op::Append { layer, fresh, .. } => Some((layer, fresh)),
            _ => None,
        })
        .collect()
}

#[test]
fn each_layer_with_keys_of_its_own_appends_once() {
    let mut run = Run::new(&config());
    let from = run.tape.len();
    run.feed(&PROMPT, 0);
    assert_eq!(appends(&run.tape, from), vec![(0, true), (1, true), (2, true)]);
    let from = run.tape.len();
    run.feed(&[2], 6);
    assert_eq!(appends(&run.tape, from), vec![(0, false), (1, false), (2, false)]);
    run.model.clear_kv_cache();
    let from = run.tape.len();
    run.feed(&PROMPT, 0);
    assert_eq!(appends(&run.tape, from), vec![(0, true), (1, true), (2, true)]);
}

#[test]
fn caches_keep_up_with_the_positions() {
    let mut run = Run::new(&config());
    let held = |run: &Run| -> Vec<Option<usize>> {
        run.caches.iter().map(|c| c.as_ref().map(|(k, _)| k.dims[2])).collect()
    };
    run.feed(&PROMPT, 0);
    assert_eq!(held(&run), vec![Some(6), Some(6), Some(6), None, None]);
    run.feed(&[2], 6);
    run.feed(&[7, 7], 7);
    assert_eq!(held(&run), vec![Some(9), Some(9), Some(9), None, None]);
    run.model.clear_kv_cache();
    run.feed(&[1, 2], 0);
    assert_eq!(held(&run), vec![Some(2), Some(2), Some(2), None, None]);
}

#[test]
fn a_shared_layer_reads_the_keys_of_its_source() {
    let mut run = Run::new(&config());
    let from = run.tape.len();
    run.feed(&[3], 0);
    // The keys that are repeated for the heads, layer by layer, and the append
    // that they come from.
    let sources: Vec<usize> = run.tape.nodes[from..]
        .iter()
        .filter_map(|n| match n.op {
            Op::Apply(Unary::RepeatKv(_), x) => match run.tape.nodes[x].op {
                Op::CachedKeys(a) => match run.tape.nodes[a].op {
                    Op::Append { layer, .. } => Some(layer),
                    _ => None,
                },
                _ => None,
            },
            _ => None,
        })
        .collect();
    assert_eq!(sources, vec![0, 1, 2, 2, 1]);
}

#[test]
fn a_shared_layer_without_a_source_is_refused() {
    let mut cfg = config();
    // The only full layers share, so nothing stores keys and values for them.
    cfg.sliding = vec![true, true, true, true, false];
    cfg.layer_types[1] = String::from("sliding_attention");
    let mut run = Run::new(&cfg);
    let from = run.tape.len();
    let ids = run.tape.token_ids(&vec![1, 2]);
    let result: Result<Tensor, Refusal> = run.model.forward(&mut run.tape, &ids, 0);
    assert!(matches!(result, Err(Refusal::SharedKv)));
    // The layers before it have run all the same.
    assert_eq!(appends(&run.tape, from), vec![(0, true), (1, true), (2, true)]);
    let empty: Vec<bool> = run.model.layers.iter().map(|l| l.self_attn.kv_cache.empty).collect();
    assert_eq!(empty, vec![false, false, false, true, true]);
}

#[test]
fn positions_without_angles_are_refused() {
    let mut run = Run::new(&config());
    run.feed(&[3], 31);
    run.model.clear_kv_cache();
    let from = run.tape.len();
    let ids = run.tape.token_ids(&vec![1, 2]);
    let result = run.model.forward(&mut run.tape, &ids, 31);
    assert!(matches!(result, Err(Refusal::Range { start: 31, len: 2, size: 32 })));
    assert!(appends(&run.tape, from).is_empty());
    assert!(run.model.layers.iter().all(|l| l.self_attn.kv_cache.empty));
    // What was recorded before the refusal can still be carried out.
    run.catch_up(Some(&Numbers::new(vec![1, 2], vec![1.0, 2.0])));
    let xs = run.tape.embeds(&vec![1, 1, 6], DType::F32);
    let result = run.model.forward_embeds(&mut run.tape, &xs, 32, 1, 1);
    assert!(matches!(result, Err(Refusal::Range { start: 32, len: 1, size: 32 })));
}

#[test]
fn tokens_must_lie_in_rows() {
    let mut run = Run::new(&config());
    let ids = run.tape.token_ids(&vec![4]);
    let from = run.tape.len();
    let result = run.model.forward(&mut run.tape, &ids, 0);
    assert!(matches!(result, Err(Refusal::Rank { expected: 2, found: 1 })));
    assert_eq!(run.tape.len(), from);
    assert!(run.model.layers.iter().all(|l| l.self_attn.kv_cache.empty));
}

#[test]
fn embeddings_must_have_three_axes() {
    let mut run = Run::new(&config());
    let xs = run.tape.embeds(&vec![4, 6], DType::F32);
    let result = run.model.forward_embeds(&mut run.tape, &xs, 0, 1, 4);
    assert!(matches!(result, Err(Refusal::Rank { expected: 3, found: 2 })));
    let mut cfg = config();
    cfg.hidden_size_per_layer_input = 0;
    let mut run = Run::new(&cfg);
    let xs = run.tape.embeds(&vec![4, 6], DType::F32);
    let result = run.model.forward_embeds(&mut run.tape, &xs, 0, 1, 4);
    assert!(matches!(result, Err(Refusal::Rank { expected: 3, found: 2 })));
    let xs = run.tape.embeds(&vec![], DType::F32);
    let result = run.model.forward_embeds(&mut run.tape, &xs, 0, 1, 4);
    assert!(matches!(result, Err(Refusal::NoAxis)));
}

#[test]
fn embeddings_run_like_their_tokens_where_layers_have_no_inputs() {
    let mut cfg = config();
    cfg.hidden_size_per_layer_input = 0;
    let logits = Run::new(&cfg).feed(&PROMPT, 0);
    let mut run = Run::new(&cfg);
    let data: Vec<f64> = PROMPT
        .iter()
        .flat_map(|t| (0..6).map(move |i| weight("embed_tokens", *t as usize * 6 + i) * 6f64.sqrt()))
        .collect();
    let xs = run.tape.embeds(&vec![1, 6, 6], DType::F32);
    let out = run.model.forward_embeds(&mut run.tape, &xs, 0, 1, 6).unwrap();
    run.catch_up(Some(&Numbers::new(vec![1, 6, 6], data)));
    assert_eq!(run.values[out.id()].dims, vec![1, 1, 11]);
    assert!(close(&run.values[out.id()].data, &logits));
}

#[test]
fn a_single_token_needs_no_mask() {
    let mut run = Run::new(&config());
    let from = run.tape.len();
    run.feed(&[3], 0);
    assert!(run.tape.nodes[from..].iter().all(|n| !matches!(n.op, Op::Mask { .. })));
    let (full, sliding) = run.model.create_attention_masks(&mut run.tape, 1, 1, 5);
    assert!(full.is_none() && sliding.is_none());
    let (full, sliding) = run.model.create_attention_masks(&mut run.tape, 1, 2, 5);
    assert!(full.is_some() && sliding.is_some());
}

#[test]
fn masks_that_are_too_large_are_known_beforehand() {
    assert!(TextModel::check_masks(1, usize::MAX));
    assert!(TextModel::check_masks(0, usize::MAX));
    assert!(TextModel::check_masks(2, usize::MAX - 2));
    assert!(!TextModel::check_masks(2, usize::MAX - 1));
    assert!(!TextModel::check_masks(usize::MAX / 2, 0));
}

#[test]
fn the_logits_are_those_of_the_last_token() {
    let mut run = Run::new(&config());
    run.feed(&PROMPT, 0);
    let n = run.tape.nodes.iter().rev().find_map(|n| match n.op {
        Op::Apply(Unary::Narrow { axis: 1, start, len }, _) => Some((start, len)),
        _ => None,
    });
    assert_eq!(n, Some((5, Dim::Fixed(1))));
}

#[test]
fn scores_are_not_scaled() {
    let mut run = Run::new(&config());
    let from = run.tape.len();
    run.feed(&PROMPT, 0);
    // What is added to a mask, and what goes into softmax, is a plain product.
    for node in &run.tape.nodes[from..] {
        if let Op::Apply(Unary::SoftmaxLast, x) = node.op {
            match run.tape.nodes[x].op {
                Op::Combine(Binary::BroadcastAdd, scores, _) => assert!(matches!(
                    run.tape.nodes[scores].op,
                    Op::Combine(Binary::Matmul, _, _)
                )),
                _ => panic!("no mask"),
            }
        }
    }
}

#[test]
fn weights_used_in_a_pass_are_loaded() {
    let cfg = config();
    let mut tape = Tape::new(DType::F32);
    let mut loads: Vec<Load> = Vec::new();
    let mut model = TextModel::new(&cfg, &mut tape, &mut loads);
    let ids = tape.token_ids(&vec![1, 3]);
    model.forward(&mut tape, &ids, 0).unwrap();
    for node in &tape.nodes {
        match &node.op {
            Op::Param(p) => assert!(loads.contains(&Load::Param(*p))),
            Op::Project(Projection::Own(l), _) => assert!(loads.contains(&Load::Linear(*l))),
            Op::Project(Projection::Tied(e), _) => assert!(loads.contains(&Load::Embedding(*e))),
            Op::Lookup(e, _) => assert!(loads.contains(&Load::Embedding(*e))),
            _ => {}
        }
    }
}
