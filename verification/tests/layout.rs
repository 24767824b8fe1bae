//! Which layers a configuration lays out and which weights it loads.

use gemma4_text::attention::{Attention, CacheKind, KvCache};
use gemma4_text::config::Gemma4TextConfig;
use gemma4_text::layer::DecoderLayer;
use gemma4_text::model::TextModel;
use gemma4_text::tape::Tape;
use gemma4_text::term::{
    Activation, Block, DType, Embedding, F64Bits, Linear, Module, Param, ParamName, Projection,
    VarPath,
};
use gemma4_text::vars::{Load, Segment};

fn bits(x: f64) -> F64Bits {
    F64Bits { bits: x.to_bits() }
}

/// Six layers, of which the third and the sixth attend to everything and the last
/// two share keys and values.
fn config() -> Gemma4TextConfig {
    let sliding = vec![true, true, false, true, true, false];
    Gemma4TextConfig {
        vocab_size: 100,
        hidden_size: 24,
        intermediate_size: 40,
        num_hidden_layers: 6,
        num_attention_heads: 4,
        num_key_value_heads: 2,
        num_global_key_value_heads: Some(1),
        head_dim: 6,
        global_head_dim: 10,
        attention_bias: false,
        layer_types: sliding
            .iter()
            .map(|s| String::from(if *s { "sliding_attention" } else { "full_attention" }))
            .collect(),
        sliding,
        num_kv_shared_layers: 2,
        hidden_size_per_layer_input: 0,
        vocab_size_per_layer_input: 0,
        max_position_embeddings: 64,
        sliding_window: 3,
        effective_sliding_window: 16,
        rms_norm_eps: bits(1e-6),
        rope_theta: bits(1e6),
        rope_local_base_freq: bits(1e4),
        rope_angles: 2,
        final_logit_softcapping: None,
        hidden_activation: Activation { index: 0 },
        tie_word_embeddings: true,
        use_flash_attn: false,
    }
}

fn model(cfg: &Gemma4TextConfig) -> (TextModel, Tape, Vec<Load>) {
    assert!(cfg.check());
    let mut tape = Tape::new(DType::F32);
    let mut loads = Vec::new();
    let model = TextModel::new(cfg, &mut tape, &mut loads);
    (model, tape, loads)
}

/// The full name of a weight vector.
fn name(path: &VarPath, last: &str) -> String {
    let mut parts: Vec<String> = path
        .segments()
        .iter()
        .map(|s| match s {
            Segment::Text(t) => String::from(*t),
            Segment::Index(i) => i.to_string(),
        })
        .collect();
    parts.push(String::from(last));
    parts.join(".")
}

fn names(loads: &[Load]) -> Vec<String> {
    loads
        .iter()
        .map(|load| match load {
            Load::Linear(l) => name(&l.path, "weight"),
            Load::Embedding(e) => name(&e.path, "weight"),
            Load::Param(p) => name(&p.path, p.name.text()),
        })
        .collect()
}

#[test]
fn the_last_own_layer_of_each_type_stores_its_keys_and_values() {
    let (model, _, _) = model(&config());
    let shared: Vec<bool> = model.layers.iter().map(|l| l.self_attn.is_kv_shared_layer).collect();
    let stores: Vec<bool> = model.layers.iter().map(|l| l.self_attn.store_full_length_kv).collect();
    assert_eq!(shared, vec![false, false, false, false, true, true]);
    assert_eq!(stores, vec![false, false, true, true, false, false]);
}

#[test]
fn without_sharing_each_type_still_has_one_layer_that_stores() {
    let mut cfg = config();
    cfg.num_kv_shared_layers = 0;
    let (model, _, _) = model(&cfg);
    let shared: Vec<bool> = model.layers.iter().map(|l| l.self_attn.is_kv_shared_layer).collect();
    let stores: Vec<bool> = model.layers.iter().map(|l| l.self_attn.store_full_length_kv).collect();
    assert_eq!(shared, vec![false; 6]);
    assert_eq!(stores, vec![false, false, false, false, true, true]);
}

#[test]
fn more_shared_layers_than_layers_leave_none_with_keys_of_its_own() {
    let mut cfg = config();
    cfg.num_kv_shared_layers = 9;
    assert_eq!(cfg.first_shared(), 0);
    let (model, _, loads) = model(&cfg);
    assert!(model.layers.iter().all(|l| l.self_attn.is_kv_shared_layer));
    assert!(names(&loads).iter().all(|n| !n.contains("k_proj") && !n.contains("v_proj")));
}

#[test]
fn types_are_compared_by_name() {
    let cfg = config();
    assert!(cfg.is_last_of_type(3, 4));
    assert!(!cfg.is_last_of_type(0, 4));
    assert!(cfg.is_last_of_type(2, 4));
    assert!(!cfg.is_last_of_type(2, 6));
}

#[test]
fn attention_of_a_sliding_layer() {
    let cfg = config();
    let vb = VarPath::root().pp_layer(1).pp_block(Block::SelfAttn);
    let mut loads = Vec::new();
    let att = Attention::new(&cfg, 1, vb, &mut loads);
    assert_eq!(att.head_dim, 6);
    assert_eq!(att.num_heads, 4);
    assert_eq!(att.num_kv_heads, 2);
    assert_eq!(att.num_kv_groups, 2);
    assert!(att.is_sliding);
    assert_eq!(
        att.q_proj,
        Linear { path: vb.pp(Module::QProj), in_dim: 24, out_dim: 24, bias: false }
    );
    assert_eq!(
        att.k_proj,
        Some(Linear { path: vb.pp(Module::KProj), in_dim: 24, out_dim: 12, bias: false })
    );
    assert_eq!(
        att.v_proj,
        Some(Linear { path: vb.pp(Module::VProj), in_dim: 24, out_dim: 12, bias: false })
    );
    assert_eq!(
        att.o_proj,
        Linear { path: vb.pp(Module::OProj), in_dim: 24, out_dim: 24, bias: false }
    );
    assert_eq!(att.q_norm.weight.len, 6);
    assert_eq!(
        att.kv_cache,
        KvCache { kind: CacheKind::Rotating, dim: 2, limit: 16, empty: true }
    );
    assert_eq!(
        names(&loads),
        vec![
            "layers.1.self_attn.q_proj.weight",
            "layers.1.self_attn.k_proj.weight",
            "layers.1.self_attn.v_proj.weight",
            "layers.1.self_attn.k_norm.weight",
            "layers.1.self_attn.o_proj.weight",
            "layers.1.self_attn.q_norm.weight",
        ]
    );
}

#[test]
fn attention_of_a_layer_that_sees_everything() {
    let mut cfg = config();
    cfg.attention_bias = true;
    let vb = VarPath::root().pp_layer(2).pp_block(Block::SelfAttn);
    let mut loads = Vec::new();
    let att = Attention::new(&cfg, 2, vb, &mut loads);
    assert_eq!(att.head_dim, 10);
    assert_eq!(att.num_kv_heads, 1);
    assert_eq!(att.num_kv_groups, 4);
    assert!(!att.is_sliding);
    assert!(att.q_proj.bias && att.o_proj.bias);
    assert_eq!(att.q_proj.out_dim, 40);
    assert_eq!(att.k_proj.unwrap().out_dim, 10);
    assert_eq!(
        att.kv_cache,
        KvCache { kind: CacheKind::Normal, dim: 2, limit: 64, empty: true }
    );
}

#[test]
fn full_layers_fall_back_to_the_common_number_of_key_heads() {
    let mut cfg = config();
    cfg.num_global_key_value_heads = None;
    let att = Attention::new(&cfg, 2, VarPath::root(), &mut Vec::new());
    assert_eq!(att.num_kv_heads, 2);
    assert_eq!(att.num_kv_groups, 2);
}

#[test]
fn a_shared_layer_has_no_key_or_value_weights() {
    let cfg = config();
    let mut loads = Vec::new();
    let vb = VarPath::root().pp_layer(5).pp_block(Block::SelfAttn);
    let att = Attention::new(&cfg, 5, vb, &mut loads);
    assert!(att.k_proj.is_none() && att.v_proj.is_none() && att.k_norm.is_none());
    assert_eq!(
        names(&loads),
        vec![
            "layers.5.self_attn.q_proj.weight",
            "layers.5.self_attn.o_proj.weight",
            "layers.5.self_attn.q_norm.weight",
        ]
    );
}

#[test]
fn a_layer_loads_its_weights_in_order() {
    let mut cfg = config();
    cfg.hidden_size_per_layer_input = 7;
    let vb = VarPath::root().pp_layer(4);
    let mut loads = Vec::new();
    let layer = DecoderLayer::new(&cfg, 4, vb, &mut loads);
    assert_eq!(
        names(&loads),
        vec![
            "layers.4.self_attn.q_proj.weight",
            "layers.4.self_attn.o_proj.weight",
            "layers.4.self_attn.q_norm.weight",
            "layers.4.mlp.gate_proj.weight",
            "layers.4.mlp.up_proj.weight",
            "layers.4.mlp.down_proj.weight",
            "layers.4.input_layernorm.weight",
            "layers.4.post_attention_layernorm.weight",
            "layers.4.pre_feedforward_layernorm.weight",
            "layers.4.post_feedforward_layernorm.weight",
            "layers.4.per_layer_input_gate.weight",
            "layers.4.per_layer_projection.weight",
            "layers.4.post_per_layer_input_norm.weight",
            "layers.4.layer_scalar",
        ]
    );
    assert_eq!(layer.mlp.gate_proj.out_dim, 40);
    assert_eq!(layer.mlp.down_proj.in_dim, 40);
    assert_eq!(layer.per_layer_input_gate.unwrap().out_dim, 7);
    assert_eq!(layer.per_layer_projection.unwrap().in_dim, 7);
    assert_eq!(layer.post_per_layer_input_norm.unwrap().weight.len, 24);
    assert_eq!(layer.per_layer_activation, Some(Activation { index: 0 }));
    assert_eq!(
        layer.layer_scalar,
        Param { path: vb, name: ParamName::LayerScalar, len: 1 }
    );
}

#[test]
fn a_layer_without_an_input_of_its_own_loads_no_gate() {
    let mut loads = Vec::new();
    let layer = DecoderLayer::new(&config(), 0, VarPath::root().pp_layer(0), &mut loads);
    assert!(layer.per_layer_input_gate.is_none());
    assert!(layer.per_layer_projection.is_none());
    assert!(layer.post_per_layer_input_norm.is_none());
    assert!(layer.per_layer_activation.is_none());
    assert_eq!(loads.len(), 14);
}

#[test]
fn a_tied_head_is_the_embedding_table() {
    let (model, _, loads) = model(&config());
    let table = Embedding { path: VarPath::root().pp(Module::EmbedTokens), rows: 100, cols: 24 };
    assert_eq!(model.embed_tokens, table);
    assert_eq!(model.lm_head, Projection::Tied(table));
    let all = names(&loads);
    assert_eq!(all.first().unwrap(), "embed_tokens.weight");
    assert_eq!(all.last().unwrap(), "norm.weight");
    // Four layers with keys and values of their own, two without.
    assert_eq!(all.len(), 1 + 4 * 14 + 2 * 11 + 1);
}

#[test]
fn a_head_of_its_own_is_loaded_last() {
    let mut cfg = config();
    cfg.tie_word_embeddings = false;
    let (model, _, loads) = model(&cfg);
    let head = Linear {
        path: VarPath::root().pp(Module::LmHead),
        in_dim: 24,
        out_dim: 100,
        bias: false,
    };
    assert_eq!(model.lm_head, Projection::Own(head));
    assert_eq!(*loads.last().unwrap(), Load::Linear(head));
}

#[test]
fn inputs_of_the_layers_are_packed_side_by_side() {
    let mut cfg = config();
    cfg.hidden_size_per_layer_input = 7;
    cfg.vocab_size_per_layer_input = 50;
    let (model, _, loads) = model(&cfg);
    assert_eq!(
        names(&loads)[..4].to_vec(),
        vec![
            "embed_tokens.weight",
            "embed_tokens_per_layer.weight",
            "per_layer_model_projection.weight",
            "per_layer_projection_norm.weight",
        ]
    );
    let table = model.per_layer_embed_tokens.unwrap();
    assert_eq!((table.rows, table.cols), (50, 42));
    let projection = model.per_layer_model_projection.unwrap();
    assert_eq!((projection.in_dim, projection.out_dim), (24, 42));
    assert_eq!(model.per_layer_projection_norm.unwrap().weight.len, 7);
}

#[test]
fn no_weight_is_loaded_twice() {
    let mut cfg = config();
    cfg.hidden_size_per_layer_input = 7;
    cfg.tie_word_embeddings = false;
    let (_, _, loads) = model(&cfg);
    let mut all = names(&loads);
    let count = all.len();
    all.sort();
    all.dedup();
    assert_eq!(all.len(), count);
}

#[test]
fn a_model_knows_which_layers_slide() {
    let (model, _, _) = model(&config());
    assert_eq!(model.layer_is_sliding, vec![true, true, false, true, true, false]);
    assert_eq!(model.sliding_window, 3);
}

#[test]
fn configurations_that_cannot_be_laid_out() {
    assert!(config().check());
    let mut cfg = config();
    cfg.num_key_value_heads = 0;
    assert!(!cfg.check());
    let mut cfg = config();
    cfg.num_global_key_value_heads = Some(0);
    assert!(!cfg.check());
    let mut cfg = config();
    cfg.layer_types.truncate(3);
    assert!(!cfg.check());
    let mut cfg = config();
    cfg.layer_types.truncate(4);
    assert!(cfg.check());
    let mut cfg = config();
    cfg.sliding.pop();
    assert!(!cfg.check());
    let mut cfg = config();
    cfg.rope_angles = 6;
    assert!(!cfg.check());
    let mut cfg = config();
    cfg.rope_angles = 5;
    assert!(cfg.check());
    let mut cfg = config();
    cfg.head_dim = usize::MAX / 2;
    assert!(!cfg.check());
    let mut cfg = config();
    cfg.hidden_size_per_layer_input = usize::MAX / 5;
    assert!(!cfg.check());
}
