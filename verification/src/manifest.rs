//! The weights that a decoder loads.

use crate::attention::Attention;
use crate::config::Gemma4TextConfig;
use crate::layer::DecoderLayer;
use crate::model::{layer_loads, layers_of, TextModel};
use crate::term::{
    Block, DType, Embedding, Linear, Module, Param, ParamName, Projection, VarPath,
};
use crate::vars::Load;
use vstd::prelude::*;

verus! {

/// The place of what is loaded.
pub open spec fn place(load: Load) -> VarPath {
    match load {
        Load::Linear(l) => l.path,
        Load::Embedding(e) => e.path,
        Load::Param(p) => p.path,
    }
}

/// Whether all of `loads` are found at different places.
pub open spec fn apart(loads: Seq<Load>) -> bool {
    forall|i: int, j: int|
        0 <= i < j < loads.len() ==> place(#[trigger] loads[i]) != place(#[trigger] loads[j])
}

/// Whether all of `loads` belong to a layer.
pub open spec fn all_in(loads: Seq<Load>, layer: Option<usize>) -> bool {
    forall|i: int| 0 <= i < loads.len() ==> place(#[trigger] loads[i]).layer == layer
}

/// A layer loads weights of its own, from different places.
proof fn lemma_layer_apart(cfg: Gemma4TextConfig, i: usize)
    ensures
        ({
            let loads = DecoderLayer::at(cfg, i, VarPath::spec_root().at_layer(i)).loads();
            apart(loads) && all_in(loads, Some(i))
        }),
{
    let layer = DecoderLayer::at(cfg, i, VarPath::spec_root().at_layer(i));
    let attn = layer.self_attn.loads();
    let mlp = layer.mlp.loads();
    assert(apart(attn));
    assert(forall|j: int|
        0 <= j < attn.len() ==> place(#[trigger] attn[j]).block == Some(Block::SelfAttn) && place(
            attn[j],
        ).layer == Some(i));
    assert(apart(mlp));
    assert(forall|j: int|
        0 <= j < mlp.len() ==> place(#[trigger] mlp[j]).block == Some(Block::Mlp) && place(
            mlp[j],
        ).layer == Some(i));
    let norms = seq![
        Load::Param(layer.input_layernorm.weight),
        Load::Param(layer.post_attention_layernorm.weight),
        Load::Param(layer.pre_feedforward_layernorm.weight),
        Load::Param(layer.post_feedforward_layernorm.weight),
    ];
    let per_layer = match (
        layer.per_layer_input_gate,
        layer.per_layer_projection,
        layer.post_per_layer_input_norm,
    ) {
        (Some(gate), Some(projection), Some(norm)) => seq![
            Load::Linear(gate),
            Load::Linear(projection),
            Load::Param(norm.weight),
        ],
        _ => Seq::empty(),
    };
    let scalar = seq![Load::Param(layer.layer_scalar)];
    let tail = norms + per_layer + scalar;
    assert(apart(tail));
    assert(forall|j: int|
        0 <= j < tail.len() ==> place(#[trigger] tail[j]).block is None && place(tail[j]).layer
            == Some(i));
    assert(layer.loads() =~= attn + mlp + tail);
}

/// Two lists of loads from different places are apart together where each is.
proof fn lemma_join_apart(a: Seq<Load>, b: Seq<Load>)
    requires
        apart(a),
        apart(b),
        forall|i: int, j: int|
            0 <= i < a.len() && 0 <= j < b.len() ==> place(#[trigger] a[i]) != place(
                #[trigger] b[j],
            ),
    ensures
        apart(a + b),
{
}

/// The layers load from different places, each layer from its own.
proof fn lemma_layers_apart(cfg: Gemma4TextConfig, n: nat)
    requires
        n <= cfg.num_hidden_layers,
    ensures
        ({
            let loads = layer_loads(layers_of(cfg).take(n as int));
            &&& apart(loads)
            &&& forall|i: int|
                0 <= i < loads.len() ==> (place(#[trigger] loads[i]).layer matches Some(l) && l < n)
        }),
    decreases n,
{
    if n > 0 {
        let m = (n - 1) as nat;
        lemma_layers_apart(cfg, m);
        lemma_layer_apart(cfg, m as usize);
        let layers = layers_of(cfg).take(n as int);
        assert(layers.drop_last() =~= layers_of(cfg).take(m as int));
        lemma_join_apart(layer_loads(layers.drop_last()), layers.last().loads());
    }
}

/// A decoder loads no weights twice, and no two from one place.
pub proof fn law_weights_are_loaded_once(model: TextModel, cfg: Gemma4TextConfig, dtype: DType)
    requires
        model.laid_out(cfg, dtype),
    ensures
        apart(model.loads()),
        model.loads().no_duplicates(),
{
    let n = cfg.num_hidden_layers as nat;
    lemma_layers_apart(cfg, n);
    assert(layers_of(cfg).take(n as int) =~= layers_of(cfg));
    let per_layer = match (
        model.per_layer_embed_tokens,
        model.per_layer_model_projection,
        model.per_layer_projection_norm,
    ) {
        (Some(embedding), Some(projection), Some(norm)) => seq![
            Load::Embedding(embedding),
            Load::Linear(projection),
            Load::Param(norm.weight),
        ],
        _ => Seq::empty(),
    };
    let first = seq![Load::Embedding(model.embed_tokens)] + per_layer;
    let middle = layer_loads(model.layers@);
    let head = match model.lm_head {
        Projection::Own(linear) => seq![Load::Linear(linear)],
        Projection::Tied(_) => Seq::empty(),
    };
    let last = seq![Load::Param(model.norm.weight)] + head;
    assert(apart(first) && all_in(first, None));
    assert(apart(last) && all_in(last, None));
    lemma_join_apart(first, middle);
    lemma_join_apart(first + middle, last);
    assert(model.loads() =~= first + middle + last);
}

/// A layer that shares keys and values loads no weights for them; any other layer does.
pub proof fn law_shared_layers_load_no_kv(cfg: Gemma4TextConfig, i: usize, vb: VarPath)
    ensures
        ({
            let loads = Attention::at(cfg, i, vb).loads();
            let kv = |m: Module|
                exists|j: int| 0 <= j < loads.len() && place(#[trigger] loads[j]) == vb.at(m);
            &&& kv(Module::KProj) == !cfg.shares_kv(i as int)
            &&& kv(Module::VProj) == !cfg.shares_kv(i as int)
            &&& kv(Module::KNorm) == !cfg.shares_kv(i as int)
        }),
{
    let att = Attention::at(cfg, i, vb);
    let loads = att.loads();
    if !cfg.shares_kv(i as int) {
        assert(place(loads[1]) == vb.at(Module::KProj));
        assert(place(loads[2]) == vb.at(Module::VProj));
        assert(place(loads[3]) == vb.at(Module::KNorm));
    }
}

/// What some layer loads is what one of the layers loads.
proof fn lemma_layers_load(layers: Seq<DecoderLayer>, load: Load)
    ensures
        layer_loads(layers).contains(load) == exists|i: int|
            0 <= i < layers.len() && (#[trigger] layers[i]).loads().contains(load),
    decreases layers.len(),
{
    if layers.len() > 0 {
        let before = layers.drop_last();
        lemma_layers_load(before, load);
        let (a, b) = (layer_loads(before), layers.last().loads());
        lemma_joined(a, b, load);
        let last = layers.len() - 1;
        if b.contains(load) {
            assert(layers[last].loads().contains(load));
        } else if a.contains(load) {
            let i = choose|i: int|
                0 <= i < before.len() && (#[trigger] before[i]).loads().contains(load);
            assert(layers[i].loads().contains(load));
        } else {
            assert forall|i: int| 0 <= i < layers.len() implies !(#[trigger] layers[
                i
            ]).loads().contains(load) by {
                assert(i < last ==> layers[i] == before[i]);
            }
        }
    }
}

/// What is in two lists put together is in one of them.
proof fn lemma_joined(a: Seq<Load>, b: Seq<Load>, load: Load)
    ensures
        (a + b).contains(load) == (a.contains(load) || b.contains(load)),
{
    let both = a + b;
    if a.contains(load) {
        let i = choose|i: int| 0 <= i < a.len() && a[i] == load;
        assert(both[i] == load);
    }
    if b.contains(load) {
        let i = choose|i: int| 0 <= i < b.len() && b[i] == load;
        assert(both[a.len() + i] == load);
    }
}

/// What is in a short list.
proof fn lemma_listed(a: Load, b: Load, c: Load, d: Load, load: Load)
    ensures
        seq![a].contains(load) == (load == a),
        seq![a, b].contains(load) == (load == a || load == b),
        seq![a, b, c].contains(load) == (load == a || load == b || load == c),
        seq![a, b, c, d].contains(load) == (load == a || load == b || load == c || load == d),
{
    assert(seq![a][0] == a);
    assert(seq![a, b][0] == a && seq![a, b][1] == b);
    assert(seq![a, b, c][0] == a && seq![a, b, c][1] == b && seq![a, b, c][2] == c);
    assert(seq![a, b, c, d][0] == a && seq![a, b, c, d][1] == b);
    assert(seq![a, b, c, d][2] == c && seq![a, b, c, d][3] == d);
}

/// What one layer loads: the four projections of its attention and the norms of queries
/// and keys, those of keys and values only where it computes them itself; the three matrices
/// of its feed-forward block; a norm before and a norm after each of the two; two matrices
/// and a norm for an input of its own where it has one; and one number.
pub proof fn law_what_a_layer_loads(cfg: Gemma4TextConfig, i: usize, load: Load)
    ensures
        DecoderLayer::at(cfg, i, VarPath::spec_root().at_layer(i)).loads().contains(load) == {
            let d = if cfg.sliding@[i as int] {
                cfg.head_dim
            } else {
                cfg.global_head_dim
            };
            let kv = if !cfg.sliding@[i as int] && cfg.num_global_key_value_heads is Some {
                cfg.num_global_key_value_heads->0
            } else {
                cfg.num_key_value_heads
            };
            let shares = cfg.num_kv_shared_layers > 0 && i >= cfg.num_hidden_layers
                - cfg.num_kv_shared_layers;
            let (h, inner) = (cfg.hidden_size, cfg.intermediate_size);
            let (q_width, kv_width) = ((cfg.num_attention_heads * d) as usize, (kv * d) as usize);
            let width = cfg.hidden_size_per_layer_input;
            let linear = |block: Option<Block>, module: Module, a: usize, b: usize, bias: bool|
                load == Load::Linear(
                    Linear {
                        path: VarPath { layer: Some(i), block, module: Some(module) },
                        in_dim: a,
                        out_dim: b,
                        bias,
                    },
                );
            let norm = |block: Option<Block>, module: Module, n: usize|
                load == Load::Param(
                    Param {
                        path: VarPath { layer: Some(i), block, module: Some(module) },
                        name: ParamName::Weight,
                        len: n,
                    },
                );
            let attn = Some(Block::SelfAttn);
            let mlp = Some(Block::Mlp);
            ||| linear(attn, Module::QProj, h, q_width, cfg.attention_bias)
            ||| linear(attn, Module::OProj, q_width, h, cfg.attention_bias)
            ||| norm(attn, Module::QNorm, d)
            ||| !shares && linear(attn, Module::KProj, h, kv_width, cfg.attention_bias)
            ||| !shares && linear(attn, Module::VProj, h, kv_width, cfg.attention_bias)
            ||| !shares && norm(attn, Module::KNorm, d)
            ||| linear(mlp, Module::GateProj, h, inner, false)
            ||| linear(mlp, Module::UpProj, h, inner, false)
            ||| linear(mlp, Module::DownProj, inner, h, false)
            ||| norm(None, Module::InputLayernorm, h)
            ||| norm(None, Module::PostAttentionLayernorm, h)
            ||| norm(None, Module::PreFeedforwardLayernorm, h)
            ||| norm(None, Module::PostFeedforwardLayernorm, h)
            ||| width > 0 && linear(None, Module::PerLayerInputGate, h, width, false)
            ||| width > 0 && linear(None, Module::PerLayerProjection, width, h, false)
            ||| width > 0 && norm(None, Module::PostPerLayerInputNorm, h)
            ||| load == Load::Param(
                Param {
                    path: VarPath { layer: Some(i), block: None, module: None },
                    name: ParamName::LayerScalar,
                    len: 1,
                },
            )
        },
{
    let layer = DecoderLayer::at(cfg, i, VarPath::spec_root().at_layer(i));
    let att = layer.self_attn;
    let q = Load::Linear(att.q_proj);
    let kv = match (att.k_proj, att.v_proj, att.k_norm) {
        (Some(k), Some(v), Some(n)) => seq![
            Load::Linear(k),
            Load::Linear(v),
            Load::Param(n.weight),
        ],
        _ => Seq::empty(),
    };
    let o = seq![Load::Linear(att.o_proj), Load::Param(att.q_norm.weight)];
    lemma_joined(seq![q] + kv, o, load);
    lemma_joined(seq![q], kv, load);
    lemma_listed(q, q, q, q, load);
    lemma_listed(o[0], o[1], q, q, load);
    if let (Some(k), Some(v), Some(n)) = (att.k_proj, att.v_proj, att.k_norm) {
        lemma_listed(Load::Linear(k), Load::Linear(v), Load::Param(n.weight), q, load);
    }
    let mlp = layer.mlp.loads();
    lemma_listed(mlp[0], mlp[1], mlp[2], q, load);
    let norms = seq![
        Load::Param(layer.input_layernorm.weight),
        Load::Param(layer.post_attention_layernorm.weight),
        Load::Param(layer.pre_feedforward_layernorm.weight),
        Load::Param(layer.post_feedforward_layernorm.weight),
    ];
    lemma_listed(norms[0], norms[1], norms[2], norms[3], load);
    let per_layer = match (
        layer.per_layer_input_gate,
        layer.per_layer_projection,
        layer.post_per_layer_input_norm,
    ) {
        (Some(gate), Some(projection), Some(norm)) => seq![
            Load::Linear(gate),
            Load::Linear(projection),
            Load::Param(norm.weight),
        ],
        _ => Seq::empty(),
    };
    if cfg.hidden_size_per_layer_input > 0 {
        lemma_listed(per_layer[0], per_layer[1], per_layer[2], q, load);
    }
    let scalar = Load::Param(layer.layer_scalar);
    lemma_listed(scalar, q, q, q, load);
    let first = att.loads() + mlp;
    lemma_joined(att.loads(), mlp, load);
    lemma_joined(first, norms, load);
    lemma_joined(first + norms, per_layer, load);
    lemma_joined(first + norms + per_layer, seq![scalar], load);
}

/// What a decoder loads besides its layers: the table of the tokens, the last norm, a table,
/// a matrix and a norm for the layers' own inputs where they have any, and a head where the
/// table of the tokens is not used for it.
pub proof fn law_what_is_loaded(model: TextModel, cfg: Gemma4TextConfig, dtype: DType, load: Load)
    requires
        model.laid_out(cfg, dtype),
    ensures
        model.loads().contains(load) == match place(load).layer {
            Some(i) => i < cfg.num_hidden_layers && DecoderLayer::at(
                cfg,
                i,
                VarPath::spec_root().at_layer(i),
            ).loads().contains(load),
            None => {
                let at = |module: Module|
                    VarPath { layer: None, block: None, module: Some(module) };
                let h = cfg.hidden_size;
                let width = cfg.hidden_size_per_layer_input;
                let packed = (cfg.num_hidden_layers * width) as usize;
                let norm = |module: Module, n: usize|
                    load == Load::Param(
                        Param { path: at(module), name: ParamName::Weight, len: n },
                    );
                let table = |module: Module, rows: usize, cols: usize|
                    load == Load::Embedding(Embedding { path: at(module), rows, cols });
                let linear = |module: Module, a: usize, b: usize|
                    load == Load::Linear(
                        Linear { path: at(module), in_dim: a, out_dim: b, bias: false },
                    );
                let rows = cfg.vocab_size_per_layer_input;
                ||| table(Module::EmbedTokens, cfg.vocab_size, h)
                ||| width > 0 && table(Module::EmbedTokensPerLayer, rows, packed)
                ||| width > 0 && linear(Module::PerLayerModelProjection, h, packed)
                ||| width > 0 && norm(Module::PerLayerProjectionNorm, width)
                ||| norm(Module::Norm, h)
                ||| !cfg.tie_word_embeddings && linear(Module::LmHead, h, cfg.vocab_size)
            },
        },
{
    let embed = Load::Embedding(model.embed_tokens);
    let per_layer = match (
        model.per_layer_embed_tokens,
        model.per_layer_model_projection,
        model.per_layer_projection_norm,
    ) {
        (Some(embedding), Some(projection), Some(norm)) => seq![
            Load::Embedding(embedding),
            Load::Linear(projection),
            Load::Param(norm.weight),
        ],
        _ => Seq::empty(),
    };
    if cfg.hidden_size_per_layer_input > 0 {
        lemma_listed(per_layer[0], per_layer[1], per_layer[2], embed, load);
    }
    let norm = Load::Param(model.norm.weight);
    let head = match model.lm_head {
        Projection::Own(linear) => seq![Load::Linear(linear)],
        Projection::Tied(_) => Seq::empty(),
    };
    if let Projection::Own(linear) = model.lm_head {
        lemma_listed(Load::Linear(linear), embed, embed, embed, load);
    }
    lemma_listed(embed, embed, embed, embed, load);
    lemma_listed(norm, embed, embed, embed, load);
    let layers = layer_loads(model.layers@);
    lemma_joined(seq![embed], per_layer, load);
    lemma_joined(seq![embed] + per_layer, layers, load);
    lemma_joined(seq![embed] + per_layer + layers, seq![norm], load);
    lemma_joined(seq![embed] + per_layer + layers + seq![norm], head, load);
    lemma_layers_load(model.layers@, load);
    assert forall|i: int|
        0 <= i < cfg.num_hidden_layers && (#[trigger] model.layers@[i]).loads().contains(
            load,
        ) implies place(load).layer == Some(i as usize) by {
        lemma_layer_apart(cfg, i as usize);
    }
    if let Some(i) = place(load).layer {
        if i < cfg.num_hidden_layers {
            assert(model.layers@[i as int] == DecoderLayer::at(
                cfg,
                i,
                VarPath::spec_root().at_layer(i),
            ));
        }
    }
}

} // verus!
