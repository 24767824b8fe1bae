//! Weights: where they are found and which of them are loaded.

use crate::term::{Block, Embedding, Linear, Module, Param, ParamName, VarPath};
use vstd::prelude::*;

verus! {

/// A component of a weight's name.
#[derive(Clone, Copy, PartialEq, Eq, Debug)]
pub enum Segment {
    Text(&'static str),
    Index(usize),
}

/// What a component of a name spells.
pub enum SegmentView {
    Text(Seq<char>),
    Index(usize),
}

impl View for Segment {
    type V = SegmentView;

    open spec fn view(&self) -> SegmentView {
        match self {
            Segment::Text(s) => SegmentView::Text(s@),
            Segment::Index(i) => SegmentView::Index(*i),
        }
    }
}

/// The name of a block.
pub open spec fn block_text(b: Block) -> Seq<char> {
    match b {
        Block::SelfAttn => "self_attn"@,
        Block::Mlp => "mlp"@,
    }
}

/// The name of a module.
pub open spec fn module_text(m: Module) -> Seq<char> {
    match m {
        Module::EmbedTokens => "embed_tokens"@,
        Module::EmbedTokensPerLayer => "embed_tokens_per_layer"@,
        Module::PerLayerModelProjection => "per_layer_model_projection"@,
        Module::PerLayerProjectionNorm => "per_layer_projection_norm"@,
        Module::Norm => "norm"@,
        Module::LmHead => "lm_head"@,
        Module::QProj => "q_proj"@,
        Module::KProj => "k_proj"@,
        Module::VProj => "v_proj"@,
        Module::OProj => "o_proj"@,
        Module::QNorm => "q_norm"@,
        Module::KNorm => "k_norm"@,
        Module::GateProj => "gate_proj"@,
        Module::UpProj => "up_proj"@,
        Module::DownProj => "down_proj"@,
        Module::InputLayernorm => "input_layernorm"@,
        Module::PostAttentionLayernorm => "post_attention_layernorm"@,
        Module::PreFeedforwardLayernorm => "pre_feedforward_layernorm"@,
        Module::PostFeedforwardLayernorm => "post_feedforward_layernorm"@,
        Module::PerLayerInputGate => "per_layer_input_gate"@,
        Module::PerLayerProjection => "per_layer_projection"@,
        Module::PostPerLayerInputNorm => "post_per_layer_input_norm"@,
    }
}

/// The last component of a weight's name.
pub open spec fn param_text(n: ParamName) -> Seq<char> {
    match n {
        ParamName::Weight => "weight"@,
        ParamName::LayerScalar => "layer_scalar"@,
    }
}

impl Block {
    /// Returns the name of the block.
    pub fn text(&self) -> (r: &'static str)
        ensures
            r@ == block_text(*self),
    {
        match self {
            Block::SelfAttn => "self_attn",
            Block::Mlp => "mlp",
        }
    }
}

impl Module {
    /// Returns the name of the module.
    pub fn text(&self) -> (r: &'static str)
        ensures
            r@ == module_text(*self),
    {
        match self {
            Module::EmbedTokens => "embed_tokens",
            Module::EmbedTokensPerLayer => "embed_tokens_per_layer",
            Module::PerLayerModelProjection => "per_layer_model_projection",
            Module::PerLayerProjectionNorm => "per_layer_projection_norm",
            Module::Norm => "norm",
            Module::LmHead => "lm_head",
            Module::QProj => "q_proj",
            Module::KProj => "k_proj",
            Module::VProj => "v_proj",
            Module::OProj => "o_proj",
            Module::QNorm => "q_norm",
            Module::KNorm => "k_norm",
            Module::GateProj => "gate_proj",
            Module::UpProj => "up_proj",
            Module::DownProj => "down_proj",
            Module::InputLayernorm => "input_layernorm",
            Module::PostAttentionLayernorm => "post_attention_layernorm",
            Module::PreFeedforwardLayernorm => "pre_feedforward_layernorm",
            Module::PostFeedforwardLayernorm => "post_feedforward_layernorm",
            Module::PerLayerInputGate => "per_layer_input_gate",
            Module::PerLayerProjection => "per_layer_projection",
            Module::PostPerLayerInputNorm => "post_per_layer_input_norm",
        }
    }
}

impl ParamName {
    /// Returns the last component of the weight's name.
    pub fn text(&self) -> (r: &'static str)
        ensures
            r@ == param_text(*self),
    {
        match self {
            ParamName::Weight => "weight",
            ParamName::LayerScalar => "layer_scalar",
        }
    }
}

impl VarPath {
    /// The root of the language model.
    pub open spec fn spec_root() -> VarPath {
        VarPath { layer: None, block: None, module: None }
    }

    /// The place of layer `i`.
    pub open spec fn at_layer(self, i: usize) -> VarPath {
        VarPath { layer: Some(i), ..self }
    }

    /// The place of a block.
    pub open spec fn at_block(self, b: Block) -> VarPath {
        VarPath { block: Some(b), ..self }
    }

    /// The place of a module.
    pub open spec fn at(self, m: Module) -> VarPath {
        VarPath { module: Some(m), ..self }
    }

    /// Returns the root of the language model.
    pub fn root() -> (r: VarPath)
        ensures
            r == VarPath::spec_root(),
    {
        VarPath { layer: None, block: None, module: None }
    }

    /// Returns the place of layer `i`.
    pub fn pp_layer(&self, i: usize) -> (r: VarPath)
        ensures
            r == self.at_layer(i),
    {
        VarPath { layer: Some(i), block: self.block, module: self.module }
    }

    /// Returns the place of a block.
    pub fn pp_block(&self, b: Block) -> (r: VarPath)
        ensures
            r == self.at_block(b),
    {
        VarPath { layer: self.layer, block: Some(b), module: self.module }
    }

    /// Returns the place of a module.
    pub fn pp(&self, m: Module) -> (r: VarPath)
        ensures
            r == self.at(m),
    {
        VarPath { layer: self.layer, block: self.block, module: Some(m) }
    }

    /// The components of the place's name, outermost first.
    pub open spec fn spelling(self) -> Seq<SegmentView> {
        let layer = match self.layer {
            Some(i) => seq![SegmentView::Text("layers"@), SegmentView::Index(i)],
            None => Seq::empty(),
        };
        let block = match self.block {
            Some(b) => seq![SegmentView::Text(block_text(b))],
            None => Seq::empty(),
        };
        let module = match self.module {
            Some(m) => seq![SegmentView::Text(module_text(m))],
            None => Seq::empty(),
        };
        layer + block + module
    }

    /// Returns the components of the place's name, outermost first.
    pub fn segments(&self) -> (r: Vec<Segment>)
        ensures
            r@.map_values(|s: Segment| s@) == self.spelling(),
    {
        let mut r: Vec<Segment> = Vec::new();
        if let Some(i) = self.layer {
            r.push(Segment::Text("layers"));
            r.push(Segment::Index(i));
        }
        if let Some(b) = self.block {
            r.push(Segment::Text(b.text()));
        }
        if let Some(m) = self.module {
            r.push(Segment::Text(m.text()));
        }
        assert(r@.map_values(|s: Segment| s@) =~= self.spelling());
        r
    }
}

/// Weights that are loaded together.
#[derive(Clone, Copy, PartialEq, Eq, Structural, Debug)]
pub enum Load {
    Linear(Linear),
    Embedding(Embedding),
    Param(Param),
}

/// Loads a linear layer.
pub fn linear_b(
    loads: &mut Vec<Load>,
    in_dim: usize,
    out_dim: usize,
    bias: bool,
    path: VarPath,
) -> (r: Linear)
    ensures
        r == (Linear { path, in_dim, out_dim, bias }),
        final(loads)@ == old(loads)@.push(Load::Linear(r)),
{
    let r = Linear { path, in_dim, out_dim, bias };
    loads.push(Load::Linear(r));
    r
}

/// Loads an embedding table.
pub fn embedding(loads: &mut Vec<Load>, rows: usize, cols: usize, path: VarPath) -> (r: Embedding)
    ensures
        r == (Embedding { path, rows, cols }),
        final(loads)@ == old(loads)@.push(Load::Embedding(r)),
{
    let r = Embedding { path, rows, cols };
    loads.push(Load::Embedding(r));
    r
}

/// Loads a weight vector.
pub fn param(loads: &mut Vec<Load>, len: usize, name: ParamName, path: VarPath) -> (r: Param)
    ensures
        r == (Param { path, name, len }),
        final(loads)@ == old(loads)@.push(Load::Param(r)),
{
    let r = Param { path, name, len };
    loads.push(Load::Param(r));
    r
}

/// Different modules have different names.
proof fn lemma_modules_apart(a: Module, b: Module)
    requires
        module_text(a) == module_text(b),
    ensures
        a == b,
{
    reveal_strlit("embed_tokens");
    reveal_strlit("embed_tokens_per_layer");
    reveal_strlit("per_layer_model_projection");
    reveal_strlit("per_layer_projection_norm");
    reveal_strlit("norm");
    reveal_strlit("lm_head");
    reveal_strlit("q_proj");
    reveal_strlit("k_proj");
    reveal_strlit("v_proj");
    reveal_strlit("o_proj");
    reveal_strlit("q_norm");
    reveal_strlit("k_norm");
    reveal_strlit("gate_proj");
    reveal_strlit("up_proj");
    reveal_strlit("down_proj");
    reveal_strlit("input_layernorm");
    reveal_strlit("post_attention_layernorm");
    reveal_strlit("pre_feedforward_layernorm");
    reveal_strlit("post_feedforward_layernorm");
    reveal_strlit("per_layer_input_gate");
    reveal_strlit("per_layer_projection");
    reveal_strlit("post_per_layer_input_norm");
    let (x, y) = (module_text(a), module_text(b));
    assert(x.len() == y.len() && x[0] == y[0] && x[2] == y[2] && x[10] == y[10]);
}

/// No module is named like a block or like the list of the layers.
proof fn lemma_blocks_apart(a: Block, b: Block, m: Module)
    ensures
        block_text(a) != module_text(m),
        block_text(a) == block_text(b) ==> a == b,
        block_text(a) != "layers"@,
        module_text(m) != "layers"@,
{
    reveal_strlit("embed_tokens");
    reveal_strlit("embed_tokens_per_layer");
    reveal_strlit("per_layer_model_projection");
    reveal_strlit("per_layer_projection_norm");
    reveal_strlit("norm");
    reveal_strlit("lm_head");
    reveal_strlit("q_proj");
    reveal_strlit("k_proj");
    reveal_strlit("v_proj");
    reveal_strlit("o_proj");
    reveal_strlit("q_norm");
    reveal_strlit("k_norm");
    reveal_strlit("gate_proj");
    reveal_strlit("up_proj");
    reveal_strlit("down_proj");
    reveal_strlit("input_layernorm");
    reveal_strlit("post_attention_layernorm");
    reveal_strlit("pre_feedforward_layernorm");
    reveal_strlit("post_feedforward_layernorm");
    reveal_strlit("per_layer_input_gate");
    reveal_strlit("per_layer_projection");
    reveal_strlit("post_per_layer_input_norm");
    reveal_strlit("self_attn");
    reveal_strlit("mlp");
    reveal_strlit("layers");
    let (x, y) = (block_text(a), module_text(m));
    assert(x.len() != y.len() || x[0] != y[0]);
    assert(y.len() != 6 || y[0] != 'l');
}

/// The components of a name, one by one.
proof fn lemma_spelled(p: VarPath)
    ensures
        ({
            let x = p.spelling();
            let start: int = if p.layer is Some { 2 } else { 0 };
            let middle: int = if p.block is Some { start + 1 } else { start };
            let end: int = if p.module is Some { middle + 1 } else { middle };
            &&& x.len() == end
            &&& p.layer matches Some(i) ==> x[1] == SegmentView::Index(i)
            &&& p.block matches Some(b) ==> x[start] == SegmentView::Text(block_text(b))
            &&& p.module matches Some(m) ==> x[middle] == SegmentView::Text(module_text(m))
        }),
{
}

/// Different places have different names.
pub proof fn law_names_are_apart(a: VarPath, b: VarPath)
    requires
        a.spelling() == b.spelling(),
    ensures
        a == b,
{
    lemma_spelled(a);
    lemma_spelled(b);
    assert(a.layer == b.layer);
    if let (Some(c), Some(d)) = (a.block, b.block) {
        lemma_blocks_apart(c, d, Module::Norm);
    }
    if let (Some(m), Some(n)) = (a.module, b.module) {
        if a.block is Some == b.block is Some {
            lemma_modules_apart(m, n);
        }
    }
    if let (Some(c), Some(n)) = (a.block, b.module) {
        lemma_blocks_apart(c, c, n);
    }
    if let (Some(c), Some(n)) = (b.block, a.module) {
        lemma_blocks_apart(c, c, n);
    }
}

/// How the weights are named: those of the decoder by their module, those of a layer by
/// `layers`, the number of the layer, the block where they belong to one, and the module.
pub proof fn law_names(i: usize)
    ensures
        ({
            let spelled = |block: Option<Block>, module: Module|
                (VarPath { layer: Some(i), block, module: Some(module) }).spelling();
            let at = |text: Seq<char>|
                seq![
                    SegmentView::Text("layers"@),
                    SegmentView::Index(i),
                    SegmentView::Text(text),
                ];
            let within = |block: Seq<char>, text: Seq<char>|
                seq![
                    SegmentView::Text("layers"@),
                    SegmentView::Index(i),
                    SegmentView::Text(block),
                    SegmentView::Text(text),
                ];
            let attn = Some(Block::SelfAttn);
            let mlp = Some(Block::Mlp);
            &&& spelled(attn, Module::QProj) == within("self_attn"@, "q_proj"@)
            &&& spelled(attn, Module::KProj) == within("self_attn"@, "k_proj"@)
            &&& spelled(attn, Module::VProj) == within("self_attn"@, "v_proj"@)
            &&& spelled(attn, Module::OProj) == within("self_attn"@, "o_proj"@)
            &&& spelled(attn, Module::QNorm) == within("self_attn"@, "q_norm"@)
            &&& spelled(attn, Module::KNorm) == within("self_attn"@, "k_norm"@)
            &&& spelled(mlp, Module::GateProj) == within("mlp"@, "gate_proj"@)
            &&& spelled(mlp, Module::UpProj) == within("mlp"@, "up_proj"@)
            &&& spelled(mlp, Module::DownProj) == within("mlp"@, "down_proj"@)
            &&& spelled(None, Module::InputLayernorm) == at("input_layernorm"@)
            &&& spelled(None, Module::PostAttentionLayernorm) == at("post_attention_layernorm"@)
            &&& spelled(None, Module::PreFeedforwardLayernorm) == at("pre_feedforward_layernorm"@)
            &&& spelled(None, Module::PostFeedforwardLayernorm) == at("post_feedforward_layernorm"@)
            &&& spelled(None, Module::PerLayerInputGate) == at("per_layer_input_gate"@)
            &&& spelled(None, Module::PerLayerProjection) == at("per_layer_projection"@)
            &&& spelled(None, Module::PostPerLayerInputNorm) == at("post_per_layer_input_norm"@)
        }),
        ({
            let spelled = |module: Module|
                (VarPath { layer: None, block: None, module: Some(module) }).spelling();
            let text = |text: Seq<char>| seq![SegmentView::Text(text)];
            &&& spelled(Module::EmbedTokens) == text("embed_tokens"@)
            &&& spelled(Module::EmbedTokensPerLayer) == text("embed_tokens_per_layer"@)
            &&& spelled(Module::PerLayerModelProjection) == text("per_layer_model_projection"@)
            &&& spelled(Module::PerLayerProjectionNorm) == text("per_layer_projection_norm"@)
            &&& spelled(Module::Norm) == text("norm"@)
            &&& spelled(Module::LmHead) == text("lm_head"@)
        }),
        param_text(ParamName::Weight) == "weight"@,
        param_text(ParamName::LayerScalar) == "layer_scalar"@,
{
}

} // verus!
