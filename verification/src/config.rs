//! The configuration of the decoder.

use crate::term::{Activation, F64Bits};
use vstd::prelude::*;

verus! {

/// What a checkpoint says of its text decoder.
#[derive(Debug)]
pub struct Gemma4TextConfig {
    pub vocab_size: usize,
    pub hidden_size: usize,
    pub intermediate_size: usize,
    pub num_hidden_layers: usize,
    pub num_attention_heads: usize,
    pub num_key_value_heads: usize,
    /// Key/value heads of layers with full attention, where they differ.
    pub num_global_key_value_heads: Option<usize>,
    /// Head width of layers with sliding attention.
    pub head_dim: usize,
    /// Head width of layers with full attention.
    pub global_head_dim: usize,
    pub attention_bias: bool,
    /// The type of attention of each layer, by name.
    pub layer_types: Vec<String>,
    /// For each layer, whether its attention is sliding.
    pub sliding: Vec<bool>,
    /// How many layers at the end use keys and values of earlier layers.
    pub num_kv_shared_layers: usize,
    /// Width of the per-layer inputs; zero where there are none.
    pub hidden_size_per_layer_input: usize,
    pub vocab_size_per_layer_input: usize,
    pub max_position_embeddings: usize,
    /// How far back a token sees under sliding attention.
    pub sliding_window: usize,
    /// How many positions the cache of a sliding layer keeps.
    pub effective_sliding_window: usize,
    pub rms_norm_eps: F64Bits,
    pub rope_theta: F64Bits,
    pub rope_local_base_freq: F64Bits,
    /// How many pairs of elements rotate under full attention.
    pub rope_angles: usize,
    pub final_logit_softcapping: Option<F64Bits>,
    pub hidden_activation: Activation,
    pub tie_word_embeddings: bool,
    pub use_flash_attn: bool,
}

impl Gemma4TextConfig {
    /// Head width of layer `i`.
    pub open spec fn layer_head_dim(self, i: int) -> usize {
        if self.sliding@[i] {
            self.head_dim
        } else {
            self.global_head_dim
        }
    }

    /// Key/value heads of layer `i`.
    pub open spec fn layer_kv_heads(self, i: int) -> usize {
        match (self.sliding@[i], self.num_global_key_value_heads) {
            (false, Some(n)) => n,
            _ => self.num_key_value_heads,
        }
    }

    /// The first layer that uses keys and values of an earlier one, if any does.
    pub open spec fn first_kv_shared_layer(self) -> int {
        if self.num_kv_shared_layers <= self.num_hidden_layers {
            self.num_hidden_layers - self.num_kv_shared_layers
        } else {
            0
        }
    }

    /// Whether layer `i` uses keys and values of an earlier layer.
    pub open spec fn shares_kv(self, i: int) -> bool {
        self.num_kv_shared_layers > 0 && i >= self.first_kv_shared_layer()
    }

    /// Whether layers `i` and `j` have the same type of attention.
    pub open spec fn same_type(self, i: int, j: int) -> bool {
        self.layer_types@[i]@ == self.layer_types@[j]@
    }

    /// Whether layer `i` stores its keys and values for later layers: it is the
    /// last layer of its type that computes its own.
    pub open spec fn stores_kv(self, i: int) -> bool {
        &&& !self.shares_kv(i)
        &&& i < self.first_kv_shared_layer()
        &&& forall|j: int| i < j < self.first_kv_shared_layer() ==> !self.same_type(i, j)
    }

    /// Whether layer `i` can be laid out: it has key/value heads, its type is
    /// listed where the type matters, and its widths fit in a machine word.
    pub open spec fn layer_fits(self, i: int) -> bool {
        &&& i < self.sliding@.len()
        &&& 0 < self.layer_kv_heads(i)
        &&& self.num_attention_heads * self.layer_head_dim(i) <= usize::MAX
        &&& !self.shares_kv(i) ==> {
            &&& i < self.first_kv_shared_layer() <= self.layer_types@.len()
            &&& self.layer_kv_heads(i) * self.layer_head_dim(i) <= usize::MAX
        }
    }

    /// Whether the decoder can be laid out.
    pub open spec fn fits(self) -> bool {
        &&& forall|i: int| 0 <= i < self.num_hidden_layers ==> #[trigger] self.layer_fits(i)
        &&& self.num_hidden_layers * self.hidden_size_per_layer_input <= usize::MAX
        &&& self.rope_angles <= self.global_head_dim / 2
    }

    /// Returns the first layer that uses keys and values of an earlier one.
    pub fn first_shared(&self) -> (r: usize)
        ensures
            r == self.first_kv_shared_layer(),
    {
        self.num_hidden_layers.saturating_sub(self.num_kv_shared_layers)
    }

    /// Whether layer `i` is the last of its type among the layers before `end`.
    pub fn is_last_of_type(&self, i: usize, end: usize) -> (r: bool)
        requires
            i < end <= self.layer_types@.len(),
        ensures
            r == forall|j: int| i < j < end ==> !self.same_type(i as int, j),
    {
        let mut j: usize = end;
        while j > i + 1
            invariant
                i < j <= end <= self.layer_types@.len(),
                forall|l: int| j <= l < end ==> !self.same_type(i as int, l),
            decreases j,
        {
            j = j - 1;
            if self.layer_types[j] == self.layer_types[i] {
                assert(self.same_type(i as int, j as int));
                return false;
            }
        }
        true
    }

    /// Whether layer `i` can be laid out.
    fn check_layer(&self, i: usize) -> (r: bool)
        ensures
            r == self.layer_fits(i as int),
    {
        if i >= self.sliding.len() {
            return false;
        }
        let (head_dim, kv_heads): (usize, usize) = if self.sliding[i] {
            (self.head_dim, self.num_key_value_heads)
        } else {
            match self.num_global_key_value_heads {
                Some(n) => (self.global_head_dim, n),
                None => (self.global_head_dim, self.num_key_value_heads),
            }
        };
        if kv_heads == 0 || self.num_attention_heads.checked_mul(head_dim).is_none() {
            return false;
        }
        let first = self.first_shared();
        if self.num_kv_shared_layers > 0 && i >= first {
            return true;
        }
        i < first && first <= self.layer_types.len() && kv_heads.checked_mul(head_dim).is_some()
    }

    /// Whether the decoder can be laid out.
    pub fn check(&self) -> (r: bool)
        ensures
            r == self.fits(),
    {
        let n = self.num_hidden_layers;
        for i in 0..n
            invariant
                n == self.num_hidden_layers,
                forall|j: int| 0 <= j < i ==> #[trigger] self.layer_fits(j),
        {
            if !self.check_layer(i) {
                return false;
            }
        }
        self.num_hidden_layers.checked_mul(self.hidden_size_per_layer_input).is_some()
            && self.rope_angles <= self.global_head_dim / 2
    }
}

/// Which configurations can be laid out: each layer has key/value heads, its kind is known,
/// and its heads side by side fit in a machine word; layers with keys and values of their
/// own have a type and fit theirs too; so do the inputs of all layers, and no more pairs
/// turn than a head has.
pub proof fn law_what_can_be_laid_out(cfg: Gemma4TextConfig, i: int)
    requires
        0 <= i < cfg.num_hidden_layers,
    ensures
        cfg.fits() == ((forall|j: int|
            0 <= j < cfg.num_hidden_layers ==> #[trigger] cfg.layer_fits(j))
            && cfg.num_hidden_layers * cfg.hidden_size_per_layer_input <= usize::MAX && 2
            * cfg.rope_angles <= cfg.global_head_dim),
        cfg.layer_fits(i) == {
            let ends = if cfg.num_kv_shared_layers <= cfg.num_hidden_layers {
                cfg.num_hidden_layers - cfg.num_kv_shared_layers
            } else {
                0
            };
            let d = if cfg.sliding@[i] {
                cfg.head_dim as int
            } else {
                cfg.global_head_dim as int
            };
            let kv = if !cfg.sliding@[i] && cfg.num_global_key_value_heads is Some {
                cfg.num_global_key_value_heads->0 as int
            } else {
                cfg.num_key_value_heads as int
            };
            &&& i < cfg.sliding@.len()
            &&& kv > 0
            &&& cfg.num_attention_heads * d <= usize::MAX
            &&& (cfg.num_kv_shared_layers == 0 || i < ends) ==> i < ends
                <= cfg.layer_types@.len() && kv * d <= usize::MAX
        },
{
}

} // verus!
