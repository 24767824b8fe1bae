//! Plans for running the Gemma 4 text decoder.
//!
//! The crate decides everything about a run of the decoder that is not
//! arithmetic on tensors: which weights a configuration needs and under which
//! names, how each layer attends and caches, which positions a token may see,
//! and which tensor operations compute the logits, in which order. Operations
//! are recorded on a [`tape::Tape`]; an executor replays the tape with a tensor
//! library.

pub mod attention;
pub mod blockwise;
pub mod caches;
pub mod causal;
pub mod chunks;
pub mod computes;
pub mod config;
pub mod decoding;
pub mod depend;
pub mod device;
pub mod feeding;
pub mod fitting;
pub mod formulas;
pub mod generation;
pub mod layer;
pub mod manifest;
pub mod mask;
pub mod mlp;
pub mod model;
pub mod norm;
pub mod numbers;
pub mod parts;
pub mod pass;
pub mod reading;
pub mod refusal;
pub mod relative;
pub mod rotary;
pub mod shape;
pub mod shards;
pub mod sharing;
pub mod sizes;
pub mod sound;
pub mod tape;
pub mod term;
pub mod vars;
