//! A language model of the llama family: reading a prompt, layer by layer.

pub mod attend;
pub mod logits;
pub mod model;
pub mod quant;
pub mod steps;
pub mod store;
