//! A verified core for a heterogeneous tensor runtime.

pub mod backend;
pub mod blas;
pub mod c_api;
pub mod cli;
pub mod codegen;
pub mod compiler;
pub mod dag;
pub mod error;
pub mod eval;
pub mod exact;
pub mod float;
pub mod gpu;
pub mod gradcheck;
pub mod graph;
pub mod items;
pub mod kernels;
pub mod laws;
pub mod llama;
pub mod named;
pub mod op;
pub mod server;
pub mod shape;
pub mod sym;
pub mod tensor;
pub mod text;
