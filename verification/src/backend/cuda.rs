//! The backend for graphics processors with CUDA.
//!
//! Without CUDA support it hands every operation to the host.

use crate::backend::cpu::CpuBackend;
use crate::backend::Backend;
use crate::error::Error;
use crate::float::Float;
use crate::op::{Op, OpView};
use crate::tensor::{Tensor, TensorView};
use vstd::prelude::*;

verus! {

/// A backend that hands every operation to the host.
#[derive(Debug)]
pub struct CudaBackend<F: Float> {
    cpu_fallback: CpuBackend<F>,
}

impl<F: Float> CudaBackend<F> {
    /// The backend that the operations are handed to.
    pub closed spec fn fallback(&self) -> CpuBackend<F> {
        self.cpu_fallback
    }

    /// A backend with the given arithmetic.
    pub fn new(float: F) -> (b: CudaBackend<F>)
        ensures
            b.fallback().float == float,
    {
        CudaBackend { cpu_fallback: CpuBackend::new(float) }
    }

    /// Whether operations run on the graphics processor: this library is
    /// built without CUDA support.
    pub fn is_available() -> (available: bool)
        ensures
            !available,
    {
        false
    }
}

impl<F: Float> Backend for CudaBackend<F> {
    /// The host's backend may return the result.
    open spec fn runs(&self, op: OpView, inputs: Seq<TensorView>, r: Result<Tensor, Error>) -> bool {
        self.fallback().runs(op, inputs, r)
    }

    fn execute(&self, op: &Op, inputs: &[&Tensor]) -> (r: Result<Tensor, Error>) {
        self.cpu_fallback.execute(op, inputs)
    }
}

} // verus!
