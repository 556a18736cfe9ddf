//! The backend that computes on the host.

use crate::backend::dispatch::{op_outcome, run_op};
use crate::backend::Backend;
use crate::error::Error;
use crate::float::Float;
use crate::op::{Op, OpView};
use crate::sym::realized;
use crate::tensor::{Tensor, TensorView};
use vstd::prelude::*;

verus! {

/// The backend that computes on the host, with the host's arithmetic.
#[derive(Debug)]
pub struct CpuBackend<F: Float> {
    pub float: F,
}

impl<F: Float> CpuBackend<F> {
    /// A backend with the given arithmetic.
    pub fn new(float: F) -> (b: CpuBackend<F>)
        ensures
            b.float == float,
    {
        CpuBackend { float }
    }
}

impl<F: Float> Backend for CpuBackend<F> {
    /// The result is what the operation comes to.
    open spec fn runs(&self, op: OpView, inputs: Seq<TensorView>, r: Result<Tensor, Error>) -> bool {
        realized(self.float, op_outcome(op, inputs), r)
    }

    fn execute(&self, op: &Op, inputs: &[&Tensor]) -> (r: Result<Tensor, Error>) {
        run_op(&self.float, op, inputs)
    }
}

} // verus!
