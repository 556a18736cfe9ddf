//! What an operation yields, written as expressions over its operands.

use crate::error::{execution_error, Error, ErrorView};
use crate::float::{computes, computes_all, Float, Fx};
use crate::shape::numel;
use crate::tensor::{DataView, Dtype, Tensor, TensorView};
use vstd::prelude::*;

verus! {

/// A tensor whose elements are expressions.
#[verifier::ext_equal]
pub struct SymTensor {
    pub shape: Seq<usize>,
    pub data: Seq<Fx>,
    /// Single precision, or half precision with the given element type.
    pub half: Option<Dtype>,
}

/// What an operation comes to.
pub enum Outcome {
    /// A tensor. Matrix products, which the host computes as a whole, may be
    /// involved.
    Yields(SymTensor, bool),
    /// A tensor that was there before, element type and bits unchanged.
    Copies(TensorView),
    /// An error.
    Fails(ErrorView),
}

/// What operands of half precision yield where they are read for every element
/// of a result of this shape: a result without elements, else an error.
pub open spec fn nothing_of(shape: Seq<usize>) -> Outcome {
    if numel(shape) == 0 {
        yields(shape, Seq::empty())
    } else {
        not_single()
    }
}

/// A single-precision tensor of expressions, without matrix products.
pub open spec fn yields(shape: Seq<usize>, data: Seq<Fx>) -> Outcome {
    Outcome::Yields(SymTensor { shape, data, half: None }, false)
}

/// A single-precision tensor of expressions, with matrix products.
pub open spec fn yields_with_products(shape: Seq<usize>, data: Seq<Fx>) -> Outcome {
    Outcome::Yields(SymTensor { shape, data, half: None }, true)
}

/// An execution error.
pub open spec fn fails(message: Seq<char>) -> Outcome {
    Outcome::Fails(ErrorView::ExecutionError(message))
}

/// Operand sizes that the operation is not defined on.
pub open spec fn misfit() -> Outcome {
    fails("Operand sizes do not fit the operation"@)
}

/// An operand that is not single precision.
pub open spec fn not_single() -> Outcome {
    fails("Operand is not single precision"@)
}

/// The tensor holds values that the expressions may evaluate to.
pub open spec fn realizes<F: Float>(f: F, s: SymTensor, t: TensorView) -> bool {
    &&& t.wf()
    &&& t.shape == s.shape
    &&& match s.half {
        None => t.dtype == Dtype::F32 && t.data is F32 && computes_all(f, s.data, t.singles()),
        Some(dtype) => t.dtype == dtype && match t.data {
            DataView::F16(h) => h.len() == s.data.len() && forall|i: int|
                0 <= i < h.len() ==> rounds_to(f, s.data[i], #[trigger] h[i]),
            DataView::F32(_) => false,
        },
    }
}

/// The half-precision number `h` may come out of the expression `e`.
pub open spec fn rounds_to<F: Float>(f: F, e: Fx, h: u16) -> bool {
    exists|x: u32| computes(f, e, x) && #[trigger] call_ensures(F::to_half, (&f, x), h)
}

/// The host gave a matrix product whose size is not `m` times `n`.
pub open spec fn product_failed<F: Float>(f: F) -> bool {
    exists|m: usize, k: usize, n: usize, a: Vec<u32>, b: Vec<u32>, out: Vec<u32>|
        #[trigger] call_ensures(F::dot, (&f, m, k, n, &a, &b), out) && out@.len() != m * n
}

/// The result is what the outcome says. Where matrix products are involved and
/// the host has given one of the wrong size, it may be an error instead.
pub open spec fn realized<F: Float>(f: F, o: Outcome, r: Result<Tensor, Error>) -> bool {
    match o {
        Outcome::Fails(e) => r matches Err(x) && x@ == e,
        Outcome::Copies(x) => r matches Ok(t) && t@ == x,
        Outcome::Yields(s, products) => match r {
            Ok(t) => realizes(f, s, t@),
            Err(e) => products && product_failed(f) && e@ == ErrorView::ExecutionError(
                "Matrix product has the wrong size"@,
            ),
        },
    }
}

/// The error of [`misfit`].
pub fn misfit_error() -> (e: Error)
    ensures
        Outcome::Fails(e@) == misfit(),
{
    execution_error("Operand sizes do not fit the operation")
}

/// The error of [`not_single`].
pub fn not_single_error() -> (e: Error)
    ensures
        Outcome::Fails(e@) == not_single(),
{
    execution_error("Operand is not single precision")
}

/// The contents of a list of operands.
pub open spec fn operand_views(inputs: Seq<&Tensor>) -> Seq<TensorView> {
    Seq::new(inputs.len(), |i: int| inputs[i]@)
}

/// Every operand is well formed.
pub open spec fn operands_wf(inputs: Seq<&Tensor>) -> bool {
    forall|i: int| 0 <= i < inputs.len() ==> (#[trigger] inputs[i]).wf()
}

} // verus!
