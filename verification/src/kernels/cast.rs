//! Conversions between element types.

use crate::error::{execution_error, Error};
use crate::float::{bits, brain_of, computes, do_brain, do_from_half, leaves, Float, Fx};
use crate::sym::{
    fails, not_single, not_single_error, realized, rounds_to, yields, Outcome, SymTensor,
};
use crate::tensor::{copy_words, AnyData, DataView, Dtype, Tensor, TensorView};
use vstd::prelude::*;

verus! {

/// The given numbers at the precision of a brain float.
pub open spec fn brains(data: Seq<u32>) -> Seq<Fx> {
    Seq::new(data.len(), |i: int| brain_of(bits(data[i])))
}

/// The given half-precision numbers, widened.
pub open spec fn widened(halves: Seq<u16>) -> Seq<Fx> {
    Seq::new(halves.len(), |i: int| Fx::FromHalf(halves[i]))
}

/// The given half-precision numbers, widened, at the precision of a brain
/// float.
pub open spec fn widened_brains(halves: Seq<u16>) -> Seq<Fx> {
    Seq::new(halves.len(), |i: int| brain_of(Fx::FromHalf(halves[i])))
}

/// What conversion to half precision yields.
pub open spec fn to_f16_outcome(x: TensorView) -> Outcome {
    match x.data {
        DataView::F32(d) => Outcome::Yields(
            SymTensor { shape: x.shape, data: leaves(d), half: Some(Dtype::F16) },
            false,
        ),
        DataView::F16(_) => not_single(),
    }
}

/// What conversion to brain floats yields. The numbers are held as halves.
pub open spec fn to_bf16_outcome(x: TensorView) -> Outcome {
    match x.data {
        DataView::F32(d) => Outcome::Yields(
            SymTensor { shape: x.shape, data: brains(d), half: Some(Dtype::BF16) },
            false,
        ),
        DataView::F16(_) => not_single(),
    }
}

/// What conversion from half precision yields.
pub open spec fn from_f16_outcome(x: TensorView) -> Outcome {
    match x.data {
        DataView::F16(h) => yields(x.shape, widened(h)),
        DataView::F32(_) => fails("CastF16ToF32 input must be F16 data"@),
    }
}

/// What conversion from brain floats yields.
pub open spec fn from_bf16_outcome(x: TensorView) -> Outcome {
    match x.data {
        DataView::F32(d) => yields(x.shape, leaves(d)),
        DataView::F16(h) => yields(x.shape, widened_brains(h)),
    }
}

/// The half-precision number nearest to `x`.
fn do_half<F: Float>(f: &F, x: u32, Ghost(e): Ghost<Fx>) -> (h: u16)
    requires
        computes(*f, e, x),
    ensures
        rounds_to(*f, e, h),
{
    let h: u16 = f.to_half(x);
    proof {
        assert(call_ensures(F::to_half, (f, x), h));
    }
    h
}

/// Converts a single-precision tensor to half precision.
pub fn to_f16<F: Float>(f: &F, x: &Tensor) -> (r: Result<Tensor, Error>)
    requires
        x.wf(),
    ensures
        realized(*f, to_f16_outcome(x@), r),
{
    match &x.data {
        AnyData::F32(d) => {
            let mut out: Vec<u16> = Vec::new();
            for i in 0..d.len()
                invariant
                    out@.len() == i,
                    forall|j: int|
                        0 <= j < i ==> rounds_to(*f, leaves(d@)[j], #[trigger] out@[j]),
            {
                out.push(do_half(f, d[i], Ghost(bits(d@[i as int]))));
            }
            Ok(Tensor::new_with_data(AnyData::F16(out), x.shape.copy(), Dtype::F16))
        },
        AnyData::F16(_) => Err(not_single_error()),
    }
}

/// Converts a single-precision tensor to brain floats, held as halves.
pub fn to_bf16<F: Float>(f: &F, x: &Tensor) -> (r: Result<Tensor, Error>)
    requires
        x.wf(),
    ensures
        realized(*f, to_bf16_outcome(x@), r),
{
    match &x.data {
        AnyData::F32(d) => {
            let mut out: Vec<u16> = Vec::new();
            for i in 0..d.len()
                invariant
                    out@.len() == i,
                    forall|j: int|
                        0 <= j < i ==> rounds_to(*f, brains(d@)[j], #[trigger] out@[j]),
            {
                let ghost e = bits(d@[i as int]);
                let b: u32 = do_brain(f, d[i], Ghost(e));
                out.push(do_half(f, b, Ghost(brain_of(e))));
            }
            Ok(Tensor::new_with_data(AnyData::F16(out), x.shape.copy(), Dtype::BF16))
        },
        AnyData::F16(_) => Err(not_single_error()),
    }
}

/// Converts a half-precision tensor to single precision.
pub fn from_f16<F: Float>(f: &F, x: &Tensor) -> (r: Result<Tensor, Error>)
    requires
        x.wf(),
    ensures
        realized(*f, from_f16_outcome(x@), r),
{
    match &x.data {
        AnyData::F16(h) => {
            let mut out: Vec<u32> = Vec::new();
            for i in 0..h.len()
                invariant
                    out@.len() == i,
                    forall|j: int| 0 <= j < i ==> computes(*f, widened(h@)[j], #[trigger] out@[j]),
            {
                out.push(do_from_half(f, h[i]));
            }
            Ok(Tensor::new(out, x.shape.copy()))
        },
        AnyData::F32(_) => Err(execution_error("CastF16ToF32 input must be F16 data")),
    }
}

/// Converts a tensor of brain floats to single precision. Data that is single
/// precision already is kept.
pub fn from_bf16<F: Float>(f: &F, x: &Tensor) -> (r: Result<Tensor, Error>)
    requires
        x.wf(),
    ensures
        realized(*f, from_bf16_outcome(x@), r),
{
    match &x.data {
        AnyData::F32(d) => Ok(Tensor::new(copy_words(d), x.shape.copy())),
        AnyData::F16(h) => {
            let mut out: Vec<u32> = Vec::new();
            for i in 0..h.len()
                invariant
                    out@.len() == i,
                    forall|j: int|
                        0 <= j < i ==> computes(*f, widened_brains(h@)[j], #[trigger] out@[j]),
            {
                let w: u32 = do_from_half(f, h[i]);
                out.push(do_brain(f, w, Ghost(Fx::FromHalf(h@[i as int]))));
            }
            Ok(Tensor::new(out, x.shape.copy()))
        },
    }
}

} // verus!
