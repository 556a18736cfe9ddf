//! Operations that work on each element by itself, with and without
//! broadcasting.

use crate::error::{Error, ErrorView};
use crate::float::{
    bits, computes, computes_all, do_exp, do_minus, do_neg, do_over, do_plus, do_sqrt, do_tanh,
    do_times, exp_of, minus, neg_of, over, plus, rectified, relu, relu_of, sqrt_of, step, step_of,
    stepped, tanh_of, times, Float, Fx, ONE,
};
use crate::shape::{
    broadcast_index, broadcast_of, broadcast_position, broadcast_shapes, broadcasts_to,
    checked_numel, checked_strides, copy_dims, covers, fits, is_there, law_broadcast_operands,
    law_broadcasts_cover, numel, same_dims, unravel,
    Shape,
};
use crate::sym::{
    misfit, misfit_error, not_single, not_single_error, nothing_of, realized, yields, Outcome,
};
use crate::tensor::{AnyData, DataView, Tensor, TensorView};
use crate::text::{bracketed, push_bracketed};
use vstd::prelude::*;
use vstd::string::*;

verus! {

/// An operation on one number.
#[derive(Debug, Clone, Copy, PartialEq, Eq, Structural)]
pub enum Unary {
    Relu,
    Tanh,
    Sigmoid,
    Exp,
    Sqrt,
    Neg,
    Step,
}

/// An operation on two numbers.
#[derive(Debug, Clone, Copy, PartialEq, Eq, Structural)]
pub enum Binary {
    Add,
    Sub,
    Mul,
    Div,
}

/// The formula of a unary operation.
pub open spec fn unary_of(k: Unary, x: Fx) -> Fx {
    match k {
        Unary::Relu => relu_of(x),
        Unary::Tanh => tanh_of(x),
        Unary::Sigmoid => over(bits(ONE), plus(bits(ONE), exp_of(neg_of(x)))),
        Unary::Exp => exp_of(x),
        Unary::Sqrt => sqrt_of(x),
        Unary::Neg => neg_of(x),
        Unary::Step => step_of(x),
    }
}

/// The formula of a binary operation.
pub open spec fn binary_of(k: Binary, x: Fx, y: Fx) -> Fx {
    match k {
        Binary::Add => plus(x, y),
        Binary::Sub => minus(x, y),
        Binary::Mul => times(x, y),
        Binary::Div => over(x, y),
    }
}

/// A unary operation on one number.
pub(crate) fn apply_unary<F: Float>(f: &F, k: Unary, x: u32, Ghost(e): Ghost<Fx>) -> (r: u32)
    requires
        computes(*f, e, x),
    ensures
        computes(*f, unary_of(k, e), r),
{
    match k {
        Unary::Relu => {
            let r: u32 = relu(x);
            proof {
                assert(r == rectified(x));
            }
            r
        },
        Unary::Tanh => do_tanh(f, x, Ghost(e)),
        Unary::Sigmoid => {
            let n: u32 = do_neg(f, x, Ghost(e));
            let p: u32 = do_exp(f, n, Ghost(neg_of(e)));
            let d: u32 = do_plus(f, ONE, p, Ghost(bits(ONE)), Ghost(exp_of(neg_of(e))));
            do_over(f, ONE, d, Ghost(bits(ONE)), Ghost(plus(bits(ONE), exp_of(neg_of(e)))))
        },
        Unary::Exp => do_exp(f, x, Ghost(e)),
        Unary::Sqrt => do_sqrt(f, x, Ghost(e)),
        Unary::Neg => do_neg(f, x, Ghost(e)),
        Unary::Step => {
            let r: u32 = step(x);
            proof {
                assert(r == stepped(x));
            }
            r
        },
    }
}

/// A binary operation on two numbers.
pub(crate) fn apply_binary<F: Float>(
    f: &F,
    k: Binary,
    x: u32,
    y: u32,
    Ghost(a): Ghost<Fx>,
    Ghost(b): Ghost<Fx>,
) -> (r: u32)
    requires
        computes(*f, a, x),
        computes(*f, b, y),
    ensures
        computes(*f, binary_of(k, a, b), r),
{
    match k {
        Binary::Add => do_plus(f, x, y, Ghost(a), Ghost(b)),
        Binary::Sub => do_minus(f, x, y, Ghost(a), Ghost(b)),
        Binary::Mul => do_times(f, x, y, Ghost(a), Ghost(b)),
        Binary::Div => do_over(f, x, y, Ghost(a), Ghost(b)),
    }
}

/// A unary operation on every number of a list.
pub open spec fn map_unary(k: Unary, data: Seq<u32>) -> Seq<Fx> {
    Seq::new(data.len(), |i: int| unary_of(k, bits(data[i])))
}

/// A binary operation on the numbers of two lists, place by place.
pub open spec fn map_binary(k: Binary, a: Seq<u32>, b: Seq<u32>) -> Seq<Fx> {
    Seq::new(a.len(), |i: int| binary_of(k, bits(a[i]), bits(b[i])))
}

/// A unary operation on every number of a list.
pub fn map1<F: Float>(f: &F, k: Unary, data: &Vec<u32>) -> (out: Vec<u32>)
    ensures
        computes_all(*f, map_unary(k, data@), out@),
{
    let mut out: Vec<u32> = Vec::new();
    for i in 0..data.len()
        invariant
            out@.len() == i,
            forall|j: int|
                0 <= j < i ==> computes(*f, unary_of(k, bits(data@[j])), #[trigger] out@[j]),
    {
        let x: u32 = data[i];
        out.push(apply_unary(f, k, x, Ghost(bits(x))));
    }
    out
}

/// A binary operation on the numbers of two lists, place by place.
pub fn map2<F: Float>(f: &F, k: Binary, a: &Vec<u32>, b: &Vec<u32>) -> (out: Vec<u32>)
    requires
        a@.len() == b@.len(),
    ensures
        computes_all(*f, map_binary(k, a@, b@), out@),
{
    let mut out: Vec<u32> = Vec::new();
    for i in 0..a.len()
        invariant
            a@.len() == b@.len(),
            out@.len() == i,
            forall|j: int|
                0 <= j < i ==> computes(
                    *f,
                    binary_of(k, bits(a@[j]), bits(b@[j])),
                    #[trigger] out@[j],
                ),
    {
        let x: u32 = a[i];
        let y: u32 = b[i];
        out.push(apply_binary(f, k, x, y, Ghost(bits(x)), Ghost(bits(y))));
    }
    out
}

/// What a unary operation on a tensor yields.
pub open spec fn unary_outcome(k: Unary, x: TensorView) -> Outcome {
    match x.data {
        DataView::F32(d) => yields(x.shape, map_unary(k, d)),
        DataView::F16(_) => not_single(),
    }
}

/// A unary operation on a tensor.
pub fn unary<F: Float>(f: &F, k: Unary, x: &Tensor) -> (r: Result<Tensor, Error>)
    requires
        x.wf(),
    ensures
        realized(*f, unary_outcome(k, x@), r),
{
    match &x.data {
        AnyData::F32(d) => {
            let out = map1(f, k, d);
            Ok(Tensor::new(out, x.shape.copy()))
        },
        AnyData::F16(_) => Err(not_single_error()),
    }
}

/// The message for an addition of different shapes.
pub open spec fn add_mismatch(a: Seq<usize>, b: Seq<usize>) -> Seq<char> {
    "Add shape mismatch: "@ + bracketed(a) + " and "@ + bracketed(b)
}

/// What a binary operation on two tensors yields. A sum needs equal shapes;
/// the others need as many elements and take the shape of the left operand.
pub open spec fn binary_outcome(k: Binary, x: TensorView, y: TensorView) -> Outcome {
    if k == Binary::Add && x.shape != y.shape {
        Outcome::Fails(ErrorView::ShapeMismatch(add_mismatch(x.shape, y.shape)))
    } else {
        match (x.data, y.data) {
            (DataView::F32(a), DataView::F32(b)) => if a.len() == b.len() {
                yields(x.shape, map_binary(k, a, b))
            } else {
                misfit()
            },
            _ => not_single(),
        }
    }
}

/// A binary operation on two tensors.
pub fn binary<F: Float>(f: &F, k: Binary, x: &Tensor, y: &Tensor) -> (r: Result<Tensor, Error>)
    requires
        x.wf(),
        y.wf(),
    ensures
        realized(*f, binary_outcome(k, x@, y@), r),
{
    if k == Binary::Add && !same_dims(&x.shape.dims, &y.shape.dims) {
        let mut message = String::new();
        message.append("Add shape mismatch: ");
        push_bracketed(&mut message, &x.shape.dims);
        message.append(" and ");
        push_bracketed(&mut message, &y.shape.dims);
        proof {
            assert(message@ =~= add_mismatch(x@.shape, y@.shape));
        }
        return Err(Error::ShapeMismatch(message));
    }
    match (&x.data, &y.data) {
        (AnyData::F32(a), AnyData::F32(b)) => {
            if a.len() != b.len() {
                return Err(misfit_error());
            }
            let out = map2(f, k, a, b);
            Ok(Tensor::new(out, x.shape.copy()))
        },
        _ => Err(not_single_error()),
    }
}

/// Combines two lists of numbers, read as tensors that are broadcast to a
/// common shape, if every number that is read is there.
pub fn broadcast_data<P: Fn(u32, u32) -> u32>(
    lhs: &Vec<u32>,
    lhs_dims: &Vec<usize>,
    rhs: &Vec<u32>,
    rhs_dims: &Vec<usize>,
    out_dims: &Vec<usize>,
    op: &P,
) -> (r: Option<Vec<u32>>)
    requires
        fits(out_dims@),
        forall|a: u32, b: u32| call_requires(op, (a, b)),
    ensures
        r is Some == (covers(lhs_dims@, lhs@.len(), out_dims@) && covers(
            rhs_dims@,
            rhs@.len(),
            out_dims@,
        )),
        r matches Some(out) ==> out@.len() == numel(out_dims@) && forall|i: int|
            0 <= i < out@.len() ==> call_ensures(
                op,
                (
                    lhs@[broadcast_index(lhs_dims@, out_dims@, i as nat) as int],
                    rhs@[broadcast_index(rhs_dims@, out_dims@, i as nat) as int],
                ),
                #[trigger] out@[i],
            ),
{
    let (lhs_strides, rhs_strides) = match (checked_strides(lhs_dims), checked_strides(rhs_dims)) {
        (Some(l), Some(r)) => (l, r),
        _ => {
            return None;
        },
    };
    let count: usize = match checked_numel(out_dims) {
        Some(n) => n,
        None => 0,
    };
    let mut out: Vec<u32> = Vec::new();
    for idx in 0..count
        invariant
            count == numel(out_dims@),
            lhs_strides@.len() == lhs_dims@.len(),
            rhs_strides@.len() == rhs_dims@.len(),
            forall|i: int|
                0 <= i < lhs_dims@.len() ==> #[trigger] lhs_strides@[i] == crate::shape::stride(
                    lhs_dims@,
                    i,
                ),
            forall|i: int|
                0 <= i < rhs_dims@.len() ==> #[trigger] rhs_strides@[i] == crate::shape::stride(
                    rhs_dims@,
                    i,
                ),
            forall|a: u32, b: u32| call_requires(op, (a, b)),
            forall|i: nat|
                i < idx ==> #[trigger] is_there(lhs_dims@, lhs@.len(), out_dims@, i),
            forall|i: nat|
                i < idx ==> #[trigger] is_there(rhs_dims@, rhs@.len(), out_dims@, i),
            out@.len() == idx,
            forall|i: int|
                0 <= i < idx ==> call_ensures(
                    op,
                    (
                        lhs@[broadcast_index(lhs_dims@, out_dims@, i as nat) as int],
                        rhs@[broadcast_index(rhs_dims@, out_dims@, i as nat) as int],
                    ),
                    #[trigger] out@[i],
                ),
    {
        let c = unravel(idx, out_dims);
        let l = broadcast_position(lhs_dims, lhs.len(), &lhs_strides, &c, out_dims, idx);
        let r = broadcast_position(rhs_dims, rhs.len(), &rhs_strides, &c, out_dims, idx);
        match (l, r) {
            (Some(p), Some(q)) => {
                let v: u32 = op(lhs[p], rhs[q]);
                out.push(v);
            },
            _ => {
                return None;
            },
        }
    }
    Some(out)
}

/// Combines two tensors that are broadcast to a common shape.
pub fn broadcast_op<P: Fn(u32, u32) -> u32>(
    lhs: &Tensor,
    rhs: &Tensor,
    out_dims: &Vec<usize>,
    op: &P,
) -> (t: Tensor)
    requires
        lhs.wf(),
        rhs.wf(),
        lhs.data is F32,
        rhs.data is F32,
        fits(out_dims@),
        broadcasts_to(lhs@.shape, out_dims@),
        broadcasts_to(rhs@.shape, out_dims@),
        forall|a: u32, b: u32| call_requires(op, (a, b)),
    ensures
        t.wf(),
        t@ == crate::tensor::single(t@.singles(), out_dims@),
        forall|i: int|
            0 <= i < t@.singles().len() ==> call_ensures(
                op,
                (
                    lhs@.singles()[broadcast_index(lhs@.shape, out_dims@, i as nat) as int],
                    rhs@.singles()[broadcast_index(rhs@.shape, out_dims@, i as nat) as int],
                ),
                #[trigger] t@.singles()[i],
            ),
{
    proof {
        law_broadcasts_cover(lhs@.shape, lhs@.singles().len(), out_dims@);
        law_broadcasts_cover(rhs@.shape, rhs@.singles().len(), out_dims@);
    }
    let out: Vec<u32> = match broadcast_data(
        lhs.data(),
        &lhs.shape.dims,
        rhs.data(),
        &rhs.shape.dims,
        out_dims,
        op,
    ) {
        Some(out) => out,
        None => Vec::new(),
    };
    Tensor::new(out, Shape::new(copy_dims(out_dims)))
}

/// The elements of a broadcast operation.
pub open spec fn broadcast_elements(
    k: Binary,
    x: Seq<u32>,
    x_shape: Seq<usize>,
    y: Seq<u32>,
    y_shape: Seq<usize>,
    out: Seq<usize>,
) -> Seq<Fx> {
    Seq::new(
        numel(out),
        |i: int|
            binary_of(
                k,
                bits(x[broadcast_index(x_shape, out, i as nat) as int]),
                bits(y[broadcast_index(y_shape, out, i as nat) as int]),
            ),
    )
}

/// The name of a binary operation in messages.
pub open spec fn not_broadcastable(k: Binary) -> Seq<char> {
    match k {
        Binary::Add => "Shapes are not broadcastable for Add"@,
        Binary::Sub => "Shapes are not broadcastable for Sub"@,
        Binary::Mul => "Shapes are not broadcastable for Mul"@,
        Binary::Div => "Shapes are not broadcastable for Div"@,
    }
}

/// What a broadcast operation on two tensors yields.
pub open spec fn broadcast_outcome(k: Binary, x: TensorView, y: TensorView) -> Outcome {
    match broadcast_of(x.shape, y.shape) {
        None => crate::sym::fails(not_broadcastable(k)),
        Some(out) => if !fits(out) {
            misfit()
        } else {
            match (x.data, y.data) {
                (DataView::F32(a), DataView::F32(b)) => yields(
                    out,
                    broadcast_elements(k, a, x.shape, b, y.shape, out),
                ),
                _ => nothing_of(out),
            }
        },
    }
}

/// A binary operation on two tensors, broadcast against each other.
pub fn broadcast_binary<F: Float>(f: &F, k: Binary, x: &Tensor, y: &Tensor) -> (r: Result<
    Tensor,
    Error,
>)
    requires
        x.wf(),
        y.wf(),
    ensures
        realized(*f, broadcast_outcome(k, x@, y@), r),
{
    let out_dims: Vec<usize> = match broadcast_shapes(&x.shape.dims, &y.shape.dims) {
        Some(d) => d,
        None => {
            let message = match k {
                Binary::Add => "Shapes are not broadcastable for Add",
                Binary::Sub => "Shapes are not broadcastable for Sub",
                Binary::Mul => "Shapes are not broadcastable for Mul",
                Binary::Div => "Shapes are not broadcastable for Div",
            };
            return Err(crate::error::execution_error(message));
        },
    };
    let count: usize = match checked_numel(&out_dims) {
        Some(n) => n,
        None => {
            return Err(misfit_error());
        },
    };
    match (&x.data, &y.data) {
        (AnyData::F32(_), AnyData::F32(_)) => {},
        _ => {
            return if count == 0 {
                Ok(Tensor::new(Vec::new(), Shape::new(out_dims)))
            } else {
                Err(not_single_error())
            };
        },
    }
    proof {
        law_broadcast_operands(x@.shape, y@.shape);
    }
    let op = |a: u32, b: u32| -> (r: u32)
        ensures
            computes(*f, binary_of(k, bits(a), bits(b)), r),
        { apply_binary(f, k, a, b, Ghost(bits(a)), Ghost(bits(b))) };
    let t = broadcast_op(x, y, &out_dims, &op);
    proof {
        let es = broadcast_elements(
            k,
            x@.singles(),
            x@.shape,
            y@.singles(),
            y@.shape,
            out_dims@,
        );
        assert forall|i: int| 0 <= i < es.len() implies computes(
            *f,
            es[i],
            #[trigger] t@.singles()[i],
        ) by {}
    }
    Ok(t)
}

} // verus!
