//! Which kernel computes which operation.

use crate::blas::{batched_matmul, batched_matmul_outcome, matmul, matmul_outcome};
use crate::error::{execution_error, Error};
use crate::float::Float;
use crate::kernels::attention::{
    attention, attention_forward_outcome, attention_outcome, attention_part, AttentionPart,
};
use crate::kernels::cast::{
    from_bf16, from_bf16_outcome, from_f16, from_f16_outcome, to_bf16, to_bf16_outcome, to_f16,
    to_f16_outcome,
};
use crate::kernels::conv::{
    conv2d, conv2d_grad_b, conv2d_grad_b_outcome, conv2d_grad_w, conv2d_grad_w_outcome,
    conv2d_grad_x, conv2d_grad_x_outcome, conv2d_outcome,
};
use crate::kernels::elementwise::{
    binary, binary_outcome, broadcast_binary, broadcast_outcome, unary, unary_outcome, Binary, Unary,
};
use crate::kernels::flash::{flash_attention, flash_attention_outcome};
use crate::kernels::heads::{
    causal_attention, causal_attention_outcome, multi_head_attention, multi_head_attention_outcome,
};
use crate::kernels::movement::{
    batched_transpose, batched_transpose_outcome, concat, concat_outcome, reshape, reshape_outcome,
    slice, slice_grad, slice_grad_outcome, slice_outcome, transpose, transpose_outcome,
};
use crate::kernels::pool::{
    avg_pool2d, avg_pool2d_grad, avg_pool2d_grad_outcome, avg_pool2d_outcome, max_pool2d,
    max_pool2d_grad, max_pool2d_grad_outcome, max_pool2d_outcome,
};
use crate::kernels::reduce::{
    layer_norm, layer_norm_grad_b, layer_norm_grad_b_outcome, layer_norm_grad_w,
    layer_norm_grad_w_outcome, layer_norm_grad_x, layer_norm_grad_x_outcome, layer_norm_outcome,
    rms_norm, rms_norm_outcome, softmax, softmax_grad, softmax_grad_outcome, softmax_outcome,
    sum_all, sum_all_outcome, sum_dim, sum_dim_outcome,
};
use crate::op::{Op, OpOf, OpView};
use crate::sym::{
    fails, misfit, misfit_error, operand_views, operands_wf, realized, Outcome,
};
use crate::tensor::{Tensor, TensorView};
use vstd::prelude::*;

verus! {


/// What an operation element by element comes to.
#[verifier::opaque]
pub open spec fn elementwise_op_outcome(op: OpView, xs: Seq<TensorView>) -> Outcome {
    match op {
        OpOf::Relu => if xs.len() != 1 {
            fails("Relu requires exactly 1 input"@)
        } else {
            unary_outcome(Unary::Relu, xs[0])
        },
        OpOf::Add => if xs.len() != 2 {
            fails("Add requires exactly 2 inputs"@)
        } else {
            binary_outcome(Binary::Add, xs[0], xs[1])
        },
        OpOf::Sub => if xs.len() != 2 {
            fails("Sub requires exactly 2 inputs"@)
        } else {
            binary_outcome(Binary::Sub, xs[0], xs[1])
        },
        OpOf::Mul => if xs.len() != 2 {
            fails("Mul requires exactly 2 inputs"@)
        } else {
            binary_outcome(Binary::Mul, xs[0], xs[1])
        },
        OpOf::Div => if xs.len() != 2 {
            fails("Div requires exactly 2 inputs"@)
        } else {
            binary_outcome(Binary::Div, xs[0], xs[1])
        },
        OpOf::Tanh => if xs.len() != 1 {
            fails("Tanh requires exactly 1 input"@)
        } else {
            unary_outcome(Unary::Tanh, xs[0])
        },
        OpOf::Sigmoid => if xs.len() != 1 {
            fails("Sigmoid requires exactly 1 input"@)
        } else {
            unary_outcome(Unary::Sigmoid, xs[0])
        },
        OpOf::Exp => if xs.len() != 1 {
            fails("Exp requires exactly 1 input"@)
        } else {
            unary_outcome(Unary::Exp, xs[0])
        },
        OpOf::Sqrt => if xs.len() != 1 {
            fails("Sqrt requires exactly 1 input"@)
        } else {
            unary_outcome(Unary::Sqrt, xs[0])
        },
        OpOf::Neg => if xs.len() != 1 {
            fails("Neg requires exactly 1 input"@)
        } else {
            unary_outcome(Unary::Neg, xs[0])
        },
        OpOf::BroadcastAdd { .. } => if xs.len() != 2 {
            fails("BroadcastAdd requires exactly 2 inputs"@)
        } else {
            broadcast_outcome(Binary::Add, xs[0], xs[1])
        },
        OpOf::BroadcastMul { .. } => if xs.len() != 2 {
            fails("BroadcastMul requires exactly 2 inputs"@)
        } else {
            broadcast_outcome(Binary::Mul, xs[0], xs[1])
        },
        OpOf::BroadcastSub { .. } => if xs.len() != 2 {
            fails("BroadcastSub requires exactly 2 inputs"@)
        } else {
            broadcast_outcome(Binary::Sub, xs[0], xs[1])
        },
        OpOf::BroadcastDiv { .. } => if xs.len() != 2 {
            fails("BroadcastDiv requires exactly 2 inputs"@)
        } else {
            broadcast_outcome(Binary::Div, xs[0], xs[1])
        },
        OpOf::Step => if xs.len() != 1 {
            fails("Step requires exactly 1 input"@)
        } else {
            unary_outcome(Unary::Step, xs[0])
        },
        _ => misfit(),
    }
}

/// Computes an operation element by element.
#[verifier::rlimit(40)]
fn run_elementwise_op<F: Float>(f: &F, op: &Op, inputs: &[&Tensor]) -> (r: Result<Tensor, Error>)
    requires
        operands_wf(inputs@),
    ensures
        realized(*f, elementwise_op_outcome(op@, operand_views(inputs@)), r),
        r matches Ok(t) ==> t.wf(),
{
    reveal(elementwise_op_outcome);
    match op {
        OpOf::Relu => {
            if inputs.len() != 1 {
                return Err(execution_error("Relu requires exactly 1 input"));
            }
            unary(f, Unary::Relu, inputs[0])
        },
        OpOf::Add => {
            if inputs.len() != 2 {
                return Err(execution_error("Add requires exactly 2 inputs"));
            }
            binary(f, Binary::Add, inputs[0], inputs[1])
        },
        OpOf::Sub => {
            if inputs.len() != 2 {
                return Err(execution_error("Sub requires exactly 2 inputs"));
            }
            binary(f, Binary::Sub, inputs[0], inputs[1])
        },
        OpOf::Mul => {
            if inputs.len() != 2 {
                return Err(execution_error("Mul requires exactly 2 inputs"));
            }
            binary(f, Binary::Mul, inputs[0], inputs[1])
        },
        OpOf::Div => {
            if inputs.len() != 2 {
                return Err(execution_error("Div requires exactly 2 inputs"));
            }
            binary(f, Binary::Div, inputs[0], inputs[1])
        },
        OpOf::Tanh => {
            if inputs.len() != 1 {
                return Err(execution_error("Tanh requires exactly 1 input"));
            }
            unary(f, Unary::Tanh, inputs[0])
        },
        OpOf::Sigmoid => {
            if inputs.len() != 1 {
                return Err(execution_error("Sigmoid requires exactly 1 input"));
            }
            unary(f, Unary::Sigmoid, inputs[0])
        },
        OpOf::Exp => {
            if inputs.len() != 1 {
                return Err(execution_error("Exp requires exactly 1 input"));
            }
            unary(f, Unary::Exp, inputs[0])
        },
        OpOf::Sqrt => {
            if inputs.len() != 1 {
                return Err(execution_error("Sqrt requires exactly 1 input"));
            }
            unary(f, Unary::Sqrt, inputs[0])
        },
        OpOf::Neg => {
            if inputs.len() != 1 {
                return Err(execution_error("Neg requires exactly 1 input"));
            }
            unary(f, Unary::Neg, inputs[0])
        },
        OpOf::BroadcastAdd { .. } => {
            if inputs.len() != 2 {
                return Err(execution_error("BroadcastAdd requires exactly 2 inputs"));
            }
            broadcast_binary(f, Binary::Add, inputs[0], inputs[1])
        },
        OpOf::BroadcastMul { .. } => {
            if inputs.len() != 2 {
                return Err(execution_error("BroadcastMul requires exactly 2 inputs"));
            }
            broadcast_binary(f, Binary::Mul, inputs[0], inputs[1])
        },
        OpOf::BroadcastSub { .. } => {
            if inputs.len() != 2 {
                return Err(execution_error("BroadcastSub requires exactly 2 inputs"));
            }
            broadcast_binary(f, Binary::Sub, inputs[0], inputs[1])
        },
        OpOf::BroadcastDiv { .. } => {
            if inputs.len() != 2 {
                return Err(execution_error("BroadcastDiv requires exactly 2 inputs"));
            }
            broadcast_binary(f, Binary::Div, inputs[0], inputs[1])
        },
        OpOf::Step => {
            if inputs.len() != 1 {
                return Err(execution_error("Step requires exactly 1 input"));
            }
            unary(f, Unary::Step, inputs[0])
        },
        _ => Err(misfit_error()),
    }
}

/// What an operation on matrices and on the places of elements comes to.
#[verifier::opaque]
pub open spec fn matrix_op_outcome(op: OpView, xs: Seq<TensorView>) -> Outcome {
    match op {
        OpOf::MatMul => if xs.len() != 2 {
            fails("MatMul requires exactly 2 inputs"@)
        } else {
            matmul_outcome(xs[0], xs[1])
        },
        OpOf::Transpose => if xs.len() != 1 {
            fails("Transpose requires exactly 1 input"@)
        } else {
            transpose_outcome(xs[0])
        },
        OpOf::Reshape { shape } => if xs.len() != 1 {
            fails("Reshape requires exactly 1 input"@)
        } else {
            reshape_outcome(xs[0], shape)
        },
        OpOf::Concat { axis } => concat_outcome(xs, axis),
        OpOf::Slice { axis, start, end } => if xs.len() != 1 {
            fails("Slice requires exactly 1 input"@)
        } else {
            slice_outcome(xs[0], axis, start, end)
        },
        OpOf::SliceGrad { axis, start, .. } => if xs.len() != 2 {
            fails("SliceGrad requires exactly 2 inputs: x, dy"@)
        } else {
            slice_grad_outcome(xs[0], xs[1], axis, start)
        },
        OpOf::BatchedMatMul => if xs.len() != 2 {
            fails("BatchedMatMul requires exactly 2 inputs"@)
        } else {
            batched_matmul_outcome(xs[0], xs[1])
        },
        OpOf::BatchedTranspose => if xs.len() != 1 {
            fails("BatchedTranspose requires exactly 1 input"@)
        } else {
            batched_transpose_outcome(xs[0])
        },
        _ => misfit(),
    }
}

/// Computes an operation on matrices and on the places of elements.
#[verifier::rlimit(40)]
fn run_matrix_op<F: Float>(f: &F, op: &Op, inputs: &[&Tensor]) -> (r: Result<Tensor, Error>)
    requires
        operands_wf(inputs@),
    ensures
        realized(*f, matrix_op_outcome(op@, operand_views(inputs@)), r),
        r matches Ok(t) ==> t.wf(),
{
    reveal(matrix_op_outcome);
    match op {
        OpOf::MatMul => {
            if inputs.len() != 2 {
                return Err(execution_error("MatMul requires exactly 2 inputs"));
            }
            matmul(f, inputs[0], inputs[1])
        },
        OpOf::Transpose => {
            if inputs.len() != 1 {
                return Err(execution_error("Transpose requires exactly 1 input"));
            }
            transpose(f, inputs[0])
        },
        OpOf::Reshape { shape } => {
            if inputs.len() != 1 {
                return Err(execution_error("Reshape requires exactly 1 input"));
            }
            reshape(f, inputs[0], shape)
        },
        OpOf::Concat { axis } => concat(f, inputs, *axis),
        OpOf::Slice { axis, start, end } => {
            if inputs.len() != 1 {
                return Err(execution_error("Slice requires exactly 1 input"));
            }
            slice(f, inputs[0], *axis, *start, *end)
        },
        OpOf::SliceGrad { axis, start, .. } => {
            if inputs.len() != 2 {
                return Err(execution_error("SliceGrad requires exactly 2 inputs: x, dy"));
            }
            slice_grad(f, inputs[0], inputs[1], *axis, *start)
        },
        OpOf::BatchedMatMul => {
            if inputs.len() != 2 {
                return Err(execution_error("BatchedMatMul requires exactly 2 inputs"));
            }
            batched_matmul(f, inputs[0], inputs[1])
        },
        OpOf::BatchedTranspose => {
            if inputs.len() != 1 {
                return Err(execution_error("BatchedTranspose requires exactly 1 input"));
            }
            batched_transpose(f, inputs[0])
        },
        _ => Err(misfit_error()),
    }
}

/// What an operation on rows comes to.
#[verifier::opaque]
pub open spec fn row_op_outcome(op: OpView, xs: Seq<TensorView>) -> Outcome {
    match op {
        OpOf::SumAll => if xs.len() != 1 {
            fails("SumAll requires exactly 1 input"@)
        } else {
            sum_all_outcome(xs[0])
        },
        OpOf::SumDim { axis } => if xs.len() != 1 {
            fails("SumDim requires exactly 1 input"@)
        } else {
            sum_dim_outcome(xs[0], axis)
        },
        OpOf::Softmax => if xs.len() != 1 {
            fails("Softmax requires exactly 1 input"@)
        } else {
            softmax_outcome(xs[0])
        },
        OpOf::SoftmaxGrad => if xs.len() != 2 {
            fails("SoftmaxGrad requires exactly 2 inputs (softmax_x, d_out)"@)
        } else {
            softmax_grad_outcome(xs[0], xs[1])
        },
        OpOf::LayerNorm { epsilon } => if xs.len() != 3 {
            fails("LayerNorm requires exactly 3 inputs: x, weight, bias"@)
        } else {
            layer_norm_outcome(xs[0], xs[1], xs[2], epsilon)
        },
        OpOf::RmsNorm { epsilon } => if xs.len() != 2 {
            fails("RMSNorm requires exactly 2 inputs: x, weight"@)
        } else {
            rms_norm_outcome(xs[0], xs[1], epsilon)
        },
        OpOf::LayerNormGradX { epsilon } => if xs.len() != 3 {
            fails("LayerNormGradX requires exactly 3 inputs: x, weight, dy"@)
        } else {
            layer_norm_grad_x_outcome(xs[0], xs[1], xs[2], epsilon)
        },
        OpOf::LayerNormGradW { epsilon } => if xs.len() != 2 {
            fails("LayerNormGradW requires exactly 2 inputs: x, dy"@)
        } else {
            layer_norm_grad_w_outcome(xs[0], xs[1], epsilon)
        },
        OpOf::LayerNormGradB => if xs.len() != 1 {
            fails("LayerNormGradB requires exactly 1 input: dy"@)
        } else {
            layer_norm_grad_b_outcome(xs[0])
        },
        _ => misfit(),
    }
}

/// Computes an operation on rows.
#[verifier::rlimit(40)]
fn run_row_op<F: Float>(f: &F, op: &Op, inputs: &[&Tensor]) -> (r: Result<Tensor, Error>)
    requires
        operands_wf(inputs@),
    ensures
        realized(*f, row_op_outcome(op@, operand_views(inputs@)), r),
        r matches Ok(t) ==> t.wf(),
{
    reveal(row_op_outcome);
    match op {
        OpOf::SumAll => {
            if inputs.len() != 1 {
                return Err(execution_error("SumAll requires exactly 1 input"));
            }
            sum_all(f, inputs[0])
        },
        OpOf::SumDim { axis } => {
            if inputs.len() != 1 {
                return Err(execution_error("SumDim requires exactly 1 input"));
            }
            sum_dim(f, inputs[0], *axis)
        },
        OpOf::Softmax => {
            if inputs.len() != 1 {
                return Err(execution_error("Softmax requires exactly 1 input"));
            }
            softmax(f, inputs[0])
        },
        OpOf::SoftmaxGrad => {
            if inputs.len() != 2 {
                return Err(execution_error("SoftmaxGrad requires exactly 2 inputs (softmax_x, d_out)"));
            }
            softmax_grad(f, inputs[0], inputs[1])
        },
        OpOf::LayerNorm { epsilon } => {
            if inputs.len() != 3 {
                return Err(execution_error("LayerNorm requires exactly 3 inputs: x, weight, bias"));
            }
            layer_norm(f, inputs[0], inputs[1], inputs[2], *epsilon)
        },
        OpOf::RmsNorm { epsilon } => {
            if inputs.len() != 2 {
                return Err(execution_error("RMSNorm requires exactly 2 inputs: x, weight"));
            }
            rms_norm(f, inputs[0], inputs[1], *epsilon)
        },
        OpOf::LayerNormGradX { epsilon } => {
            if inputs.len() != 3 {
                return Err(execution_error("LayerNormGradX requires exactly 3 inputs: x, weight, dy"));
            }
            layer_norm_grad_x(f, inputs[0], inputs[1], inputs[2], *epsilon)
        },
        OpOf::LayerNormGradW { epsilon } => {
            if inputs.len() != 2 {
                return Err(execution_error("LayerNormGradW requires exactly 2 inputs: x, dy"));
            }
            layer_norm_grad_w(f, inputs[0], inputs[1], *epsilon)
        },
        OpOf::LayerNormGradB => {
            if inputs.len() != 1 {
                return Err(execution_error("LayerNormGradB requires exactly 1 input: dy"));
            }
            layer_norm_grad_b(f, inputs[0])
        },
        _ => Err(misfit_error()),
    }
}

/// What an operation on windows comes to.
#[verifier::opaque]
pub open spec fn window_op_outcome(op: OpView, xs: Seq<TensorView>) -> Outcome {
    match op {
        OpOf::Conv2d { stride, padding } => if xs.len() == 2 {
            conv2d_outcome(xs[0], xs[1], None, stride, padding)
        } else if xs.len() == 3 {
            conv2d_outcome(xs[0], xs[1], Some(xs[2]), stride, padding)
        } else {
            fails("Conv2d requires 2 or 3 inputs (x, weight, bias)"@)
        },
        OpOf::Conv2dGradX { stride, padding } => if xs.len() != 3 {
            fails("Conv2dGradX requires exactly 3 inputs: x, weight, dy"@)
        } else {
            conv2d_grad_x_outcome(xs[0], xs[1], xs[2], stride, padding)
        },
        OpOf::Conv2dGradW { stride, padding } => if xs.len() != 3 {
            fails("Conv2dGradW requires exactly 3 inputs: x, weight, dy"@)
        } else {
            conv2d_grad_w_outcome(xs[0], xs[1], xs[2], stride, padding)
        },
        OpOf::Conv2dGradB => if xs.len() != 1 {
            fails("Conv2dGradB requires exactly 1 input: dy"@)
        } else {
            conv2d_grad_b_outcome(xs[0])
        },
        OpOf::MaxPool2d { pool_size, stride, padding } => if xs.len() != 1 {
            fails("MaxPool2d requires exactly 1 input"@)
        } else {
            max_pool2d_outcome(xs[0], pool_size, stride, padding)
        },
        OpOf::MaxPool2dGrad { pool_size, stride, padding } => if xs.len() != 2 {
            fails("MaxPool2dGrad requires exactly 2 inputs: dy, x"@)
        } else {
            max_pool2d_grad_outcome(xs[0], xs[1], pool_size, stride, padding)
        },
        OpOf::AvgPool2d { pool_size, stride, padding } => if xs.len() != 1 {
            fails("AvgPool2d requires exactly 1 input"@)
        } else {
            avg_pool2d_outcome(xs[0], pool_size, stride, padding)
        },
        OpOf::AvgPool2dGrad { pool_size, stride, padding } => if xs.len() != 2 {
            fails("AvgPool2dGrad requires exactly 2 inputs: dy, x"@)
        } else {
            avg_pool2d_grad_outcome(xs[0], xs[1], pool_size, stride, padding)
        },
        _ => misfit(),
    }
}

/// Computes an operation on windows.
#[verifier::rlimit(40)]
fn run_window_op<F: Float>(f: &F, op: &Op, inputs: &[&Tensor]) -> (r: Result<Tensor, Error>)
    requires
        operands_wf(inputs@),
    ensures
        realized(*f, window_op_outcome(op@, operand_views(inputs@)), r),
        r matches Ok(t) ==> t.wf(),
{
    reveal(window_op_outcome);
    match op {
        OpOf::Conv2d { stride, padding } => {
            if inputs.len() == 2 {
                conv2d(f, inputs[0], inputs[1], None, *stride, *padding)
            } else if inputs.len() == 3 {
                conv2d(f, inputs[0], inputs[1], Some(inputs[2]), *stride, *padding)
            } else {
                Err(execution_error("Conv2d requires 2 or 3 inputs (x, weight, bias)"))
            }
        },
        OpOf::Conv2dGradX { stride, padding } => {
            if inputs.len() != 3 {
                return Err(execution_error("Conv2dGradX requires exactly 3 inputs: x, weight, dy"));
            }
            conv2d_grad_x(f, inputs[0], inputs[1], inputs[2], *stride, *padding)
        },
        OpOf::Conv2dGradW { stride, padding } => {
            if inputs.len() != 3 {
                return Err(execution_error("Conv2dGradW requires exactly 3 inputs: x, weight, dy"));
            }
            conv2d_grad_w(f, inputs[0], inputs[1], inputs[2], *stride, *padding)
        },
        OpOf::Conv2dGradB => {
            if inputs.len() != 1 {
                return Err(execution_error("Conv2dGradB requires exactly 1 input: dy"));
            }
            conv2d_grad_b(f, inputs[0])
        },
        OpOf::MaxPool2d { pool_size, stride, padding } => {
            if inputs.len() != 1 {
                return Err(execution_error("MaxPool2d requires exactly 1 input"));
            }
            max_pool2d(f, inputs[0], *pool_size, *stride, *padding)
        },
        OpOf::MaxPool2dGrad { pool_size, stride, padding } => {
            if inputs.len() != 2 {
                return Err(execution_error("MaxPool2dGrad requires exactly 2 inputs: dy, x"));
            }
            max_pool2d_grad(f, inputs[0], inputs[1], *pool_size, *stride, *padding)
        },
        OpOf::AvgPool2d { pool_size, stride, padding } => {
            if inputs.len() != 1 {
                return Err(execution_error("AvgPool2d requires exactly 1 input"));
            }
            avg_pool2d(f, inputs[0], *pool_size, *stride, *padding)
        },
        OpOf::AvgPool2dGrad { pool_size, stride, padding } => {
            if inputs.len() != 2 {
                return Err(execution_error("AvgPool2dGrad requires exactly 2 inputs: dy, x"));
            }
            avg_pool2d_grad(f, inputs[0], inputs[1], *pool_size, *stride, *padding)
        },
        _ => Err(misfit_error()),
    }
}

/// What an operation of attention comes to.
#[verifier::opaque]
pub open spec fn attention_op_outcome(op: OpView, xs: Seq<TensorView>) -> Outcome {
    match op {
        OpOf::Attention { scale } => if xs.len() != 3 {
            fails("Attention requires exactly 3 inputs: Q, K, V"@)
        } else {
            attention_forward_outcome(xs[0], xs[1], xs[2], scale)
        },
        OpOf::AttentionGradQ { scale } => if xs.len() < 4 {
            misfit()
        } else {
            attention_outcome(AttentionPart::GradQ, xs[0], xs[1], xs[2], xs[3], scale)
        },
        OpOf::AttentionGradK { scale } => if xs.len() < 4 {
            misfit()
        } else {
            attention_outcome(AttentionPart::GradK, xs[0], xs[1], xs[2], xs[3], scale)
        },
        OpOf::AttentionGradV { scale } => if xs.len() < 4 {
            misfit()
        } else {
            attention_outcome(AttentionPart::GradV, xs[0], xs[1], xs[2], xs[3], scale)
        },
        OpOf::CausalAttention { scale, num_heads } => if xs.len() != 3 {
            fails("CausalAttention requires exactly 3 inputs: Q, K, V"@)
        } else {
            causal_attention_outcome(xs[0], xs[1], xs[2], scale, num_heads)
        },
        OpOf::MultiHeadAttention { scale, num_heads } => if xs.len() != 3 {
            fails("MultiHeadAttention requires exactly 3 inputs: Q, K, V"@)
        } else {
            multi_head_attention_outcome(xs[0], xs[1], xs[2], scale, num_heads)
        },
        OpOf::FlashAttention { scale, causal } => if xs.len() != 3 {
            fails("FlashAttention requires exactly 3 inputs: Q, K, V"@)
        } else {
            flash_attention_outcome(xs[0], xs[1], xs[2], scale, causal)
        },
        _ => misfit(),
    }
}

/// Computes an operation of attention.
#[verifier::rlimit(40)]
fn run_attention_op<F: Float>(f: &F, op: &Op, inputs: &[&Tensor]) -> (r: Result<Tensor, Error>)
    requires
        operands_wf(inputs@),
    ensures
        realized(*f, attention_op_outcome(op@, operand_views(inputs@)), r),
        r matches Ok(t) ==> t.wf(),
{
    reveal(attention_op_outcome);
    match op {
        OpOf::Attention { scale } => {
            if inputs.len() != 3 {
                return Err(execution_error("Attention requires exactly 3 inputs: Q, K, V"));
            }
            attention(f, inputs[0], inputs[1], inputs[2], *scale)
        },
        OpOf::AttentionGradQ { scale } => {
            if inputs.len() < 4 {
                return Err(misfit_error());
            }
            let part = AttentionPart::GradQ;
            attention_part(f, part, inputs[0], inputs[1], inputs[2], inputs[3], *scale)
        },
        OpOf::AttentionGradK { scale } => {
            if inputs.len() < 4 {
                return Err(misfit_error());
            }
            let part = AttentionPart::GradK;
            attention_part(f, part, inputs[0], inputs[1], inputs[2], inputs[3], *scale)
        },
        OpOf::AttentionGradV { scale } => {
            if inputs.len() < 4 {
                return Err(misfit_error());
            }
            let part = AttentionPart::GradV;
            attention_part(f, part, inputs[0], inputs[1], inputs[2], inputs[3], *scale)
        },
        OpOf::CausalAttention { scale, num_heads } => {
            if inputs.len() != 3 {
                return Err(execution_error("CausalAttention requires exactly 3 inputs: Q, K, V"));
            }
            causal_attention(f, inputs[0], inputs[1], inputs[2], *scale, *num_heads)
        },
        OpOf::MultiHeadAttention { scale, num_heads } => {
            if inputs.len() != 3 {
                return Err(execution_error("MultiHeadAttention requires exactly 3 inputs: Q, K, V"));
            }
            multi_head_attention(f, inputs[0], inputs[1], inputs[2], *scale, *num_heads)
        },
        OpOf::FlashAttention { scale, causal } => {
            if inputs.len() != 3 {
                return Err(execution_error("FlashAttention requires exactly 3 inputs: Q, K, V"));
            }
            flash_attention(f, inputs[0], inputs[1], inputs[2], *scale, *causal)
        },
        _ => Err(misfit_error()),
    }
}

/// What an operation that convert elements comes to.
#[verifier::opaque]
pub open spec fn cast_op_outcome(op: OpView, xs: Seq<TensorView>) -> Outcome {
    match op {
        OpOf::CastF32ToF16 => if xs.len() != 1 {
            fails("CastF32ToF16 requires exactly 1 input"@)
        } else {
            to_f16_outcome(xs[0])
        },
        OpOf::CastF16ToF32 => if xs.len() != 1 {
            fails("CastF16ToF32 requires exactly 1 input"@)
        } else {
            from_f16_outcome(xs[0])
        },
        OpOf::CastF32ToBF16 => if xs.len() != 1 {
            fails("CastF32ToBF16 requires exactly 1 input"@)
        } else {
            to_bf16_outcome(xs[0])
        },
        OpOf::CastBF16ToF32 => if xs.len() != 1 {
            fails("CastBF16ToF32 requires exactly 1 input"@)
        } else {
            from_bf16_outcome(xs[0])
        },
        _ => misfit(),
    }
}

/// Computes an operation that convert elements.
#[verifier::rlimit(40)]
fn run_cast_op<F: Float>(f: &F, op: &Op, inputs: &[&Tensor]) -> (r: Result<Tensor, Error>)
    requires
        operands_wf(inputs@),
    ensures
        realized(*f, cast_op_outcome(op@, operand_views(inputs@)), r),
        r matches Ok(t) ==> t.wf(),
{
    reveal(cast_op_outcome);
    match op {
        OpOf::CastF32ToF16 => {
            if inputs.len() != 1 {
                return Err(execution_error("CastF32ToF16 requires exactly 1 input"));
            }
            to_f16(f, inputs[0])
        },
        OpOf::CastF16ToF32 => {
            if inputs.len() != 1 {
                return Err(execution_error("CastF16ToF32 requires exactly 1 input"));
            }
            from_f16(f, inputs[0])
        },
        OpOf::CastF32ToBF16 => {
            if inputs.len() != 1 {
                return Err(execution_error("CastF32ToBF16 requires exactly 1 input"));
            }
            to_bf16(f, inputs[0])
        },
        OpOf::CastBF16ToF32 => {
            if inputs.len() != 1 {
                return Err(execution_error("CastBF16ToF32 requires exactly 1 input"));
            }
            from_bf16(f, inputs[0])
        },
        _ => Err(misfit_error()),
    }
}

/// What an operation on the given operands comes to.
pub open spec fn op_outcome(op: OpView, xs: Seq<TensorView>) -> Outcome {
    match op {
        OpOf::Input(t) => Outcome::Copies(t),
        OpOf::Relu
        | OpOf::Add
        | OpOf::Sub
        | OpOf::Mul
        | OpOf::Div
        | OpOf::Tanh
        | OpOf::Sigmoid
        | OpOf::Exp
        | OpOf::Sqrt
        | OpOf::Neg
        | OpOf::BroadcastAdd { .. }
        | OpOf::BroadcastMul { .. }
        | OpOf::BroadcastSub { .. }
        | OpOf::BroadcastDiv { .. }
        | OpOf::Step => elementwise_op_outcome(op, xs),
        OpOf::MatMul
        | OpOf::Transpose
        | OpOf::Reshape { .. }
        | OpOf::Concat { .. }
        | OpOf::Slice { .. }
        | OpOf::SliceGrad { .. }
        | OpOf::BatchedMatMul
        | OpOf::BatchedTranspose => matrix_op_outcome(op, xs),
        OpOf::SumAll
        | OpOf::SumDim { .. }
        | OpOf::Softmax
        | OpOf::SoftmaxGrad
        | OpOf::LayerNorm { .. }
        | OpOf::RmsNorm { .. }
        | OpOf::LayerNormGradX { .. }
        | OpOf::LayerNormGradW { .. }
        | OpOf::LayerNormGradB => row_op_outcome(op, xs),
        OpOf::Conv2d { .. }
        | OpOf::Conv2dGradX { .. }
        | OpOf::Conv2dGradW { .. }
        | OpOf::Conv2dGradB
        | OpOf::MaxPool2d { .. }
        | OpOf::MaxPool2dGrad { .. }
        | OpOf::AvgPool2d { .. }
        | OpOf::AvgPool2dGrad { .. } => window_op_outcome(op, xs),
        OpOf::Attention { .. }
        | OpOf::AttentionGradQ { .. }
        | OpOf::AttentionGradK { .. }
        | OpOf::AttentionGradV { .. }
        | OpOf::CausalAttention { .. }
        | OpOf::MultiHeadAttention { .. }
        | OpOf::FlashAttention { .. } => attention_op_outcome(op, xs),
        OpOf::CastF32ToF16
        | OpOf::CastF16ToF32
        | OpOf::CastF32ToBF16
        | OpOf::CastBF16ToF32 => cast_op_outcome(op, xs),
    }
}

/// Only a constant is handed on as it is.
pub proof fn lemma_only_constants_are_copied(op: OpView, xs: Seq<TensorView>)
    requires
        !(op is Input),
    ensures
        !(op_outcome(op, xs) is Copies),
{
    reveal(elementwise_op_outcome);
    reveal(matrix_op_outcome);
    reveal(row_op_outcome);
    reveal(window_op_outcome);
    reveal(attention_op_outcome);
    reveal(cast_op_outcome);
}

/// An operation that is not a constant needs operands.
pub proof fn lemma_operands_are_needed(op: OpView)
    requires
        !(op is Input),
    ensures
        op_outcome(op, Seq::empty()) is Fails,
{
    reveal(elementwise_op_outcome);
    reveal(matrix_op_outcome);
    reveal(row_op_outcome);
    reveal(window_op_outcome);
    reveal(attention_op_outcome);
    reveal(cast_op_outcome);
}

/// Computes an operation.
pub fn run_op<F: Float>(f: &F, op: &Op, inputs: &[&Tensor]) -> (r: Result<Tensor, Error>)
    requires
        op.wf(),
        operands_wf(inputs@),
    ensures
        realized(*f, op_outcome(op@, operand_views(inputs@)), r),
        r matches Ok(t) ==> t.wf(),
{
    match op {
        OpOf::Input(t) => Ok(t.copy()),
        OpOf::Relu
        | OpOf::Add
        | OpOf::Sub
        | OpOf::Mul
        | OpOf::Div
        | OpOf::Tanh
        | OpOf::Sigmoid
        | OpOf::Exp
        | OpOf::Sqrt
        | OpOf::Neg
        | OpOf::BroadcastAdd { .. }
        | OpOf::BroadcastMul { .. }
        | OpOf::BroadcastSub { .. }
        | OpOf::BroadcastDiv { .. }
        | OpOf::Step => run_elementwise_op(f, op, inputs),
        OpOf::MatMul
        | OpOf::Transpose
        | OpOf::Reshape { .. }
        | OpOf::Concat { .. }
        | OpOf::Slice { .. }
        | OpOf::SliceGrad { .. }
        | OpOf::BatchedMatMul
        | OpOf::BatchedTranspose => run_matrix_op(f, op, inputs),
        OpOf::SumAll
        | OpOf::SumDim { .. }
        | OpOf::Softmax
        | OpOf::SoftmaxGrad
        | OpOf::LayerNorm { .. }
        | OpOf::RmsNorm { .. }
        | OpOf::LayerNormGradX { .. }
        | OpOf::LayerNormGradW { .. }
        | OpOf::LayerNormGradB => run_row_op(f, op, inputs),
        OpOf::Conv2d { .. }
        | OpOf::Conv2dGradX { .. }
        | OpOf::Conv2dGradW { .. }
        | OpOf::Conv2dGradB
        | OpOf::MaxPool2d { .. }
        | OpOf::MaxPool2dGrad { .. }
        | OpOf::AvgPool2d { .. }
        | OpOf::AvgPool2dGrad { .. } => run_window_op(f, op, inputs),
        OpOf::Attention { .. }
        | OpOf::AttentionGradQ { .. }
        | OpOf::AttentionGradK { .. }
        | OpOf::AttentionGradV { .. }
        | OpOf::CausalAttention { .. }
        | OpOf::MultiHeadAttention { .. }
        | OpOf::FlashAttention { .. } => run_attention_op(f, op, inputs),
        OpOf::CastF32ToF16
        | OpOf::CastF16ToF32
        | OpOf::CastF32ToBF16
        | OpOf::CastBF16ToF32 => run_cast_op(f, op, inputs),
    }
}

} // verus!
