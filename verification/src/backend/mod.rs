//! Backends: what computes the operations of a graph.

use crate::error::Error;
use crate::op::{shape_views, Op, OpOf, OpView};
use crate::shape::Shape;
use crate::sym::{operand_views, operands_wf};
use crate::tensor::{Tensor, TensorView};
use vstd::prelude::*;

pub mod cpu;
pub mod cuda;
pub mod dispatch;
pub mod slices;

verus! {

/// What computes operations. Every operation has a method of its own, which
/// hands the operation to [`Backend::execute`] unless a backend does better.
pub trait Backend {
    /// `execute` may return `r` for the operation on the given operands. A
    /// backend that does not say what it computes may return anything.
    open spec fn runs(&self, op: OpView, inputs: Seq<TensorView>, r: Result<Tensor, Error>) -> bool {
        true
    }

    /// Computes one operation.
    fn execute(&self, op: &Op, inputs: &[&Tensor]) -> (r: Result<Tensor, Error>)
        requires
            op.wf(),
            operands_wf(inputs@),
        ensures
            self.runs(op@, operand_views(inputs@), r),
            r matches Ok(t) ==> t.wf(),
    ;

    /// The positive part of every element.
    fn relu(&self, x: &Tensor) -> (r: Result<Tensor, Error>)
        requires
            x.wf(),
        ensures
            self.runs(OpOf::Relu, seq![x@], r),
            r matches Ok(t) ==> t.wf(),
    {
        let inputs: [&Tensor; 1] = [x];
        proof {
            assert(operand_views(inputs@) =~= seq![x@]);
        }
        self.execute(&OpOf::Relu, inputs.as_slice())
    }

    /// The hyperbolic tangent of every element.
    fn tanh(&self, x: &Tensor) -> (r: Result<Tensor, Error>)
        requires
            x.wf(),
        ensures
            self.runs(OpOf::Tanh, seq![x@], r),
            r matches Ok(t) ==> t.wf(),
    {
        let inputs: [&Tensor; 1] = [x];
        proof {
            assert(operand_views(inputs@) =~= seq![x@]);
        }
        self.execute(&OpOf::Tanh, inputs.as_slice())
    }

    /// The logistic function of every element.
    fn sigmoid(&self, x: &Tensor) -> (r: Result<Tensor, Error>)
        requires
            x.wf(),
        ensures
            self.runs(OpOf::Sigmoid, seq![x@], r),
            r matches Ok(t) ==> t.wf(),
    {
        let inputs: [&Tensor; 1] = [x];
        proof {
            assert(operand_views(inputs@) =~= seq![x@]);
        }
        self.execute(&OpOf::Sigmoid, inputs.as_slice())
    }

    /// The exponential of every element.
    fn exp(&self, x: &Tensor) -> (r: Result<Tensor, Error>)
        requires
            x.wf(),
        ensures
            self.runs(OpOf::Exp, seq![x@], r),
            r matches Ok(t) ==> t.wf(),
    {
        let inputs: [&Tensor; 1] = [x];
        proof {
            assert(operand_views(inputs@) =~= seq![x@]);
        }
        self.execute(&OpOf::Exp, inputs.as_slice())
    }

    /// The square root of every element.
    fn sqrt(&self, x: &Tensor) -> (r: Result<Tensor, Error>)
        requires
            x.wf(),
        ensures
            self.runs(OpOf::Sqrt, seq![x@], r),
            r matches Ok(t) ==> t.wf(),
    {
        let inputs: [&Tensor; 1] = [x];
        proof {
            assert(operand_views(inputs@) =~= seq![x@]);
        }
        self.execute(&OpOf::Sqrt, inputs.as_slice())
    }

    /// Every element with the opposite sign.
    fn neg(&self, x: &Tensor) -> (r: Result<Tensor, Error>)
        requires
            x.wf(),
        ensures
            self.runs(OpOf::Neg, seq![x@], r),
            r matches Ok(t) ==> t.wf(),
    {
        let inputs: [&Tensor; 1] = [x];
        proof {
            assert(operand_views(inputs@) =~= seq![x@]);
        }
        self.execute(&OpOf::Neg, inputs.as_slice())
    }

    /// The sums of the elements.
    fn add(&self, a: &Tensor, b: &Tensor) -> (r: Result<Tensor, Error>)
        requires
            a.wf(),
            b.wf(),
        ensures
            self.runs(OpOf::Add, seq![a@, b@], r),
            r matches Ok(t) ==> t.wf(),
    {
        let inputs: [&Tensor; 2] = [a, b];
        proof {
            assert(operand_views(inputs@) =~= seq![a@, b@]);
        }
        self.execute(&OpOf::Add, inputs.as_slice())
    }

    /// The differences of the elements.
    fn sub(&self, a: &Tensor, b: &Tensor) -> (r: Result<Tensor, Error>)
        requires
            a.wf(),
            b.wf(),
        ensures
            self.runs(OpOf::Sub, seq![a@, b@], r),
            r matches Ok(t) ==> t.wf(),
    {
        let inputs: [&Tensor; 2] = [a, b];
        proof {
            assert(operand_views(inputs@) =~= seq![a@, b@]);
        }
        self.execute(&OpOf::Sub, inputs.as_slice())
    }

    /// The products of the elements.
    fn mul(&self, a: &Tensor, b: &Tensor) -> (r: Result<Tensor, Error>)
        requires
            a.wf(),
            b.wf(),
        ensures
            self.runs(OpOf::Mul, seq![a@, b@], r),
            r matches Ok(t) ==> t.wf(),
    {
        let inputs: [&Tensor; 2] = [a, b];
        proof {
            assert(operand_views(inputs@) =~= seq![a@, b@]);
        }
        self.execute(&OpOf::Mul, inputs.as_slice())
    }

    /// The quotients of the elements.
    fn div(&self, a: &Tensor, b: &Tensor) -> (r: Result<Tensor, Error>)
        requires
            a.wf(),
            b.wf(),
        ensures
            self.runs(OpOf::Div, seq![a@, b@], r),
            r matches Ok(t) ==> t.wf(),
    {
        let inputs: [&Tensor; 2] = [a, b];
        proof {
            assert(operand_views(inputs@) =~= seq![a@, b@]);
        }
        self.execute(&OpOf::Div, inputs.as_slice())
    }

    /// The sum of two tensors that are broadcast against each other.
    fn broadcast_add(&self, a: &Tensor, b: &Tensor, input_shapes: Vec<Shape>) -> (r: Result<Tensor, Error>)
        requires
            a.wf(),
            b.wf(),
        ensures
            self.runs(OpOf::BroadcastAdd { input_shapes: shape_views(input_shapes@) }, seq![a@, b@], r),
            r matches Ok(t) ==> t.wf(),
    {
        let inputs: [&Tensor; 2] = [a, b];
        proof {
            assert(operand_views(inputs@) =~= seq![a@, b@]);
        }
        self.execute(&OpOf::BroadcastAdd { input_shapes }, inputs.as_slice())
    }

    /// The product of two tensors that are broadcast against each other.
    fn broadcast_mul(&self, a: &Tensor, b: &Tensor, input_shapes: Vec<Shape>) -> (r: Result<Tensor, Error>)
        requires
            a.wf(),
            b.wf(),
        ensures
            self.runs(OpOf::BroadcastMul { input_shapes: shape_views(input_shapes@) }, seq![a@, b@], r),
            r matches Ok(t) ==> t.wf(),
    {
        let inputs: [&Tensor; 2] = [a, b];
        proof {
            assert(operand_views(inputs@) =~= seq![a@, b@]);
        }
        self.execute(&OpOf::BroadcastMul { input_shapes }, inputs.as_slice())
    }

    /// The difference of two tensors that are broadcast against each other.
    fn broadcast_sub(&self, a: &Tensor, b: &Tensor, input_shapes: Vec<Shape>) -> (r: Result<Tensor, Error>)
        requires
            a.wf(),
            b.wf(),
        ensures
            self.runs(OpOf::BroadcastSub { input_shapes: shape_views(input_shapes@) }, seq![a@, b@], r),
            r matches Ok(t) ==> t.wf(),
    {
        let inputs: [&Tensor; 2] = [a, b];
        proof {
            assert(operand_views(inputs@) =~= seq![a@, b@]);
        }
        self.execute(&OpOf::BroadcastSub { input_shapes }, inputs.as_slice())
    }

    /// The quotient of two tensors that are broadcast against each other.
    fn broadcast_div(&self, a: &Tensor, b: &Tensor, input_shapes: Vec<Shape>) -> (r: Result<Tensor, Error>)
        requires
            a.wf(),
            b.wf(),
        ensures
            self.runs(OpOf::BroadcastDiv { input_shapes: shape_views(input_shapes@) }, seq![a@, b@], r),
            r matches Ok(t) ==> t.wf(),
    {
        let inputs: [&Tensor; 2] = [a, b];
        proof {
            assert(operand_views(inputs@) =~= seq![a@, b@]);
        }
        self.execute(&OpOf::BroadcastDiv { input_shapes }, inputs.as_slice())
    }

    /// The matrix product.
    fn matmul(&self, a: &Tensor, b: &Tensor) -> (r: Result<Tensor, Error>)
        requires
            a.wf(),
            b.wf(),
        ensures
            self.runs(OpOf::MatMul, seq![a@, b@], r),
            r matches Ok(t) ==> t.wf(),
    {
        let inputs: [&Tensor; 2] = [a, b];
        proof {
            assert(operand_views(inputs@) =~= seq![a@, b@]);
        }
        self.execute(&OpOf::MatMul, inputs.as_slice())
    }

    /// The transposed matrix.
    fn transpose(&self, x: &Tensor) -> (r: Result<Tensor, Error>)
        requires
            x.wf(),
        ensures
            self.runs(OpOf::Transpose, seq![x@], r),
            r matches Ok(t) ==> t.wf(),
    {
        let inputs: [&Tensor; 1] = [x];
        proof {
            assert(operand_views(inputs@) =~= seq![x@]);
        }
        self.execute(&OpOf::Transpose, inputs.as_slice())
    }

    /// The matrix products of a batch.
    fn batched_matmul(&self, a: &Tensor, b: &Tensor) -> (r: Result<Tensor, Error>)
        requires
            a.wf(),
            b.wf(),
        ensures
            self.runs(OpOf::BatchedMatMul, seq![a@, b@], r),
            r matches Ok(t) ==> t.wf(),
    {
        let inputs: [&Tensor; 2] = [a, b];
        proof {
            assert(operand_views(inputs@) =~= seq![a@, b@]);
        }
        self.execute(&OpOf::BatchedMatMul, inputs.as_slice())
    }

    /// The transposed matrices of a batch.
    fn batched_transpose(&self, x: &Tensor) -> (r: Result<Tensor, Error>)
        requires
            x.wf(),
        ensures
            self.runs(OpOf::BatchedTranspose, seq![x@], r),
            r matches Ok(t) ==> t.wf(),
    {
        let inputs: [&Tensor; 1] = [x];
        proof {
            assert(operand_views(inputs@) =~= seq![x@]);
        }
        self.execute(&OpOf::BatchedTranspose, inputs.as_slice())
    }

    /// The sum of all elements.
    fn sum_all(&self, x: &Tensor) -> (r: Result<Tensor, Error>)
        requires
            x.wf(),
        ensures
            self.runs(OpOf::SumAll, seq![x@], r),
            r matches Ok(t) ==> t.wf(),
    {
        let inputs: [&Tensor; 1] = [x];
        proof {
            assert(operand_views(inputs@) =~= seq![x@]);
        }
        self.execute(&OpOf::SumAll, inputs.as_slice())
    }

    /// The sums along an axis.
    fn sum_dim(&self, x: &Tensor, axis: usize) -> (r: Result<Tensor, Error>)
        requires
            x.wf(),
        ensures
            self.runs(OpOf::SumDim { axis }, seq![x@], r),
            r matches Ok(t) ==> t.wf(),
    {
        let inputs: [&Tensor; 1] = [x];
        proof {
            assert(operand_views(inputs@) =~= seq![x@]);
        }
        self.execute(&OpOf::SumDim { axis }, inputs.as_slice())
    }

    /// The same elements in another shape.
    fn reshape(&self, x: &Tensor, shape: Shape) -> (r: Result<Tensor, Error>)
        requires
            x.wf(),
        ensures
            self.runs(OpOf::Reshape { shape: shape@ }, seq![x@], r),
            r matches Ok(t) ==> t.wf(),
    {
        let inputs: [&Tensor; 1] = [x];
        proof {
            assert(operand_views(inputs@) =~= seq![x@]);
        }
        self.execute(&OpOf::Reshape { shape }, inputs.as_slice())
    }

    /// The inputs, one after the other along an axis.
    fn concat(&self, inputs: &[&Tensor], axis: usize) -> (r: Result<Tensor, Error>)
        requires
            operands_wf(inputs@),
        ensures
            self.runs(OpOf::Concat { axis }, operand_views(inputs@), r),
            r matches Ok(t) ==> t.wf(),
    {
        self.execute(&OpOf::Concat { axis }, inputs)
    }

    /// A stretch of an axis.
    fn slice(&self, x: &Tensor, axis: usize, start: usize, end: usize) -> (r: Result<Tensor, Error>)
        requires
            x.wf(),
        ensures
            self.runs(OpOf::Slice { axis, start, end }, seq![x@], r),
            r matches Ok(t) ==> t.wf(),
    {
        let inputs: [&Tensor; 1] = [x];
        proof {
            assert(operand_views(inputs@) =~= seq![x@]);
        }
        self.execute(&OpOf::Slice { axis, start, end }, inputs.as_slice())
    }

    /// The softmax of every row.
    fn softmax(&self, x: &Tensor) -> (r: Result<Tensor, Error>)
        requires
            x.wf(),
        ensures
            self.runs(OpOf::Softmax, seq![x@], r),
            r matches Ok(t) ==> t.wf(),
    {
        let inputs: [&Tensor; 1] = [x];
        proof {
            assert(operand_views(inputs@) =~= seq![x@]);
        }
        self.execute(&OpOf::Softmax, inputs.as_slice())
    }

    /// One for every element that is at least zero, else zero.
    fn step(&self, x: &Tensor) -> (r: Result<Tensor, Error>)
        requires
            x.wf(),
        ensures
            self.runs(OpOf::Step, seq![x@], r),
            r matches Ok(t) ==> t.wf(),
    {
        let inputs: [&Tensor; 1] = [x];
        proof {
            assert(operand_views(inputs@) =~= seq![x@]);
        }
        self.execute(&OpOf::Step, inputs.as_slice())
    }

    /// Every row, normalized by mean and variance.
    fn layer_norm(&self, x: &Tensor, weight: &Tensor, bias: &Tensor, epsilon: u32) -> (r: Result<Tensor, Error>)
        requires
            x.wf(),
            weight.wf(),
            bias.wf(),
        ensures
            self.runs(OpOf::LayerNorm { epsilon }, seq![x@, weight@, bias@], r),
            r matches Ok(t) ==> t.wf(),
    {
        let inputs: [&Tensor; 3] = [x, weight, bias];
        proof {
            assert(operand_views(inputs@) =~= seq![x@, weight@, bias@]);
        }
        self.execute(&OpOf::LayerNorm { epsilon }, inputs.as_slice())
    }

    /// Every row, normalized by its root mean square.
    fn rms_norm(&self, x: &Tensor, weight: &Tensor, epsilon: u32) -> (r: Result<Tensor, Error>)
        requires
            x.wf(),
            weight.wf(),
        ensures
            self.runs(OpOf::RmsNorm { epsilon }, seq![x@, weight@], r),
            r matches Ok(t) ==> t.wf(),
    {
        let inputs: [&Tensor; 2] = [x, weight];
        proof {
            assert(operand_views(inputs@) =~= seq![x@, weight@]);
        }
        self.execute(&OpOf::RmsNorm { epsilon }, inputs.as_slice())
    }

    /// A two-dimensional convolution.
    fn conv2d(&self, x: &Tensor, weight: &Tensor, stride: usize, padding: usize) -> (r: Result<Tensor, Error>)
        requires
            x.wf(),
            weight.wf(),
        ensures
            self.runs(OpOf::Conv2d { stride, padding }, seq![x@, weight@], r),
            r matches Ok(t) ==> t.wf(),
    {
        let inputs: [&Tensor; 2] = [x, weight];
        proof {
            assert(operand_views(inputs@) =~= seq![x@, weight@]);
        }
        self.execute(&OpOf::Conv2d { stride, padding }, inputs.as_slice())
    }

    /// The largest element of every window.
    fn max_pool2d(&self, x: &Tensor, pool_size: usize, stride: usize, padding: usize) -> (r: Result<Tensor, Error>)
        requires
            x.wf(),
        ensures
            self.runs(OpOf::MaxPool2d { pool_size, stride, padding }, seq![x@], r),
            r matches Ok(t) ==> t.wf(),
    {
        let inputs: [&Tensor; 1] = [x];
        proof {
            assert(operand_views(inputs@) =~= seq![x@]);
        }
        self.execute(&OpOf::MaxPool2d { pool_size, stride, padding }, inputs.as_slice())
    }

    /// The mean of every window.
    fn avg_pool2d(&self, x: &Tensor, pool_size: usize, stride: usize, padding: usize) -> (r: Result<Tensor, Error>)
        requires
            x.wf(),
        ensures
            self.runs(OpOf::AvgPool2d { pool_size, stride, padding }, seq![x@], r),
            r matches Ok(t) ==> t.wf(),
    {
        let inputs: [&Tensor; 1] = [x];
        proof {
            assert(operand_views(inputs@) =~= seq![x@]);
        }
        self.execute(&OpOf::AvgPool2d { pool_size, stride, padding }, inputs.as_slice())
    }

    /// Scaled dot-product attention.
    fn attention(&self, q: &Tensor, k: &Tensor, v: &Tensor, scale: u32) -> (r: Result<Tensor, Error>)
        requires
            q.wf(),
            k.wf(),
            v.wf(),
        ensures
            self.runs(OpOf::Attention { scale }, seq![q@, k@, v@], r),
            r matches Ok(t) ==> t.wf(),
    {
        let inputs: [&Tensor; 3] = [q, k, v];
        proof {
            assert(operand_views(inputs@) =~= seq![q@, k@, v@]);
        }
        self.execute(&OpOf::Attention { scale }, inputs.as_slice())
    }

    /// Attention by heads that looks back only.
    fn causal_attention(&self, q: &Tensor, k: &Tensor, v: &Tensor, scale: u32, num_heads: usize) -> (r: Result<Tensor, Error>)
        requires
            q.wf(),
            k.wf(),
            v.wf(),
        ensures
            self.runs(OpOf::CausalAttention { scale, num_heads }, seq![q@, k@, v@], r),
            r matches Ok(t) ==> t.wf(),
    {
        let inputs: [&Tensor; 3] = [q, k, v];
        proof {
            assert(operand_views(inputs@) =~= seq![q@, k@, v@]);
        }
        self.execute(&OpOf::CausalAttention { scale, num_heads }, inputs.as_slice())
    }

    /// Attention by heads.
    fn multi_head_attention(&self, q: &Tensor, k: &Tensor, v: &Tensor, scale: u32, num_heads: usize) -> (r: Result<Tensor, Error>)
        requires
            q.wf(),
            k.wf(),
            v.wf(),
        ensures
            self.runs(OpOf::MultiHeadAttention { scale, num_heads }, seq![q@, k@, v@], r),
            r matches Ok(t) ==> t.wf(),
    {
        let inputs: [&Tensor; 3] = [q, k, v];
        proof {
            assert(operand_views(inputs@) =~= seq![q@, k@, v@]);
        }
        self.execute(&OpOf::MultiHeadAttention { scale, num_heads }, inputs.as_slice())
    }

    /// Attention in tiles.
    fn flash_attention(&self, q: &Tensor, k: &Tensor, v: &Tensor, scale: u32, causal: bool) -> (r: Result<Tensor, Error>)
        requires
            q.wf(),
            k.wf(),
            v.wf(),
        ensures
            self.runs(OpOf::FlashAttention { scale, causal }, seq![q@, k@, v@], r),
            r matches Ok(t) ==> t.wf(),
    {
        let inputs: [&Tensor; 3] = [q, k, v];
        proof {
            assert(operand_views(inputs@) =~= seq![q@, k@, v@]);
        }
        self.execute(&OpOf::FlashAttention { scale, causal }, inputs.as_slice())
    }

    /// Conversion to half precision.
    fn cast_f32_to_f16(&self, x: &Tensor) -> (r: Result<Tensor, Error>)
        requires
            x.wf(),
        ensures
            self.runs(OpOf::CastF32ToF16, seq![x@], r),
            r matches Ok(t) ==> t.wf(),
    {
        let inputs: [&Tensor; 1] = [x];
        proof {
            assert(operand_views(inputs@) =~= seq![x@]);
        }
        self.execute(&OpOf::CastF32ToF16, inputs.as_slice())
    }

    /// Conversion from half precision.
    fn cast_f16_to_f32(&self, x: &Tensor) -> (r: Result<Tensor, Error>)
        requires
            x.wf(),
        ensures
            self.runs(OpOf::CastF16ToF32, seq![x@], r),
            r matches Ok(t) ==> t.wf(),
    {
        let inputs: [&Tensor; 1] = [x];
        proof {
            assert(operand_views(inputs@) =~= seq![x@]);
        }
        self.execute(&OpOf::CastF16ToF32, inputs.as_slice())
    }

    /// Conversion to brain floats.
    fn cast_f32_to_bf16(&self, x: &Tensor) -> (r: Result<Tensor, Error>)
        requires
            x.wf(),
        ensures
            self.runs(OpOf::CastF32ToBF16, seq![x@], r),
            r matches Ok(t) ==> t.wf(),
    {
        let inputs: [&Tensor; 1] = [x];
        proof {
            assert(operand_views(inputs@) =~= seq![x@]);
        }
        self.execute(&OpOf::CastF32ToBF16, inputs.as_slice())
    }

    /// Conversion from brain floats.
    fn cast_bf16_to_f32(&self, x: &Tensor) -> (r: Result<Tensor, Error>)
        requires
            x.wf(),
        ensures
            self.runs(OpOf::CastBF16ToF32, seq![x@], r),
            r matches Ok(t) ==> t.wf(),
    {
        let inputs: [&Tensor; 1] = [x];
        proof {
            assert(operand_views(inputs@) =~= seq![x@]);
        }
        self.execute(&OpOf::CastBF16ToF32, inputs.as_slice())
    }

    /// The gradient of a softmax, from two operands in this order.
    fn softmax_grad(&self, dy: &Tensor, y: &Tensor) -> (r: Result<Tensor, Error>)
        requires
            dy.wf(),
            y.wf(),
        ensures
            self.runs(OpOf::SoftmaxGrad, seq![dy@, y@], r),
            r matches Ok(t) ==> t.wf(),
    {
        let inputs: [&Tensor; 2] = [dy, y];
        proof {
            assert(operand_views(inputs@) =~= seq![dy@, y@]);
        }
        self.execute(&OpOf::SoftmaxGrad, inputs.as_slice())
    }

    /// The gradient of a layer norm by its input, from three operands in this order.
    fn layer_norm_grad_x(&self, dy: &Tensor, x: &Tensor, weight: &Tensor, epsilon: u32) -> (r: Result<Tensor, Error>)
        requires
            dy.wf(),
            x.wf(),
            weight.wf(),
        ensures
            self.runs(OpOf::LayerNormGradX { epsilon }, seq![dy@, x@, weight@], r),
            r matches Ok(t) ==> t.wf(),
    {
        let inputs: [&Tensor; 3] = [dy, x, weight];
        proof {
            assert(operand_views(inputs@) =~= seq![dy@, x@, weight@]);
        }
        self.execute(&OpOf::LayerNormGradX { epsilon }, inputs.as_slice())
    }

    /// The gradient of a layer norm by its weights, from two operands in this order.
    fn layer_norm_grad_w(&self, dy: &Tensor, x: &Tensor, epsilon: u32) -> (r: Result<Tensor, Error>)
        requires
            dy.wf(),
            x.wf(),
        ensures
            self.runs(OpOf::LayerNormGradW { epsilon }, seq![dy@, x@], r),
            r matches Ok(t) ==> t.wf(),
    {
        let inputs: [&Tensor; 2] = [dy, x];
        proof {
            assert(operand_views(inputs@) =~= seq![dy@, x@]);
        }
        self.execute(&OpOf::LayerNormGradW { epsilon }, inputs.as_slice())
    }

    /// The gradient of a layer norm by its bias.
    fn layer_norm_grad_b(&self, dy: &Tensor) -> (r: Result<Tensor, Error>)
        requires
            dy.wf(),
        ensures
            self.runs(OpOf::LayerNormGradB, seq![dy@], r),
            r matches Ok(t) ==> t.wf(),
    {
        let inputs: [&Tensor; 1] = [dy];
        proof {
            assert(operand_views(inputs@) =~= seq![dy@]);
        }
        self.execute(&OpOf::LayerNormGradB, inputs.as_slice())
    }

    /// The gradient of a convolution by its input, from two operands in this order.
    fn conv2d_grad_x(&self, dy: &Tensor, weight: &Tensor, stride: usize, padding: usize) -> (r: Result<Tensor, Error>)
        requires
            dy.wf(),
            weight.wf(),
        ensures
            self.runs(OpOf::Conv2dGradX { stride, padding }, seq![dy@, weight@], r),
            r matches Ok(t) ==> t.wf(),
    {
        let inputs: [&Tensor; 2] = [dy, weight];
        proof {
            assert(operand_views(inputs@) =~= seq![dy@, weight@]);
        }
        self.execute(&OpOf::Conv2dGradX { stride, padding }, inputs.as_slice())
    }

    /// The gradient of a convolution by its weights, from two operands in this order.
    fn conv2d_grad_w(&self, dy: &Tensor, x: &Tensor, stride: usize, padding: usize) -> (r: Result<Tensor, Error>)
        requires
            dy.wf(),
            x.wf(),
        ensures
            self.runs(OpOf::Conv2dGradW { stride, padding }, seq![dy@, x@], r),
            r matches Ok(t) ==> t.wf(),
    {
        let inputs: [&Tensor; 2] = [dy, x];
        proof {
            assert(operand_views(inputs@) =~= seq![dy@, x@]);
        }
        self.execute(&OpOf::Conv2dGradW { stride, padding }, inputs.as_slice())
    }

    /// The gradient of a convolution by its bias.
    fn conv2d_grad_b(&self, dy: &Tensor) -> (r: Result<Tensor, Error>)
        requires
            dy.wf(),
        ensures
            self.runs(OpOf::Conv2dGradB, seq![dy@], r),
            r matches Ok(t) ==> t.wf(),
    {
        let inputs: [&Tensor; 1] = [dy];
        proof {
            assert(operand_views(inputs@) =~= seq![dy@]);
        }
        self.execute(&OpOf::Conv2dGradB, inputs.as_slice())
    }

    /// The gradient of a maximum pooling.
    fn max_pool2d_grad(&self, dy: &Tensor, x: &Tensor, pool_size: usize, stride: usize, padding: usize) -> (r: Result<Tensor, Error>)
        requires
            dy.wf(),
            x.wf(),
        ensures
            self.runs(OpOf::MaxPool2dGrad { pool_size, stride, padding }, seq![dy@, x@], r),
            r matches Ok(t) ==> t.wf(),
    {
        let inputs: [&Tensor; 2] = [dy, x];
        proof {
            assert(operand_views(inputs@) =~= seq![dy@, x@]);
        }
        self.execute(&OpOf::MaxPool2dGrad { pool_size, stride, padding }, inputs.as_slice())
    }

    /// The gradient of a mean pooling.
    fn avg_pool2d_grad(&self, dy: &Tensor, x: &Tensor, pool_size: usize, stride: usize, padding: usize) -> (r: Result<Tensor, Error>)
        requires
            dy.wf(),
            x.wf(),
        ensures
            self.runs(OpOf::AvgPool2dGrad { pool_size, stride, padding }, seq![dy@, x@], r),
            r matches Ok(t) ==> t.wf(),
    {
        let inputs: [&Tensor; 2] = [dy, x];
        proof {
            assert(operand_views(inputs@) =~= seq![dy@, x@]);
        }
        self.execute(&OpOf::AvgPool2dGrad { pool_size, stride, padding }, inputs.as_slice())
    }

    /// The gradient of a slice, from one operand.
    fn slice_grad(&self, dy: &Tensor, axis: usize, start: usize, end: usize) -> (r: Result<Tensor, Error>)
        requires
            dy.wf(),
        ensures
            self.runs(OpOf::SliceGrad { axis, start, end }, seq![dy@], r),
            r matches Ok(t) ==> t.wf(),
    {
        let inputs: [&Tensor; 1] = [dy];
        proof {
            assert(operand_views(inputs@) =~= seq![dy@]);
        }
        self.execute(&OpOf::SliceGrad { axis, start, end }, inputs.as_slice())
    }

    /// The gradient of an attention by its queries.
    fn attention_grad_q(&self, dy: &Tensor, q: &Tensor, k: &Tensor, v: &Tensor, scale: u32) -> (r: Result<Tensor, Error>)
        requires
            dy.wf(),
            q.wf(),
            k.wf(),
            v.wf(),
        ensures
            self.runs(OpOf::AttentionGradQ { scale }, seq![dy@, q@, k@, v@], r),
            r matches Ok(t) ==> t.wf(),
    {
        let inputs: [&Tensor; 4] = [dy, q, k, v];
        proof {
            assert(operand_views(inputs@) =~= seq![dy@, q@, k@, v@]);
        }
        self.execute(&OpOf::AttentionGradQ { scale }, inputs.as_slice())
    }

    /// The gradient of an attention by its keys.
    fn attention_grad_k(&self, dy: &Tensor, q: &Tensor, k: &Tensor, v: &Tensor, scale: u32) -> (r: Result<Tensor, Error>)
        requires
            dy.wf(),
            q.wf(),
            k.wf(),
            v.wf(),
        ensures
            self.runs(OpOf::AttentionGradK { scale }, seq![dy@, q@, k@, v@], r),
            r matches Ok(t) ==> t.wf(),
    {
        let inputs: [&Tensor; 4] = [dy, q, k, v];
        proof {
            assert(operand_views(inputs@) =~= seq![dy@, q@, k@, v@]);
        }
        self.execute(&OpOf::AttentionGradK { scale }, inputs.as_slice())
    }

    /// The gradient of an attention by its values.
    fn attention_grad_v(&self, dy: &Tensor, q: &Tensor, k: &Tensor, v: &Tensor, scale: u32) -> (r: Result<Tensor, Error>)
        requires
            dy.wf(),
            q.wf(),
            k.wf(),
            v.wf(),
        ensures
            self.runs(OpOf::AttentionGradV { scale }, seq![dy@, q@, k@, v@], r),
            r matches Ok(t) ==> t.wf(),
    {
        let inputs: [&Tensor; 4] = [dy, q, k, v];
        proof {
            assert(operand_views(inputs@) =~= seq![dy@, q@, k@, v@]);
        }
        self.execute(&OpOf::AttentionGradV { scale }, inputs.as_slice())
    }

    /// A matrix product, then its positive part. An error of the product is
    /// passed on.
    fn execute_matmul_relu(&self, a: &Tensor, b: &Tensor) -> (r: Result<Tensor, Error>)
        requires
            a.wf(),
            b.wf(),
        ensures
            exists|p: Result<Tensor, Error>| #[trigger]
                self.runs(OpOf::MatMul, two(a@, b@), p) && match p {
                    Ok(t) => self.runs(OpOf::Relu, seq![t@], r),
                    Err(e) => r matches Err(x) && x@ == e@,
                },
            r matches Ok(t) ==> t.wf(),
    {
        let product = self.matmul(a, b);
        proof {
            assert(self.runs(OpOf::MatMul, two(a@, b@), product));
        }
        match product {
            Ok(t) => self.relu(&t),
            Err(e) => Err(e),
        }
    }

    /// A matrix product plus a bias. An error of the product is passed on.
    fn execute_matmul_add(&self, a: &Tensor, b: &Tensor, bias: &Tensor) -> (r: Result<Tensor, Error>)
        requires
            a.wf(),
            b.wf(),
            bias.wf(),
        ensures
            exists|p: Result<Tensor, Error>| #[trigger]
                self.runs(OpOf::MatMul, two(a@, b@), p) && match p {
                    Ok(t) => self.runs(OpOf::Add, seq![t@, bias@], r),
                    Err(e) => r matches Err(x) && x@ == e@,
                },
            r matches Ok(t) ==> t.wf(),
    {
        let product = self.matmul(a, b);
        proof {
            assert(self.runs(OpOf::MatMul, two(a@, b@), product));
        }
        match product {
            Ok(t) => self.add(&t, bias),
            Err(e) => Err(e),
        }
    }

    /// A matrix product plus a bias, then the positive part. An error of the
    /// product or the sum is passed on.
    fn execute_matmul_add_relu(&self, a: &Tensor, b: &Tensor, bias: &Tensor) -> (r: Result<
        Tensor,
        Error,
    >)
        requires
            a.wf(),
            b.wf(),
            bias.wf(),
        ensures
            exists|p: Result<Tensor, Error>| #[trigger]
                self.runs(OpOf::MatMul, two(a@, b@), p) && match p {
                    Ok(t) => exists|s: Result<Tensor, Error>| #[trigger]
                        self.runs(OpOf::Add, two(t@, bias@), s) && match s {
                            Ok(u) => self.runs(OpOf::Relu, seq![u@], r),
                            Err(e) => r matches Err(x) && x@ == e@,
                        },
                    Err(e) => r matches Err(x) && x@ == e@,
                },
            r matches Ok(t) ==> t.wf(),
    {
        let product = self.matmul(a, b);
        proof {
            assert(self.runs(OpOf::MatMul, two(a@, b@), product));
        }
        match product {
            Ok(t) => {
                let sum = self.add(&t, bias);
                proof {
                    assert(self.runs(OpOf::Add, two(t@, bias@), sum));
                }
                match sum {
                    Ok(u) => self.relu(&u),
                    Err(e) => Err(e),
                }
            },
            Err(e) => Err(e),
        }
    }
}

/// A list of two.
pub open spec fn two<T>(a: T, b: T) -> Seq<T> {
    seq![a, b]
}

} // verus!
