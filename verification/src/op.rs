//! The operations of the compute graph.

use crate::shape::Shape;
use crate::tensor::{same_tensor, Tensor, TensorView};
use vstd::prelude::*;

verus! {

/// An operation, over a type of tensors `T`, of shapes `S` and of lists of
/// shapes `L`. Numbers that are not counts are given by their bits.
#[derive(Debug)]
pub enum OpOf<T, S, L> {
    /// A constant tensor.
    Input(T),
    MatMul,
    Relu,
    Add,
    Sub,
    Mul,
    Div,
    Tanh,
    Sigmoid,
    Exp,
    Sqrt,
    Neg,
    BroadcastAdd { input_shapes: L },
    BroadcastMul { input_shapes: L },
    BroadcastSub { input_shapes: L },
    BroadcastDiv { input_shapes: L },
    Transpose,
    SumAll,
    SumDim { axis: usize },
    Reshape { shape: S },
    Softmax,
    SoftmaxGrad,
    Step,
    Concat { axis: usize },
    LayerNorm { epsilon: u32 },
    RmsNorm { epsilon: u32 },
    Conv2d { stride: usize, padding: usize },
    Slice { axis: usize, start: usize, end: usize },
    SliceGrad { axis: usize, start: usize, end: usize },
    LayerNormGradX { epsilon: u32 },
    LayerNormGradW { epsilon: u32 },
    LayerNormGradB,
    Conv2dGradX { stride: usize, padding: usize },
    Conv2dGradW { stride: usize, padding: usize },
    Conv2dGradB,
    BatchedMatMul,
    BatchedTranspose,
    MaxPool2d { pool_size: usize, stride: usize, padding: usize },
    MaxPool2dGrad { pool_size: usize, stride: usize, padding: usize },
    AvgPool2d { pool_size: usize, stride: usize, padding: usize },
    AvgPool2dGrad { pool_size: usize, stride: usize, padding: usize },
    Attention { scale: u32 },
    AttentionGradQ { scale: u32 },
    AttentionGradK { scale: u32 },
    AttentionGradV { scale: u32 },
    CastF32ToF16,
    CastF16ToF32,
    CastF32ToBF16,
    CastBF16ToF32,
    CausalAttention { scale: u32, num_heads: usize },
    MultiHeadAttention { scale: u32, num_heads: usize },
    FlashAttention { scale: u32, causal: bool },
}

/// An operation as it stands in a graph.
pub type Op = OpOf<Tensor, Shape, Vec<Shape>>;

/// An operation with the contents of the tensors and shapes it holds.
pub type OpView = OpOf<TensorView, Seq<usize>, Seq<Seq<usize>>>;

/// The contents of a list of shapes.
pub open spec fn shape_views(shapes: Seq<Shape>) -> Seq<Seq<usize>> {
    Seq::new(shapes.len(), |i: int| shapes[i]@)
}

impl View for OpOf<Tensor, Shape, Vec<Shape>> {
    type V = OpOf<TensorView, Seq<usize>, Seq<Seq<usize>>>;

    open spec fn view(&self) -> OpOf<TensorView, Seq<usize>, Seq<Seq<usize>>> {
        match self {
            OpOf::Input(t) => OpOf::Input(t@),
            OpOf::MatMul => OpOf::MatMul,
            OpOf::Relu => OpOf::Relu,
            OpOf::Add => OpOf::Add,
            OpOf::Sub => OpOf::Sub,
            OpOf::Mul => OpOf::Mul,
            OpOf::Div => OpOf::Div,
            OpOf::Tanh => OpOf::Tanh,
            OpOf::Sigmoid => OpOf::Sigmoid,
            OpOf::Exp => OpOf::Exp,
            OpOf::Sqrt => OpOf::Sqrt,
            OpOf::Neg => OpOf::Neg,
            OpOf::BroadcastAdd { input_shapes } => OpOf::BroadcastAdd { input_shapes: shape_views(input_shapes@) },
            OpOf::BroadcastMul { input_shapes } => OpOf::BroadcastMul { input_shapes: shape_views(input_shapes@) },
            OpOf::BroadcastSub { input_shapes } => OpOf::BroadcastSub { input_shapes: shape_views(input_shapes@) },
            OpOf::BroadcastDiv { input_shapes } => OpOf::BroadcastDiv { input_shapes: shape_views(input_shapes@) },
            OpOf::Transpose => OpOf::Transpose,
            OpOf::SumAll => OpOf::SumAll,
            OpOf::SumDim { axis } => OpOf::SumDim { axis: *axis },
            OpOf::Reshape { shape } => OpOf::Reshape { shape: shape@ },
            OpOf::Softmax => OpOf::Softmax,
            OpOf::SoftmaxGrad => OpOf::SoftmaxGrad,
            OpOf::Step => OpOf::Step,
            OpOf::Concat { axis } => OpOf::Concat { axis: *axis },
            OpOf::LayerNorm { epsilon } => OpOf::LayerNorm { epsilon: *epsilon },
            OpOf::RmsNorm { epsilon } => OpOf::RmsNorm { epsilon: *epsilon },
            OpOf::Conv2d { stride, padding } => OpOf::Conv2d { stride: *stride, padding: *padding },
            OpOf::Slice { axis, start, end } => OpOf::Slice { axis: *axis, start: *start, end: *end },
            OpOf::SliceGrad { axis, start, end } => OpOf::SliceGrad { axis: *axis, start: *start, end: *end },
            OpOf::LayerNormGradX { epsilon } => OpOf::LayerNormGradX { epsilon: *epsilon },
            OpOf::LayerNormGradW { epsilon } => OpOf::LayerNormGradW { epsilon: *epsilon },
            OpOf::LayerNormGradB => OpOf::LayerNormGradB,
            OpOf::Conv2dGradX { stride, padding } => OpOf::Conv2dGradX { stride: *stride, padding: *padding },
            OpOf::Conv2dGradW { stride, padding } => OpOf::Conv2dGradW { stride: *stride, padding: *padding },
            OpOf::Conv2dGradB => OpOf::Conv2dGradB,
            OpOf::BatchedMatMul => OpOf::BatchedMatMul,
            OpOf::BatchedTranspose => OpOf::BatchedTranspose,
            OpOf::MaxPool2d { pool_size, stride, padding } => OpOf::MaxPool2d { pool_size: *pool_size, stride: *stride, padding: *padding },
            OpOf::MaxPool2dGrad { pool_size, stride, padding } => OpOf::MaxPool2dGrad { pool_size: *pool_size, stride: *stride, padding: *padding },
            OpOf::AvgPool2d { pool_size, stride, padding } => OpOf::AvgPool2d { pool_size: *pool_size, stride: *stride, padding: *padding },
            OpOf::AvgPool2dGrad { pool_size, stride, padding } => OpOf::AvgPool2dGrad { pool_size: *pool_size, stride: *stride, padding: *padding },
            OpOf::Attention { scale } => OpOf::Attention { scale: *scale },
            OpOf::AttentionGradQ { scale } => OpOf::AttentionGradQ { scale: *scale },
            OpOf::AttentionGradK { scale } => OpOf::AttentionGradK { scale: *scale },
            OpOf::AttentionGradV { scale } => OpOf::AttentionGradV { scale: *scale },
            OpOf::CastF32ToF16 => OpOf::CastF32ToF16,
            OpOf::CastF16ToF32 => OpOf::CastF16ToF32,
            OpOf::CastF32ToBF16 => OpOf::CastF32ToBF16,
            OpOf::CastBF16ToF32 => OpOf::CastBF16ToF32,
            OpOf::CausalAttention { scale, num_heads } => OpOf::CausalAttention { scale: *scale, num_heads: *num_heads },
            OpOf::MultiHeadAttention { scale, num_heads } => OpOf::MultiHeadAttention { scale: *scale, num_heads: *num_heads },
            OpOf::FlashAttention { scale, causal } => OpOf::FlashAttention { scale: *scale, causal: *causal },
        }
    }
}

/// Copies a list of shapes.
pub fn copy_shapes(shapes: &Vec<Shape>) -> (out: Vec<Shape>)
    ensures
        shape_views(out@) == shape_views(shapes@),
{
    let mut out: Vec<Shape> = Vec::new();
    for i in 0..shapes.len()
        invariant
            out@.len() == i,
            forall|j: int| 0 <= j < i ==> (#[trigger] out@[j])@ == shapes@[j]@,
    {
        out.push(shapes[i].copy());
    }
    proof {
        assert(shape_views(out@) =~= shape_views(shapes@));
    }
    out
}

/// Whether two lists of shapes are the same.
fn same_shapes(a: &Vec<Shape>, b: &Vec<Shape>) -> (r: bool)
    ensures
        r == (shape_views(a@) == shape_views(b@)),
{
    if a.len() != b.len() {
        proof {
            assert(shape_views(a@).len() != shape_views(b@).len());
        }
        return false;
    }
    for i in 0..a.len()
        invariant
            a@.len() == b@.len(),
            forall|j: int| 0 <= j < i ==> (#[trigger] a@[j])@ == b@[j]@,
    {
        if !crate::shape::same_dims(&a[i].dims, &b[i].dims) {
            proof {
                assert(shape_views(a@)[i as int] != shape_views(b@)[i as int]);
            }
            return false;
        }
    }
    proof {
        assert(shape_views(a@) =~= shape_views(b@));
    }
    true
}

impl OpOf<Tensor, Shape, Vec<Shape>> {
    /// A constant's tensor is well formed.
    pub open spec fn wf(&self) -> bool {
        match self {
            OpOf::Input(t) => t.wf(),
            _ => true,
        }
    }

    /// A copy of the operation.
    pub fn copy(&self) -> (op: Op)
        ensures
            op@ == self@,
            op.wf() == self.wf(),
    {
        match self {
            OpOf::Input(t) => OpOf::Input(t.copy()),
            OpOf::MatMul => OpOf::MatMul,
            OpOf::Relu => OpOf::Relu,
            OpOf::Add => OpOf::Add,
            OpOf::Sub => OpOf::Sub,
            OpOf::Mul => OpOf::Mul,
            OpOf::Div => OpOf::Div,
            OpOf::Tanh => OpOf::Tanh,
            OpOf::Sigmoid => OpOf::Sigmoid,
            OpOf::Exp => OpOf::Exp,
            OpOf::Sqrt => OpOf::Sqrt,
            OpOf::Neg => OpOf::Neg,
            OpOf::BroadcastAdd { input_shapes } => OpOf::BroadcastAdd { input_shapes: copy_shapes(input_shapes) },
            OpOf::BroadcastMul { input_shapes } => OpOf::BroadcastMul { input_shapes: copy_shapes(input_shapes) },
            OpOf::BroadcastSub { input_shapes } => OpOf::BroadcastSub { input_shapes: copy_shapes(input_shapes) },
            OpOf::BroadcastDiv { input_shapes } => OpOf::BroadcastDiv { input_shapes: copy_shapes(input_shapes) },
            OpOf::Transpose => OpOf::Transpose,
            OpOf::SumAll => OpOf::SumAll,
            OpOf::SumDim { axis } => OpOf::SumDim { axis: *axis },
            OpOf::Reshape { shape } => OpOf::Reshape { shape: shape.copy() },
            OpOf::Softmax => OpOf::Softmax,
            OpOf::SoftmaxGrad => OpOf::SoftmaxGrad,
            OpOf::Step => OpOf::Step,
            OpOf::Concat { axis } => OpOf::Concat { axis: *axis },
            OpOf::LayerNorm { epsilon } => OpOf::LayerNorm { epsilon: *epsilon },
            OpOf::RmsNorm { epsilon } => OpOf::RmsNorm { epsilon: *epsilon },
            OpOf::Conv2d { stride, padding } => OpOf::Conv2d { stride: *stride, padding: *padding },
            OpOf::Slice { axis, start, end } => OpOf::Slice { axis: *axis, start: *start, end: *end },
            OpOf::SliceGrad { axis, start, end } => OpOf::SliceGrad { axis: *axis, start: *start, end: *end },
            OpOf::LayerNormGradX { epsilon } => OpOf::LayerNormGradX { epsilon: *epsilon },
            OpOf::LayerNormGradW { epsilon } => OpOf::LayerNormGradW { epsilon: *epsilon },
            OpOf::LayerNormGradB => OpOf::LayerNormGradB,
            OpOf::Conv2dGradX { stride, padding } => OpOf::Conv2dGradX { stride: *stride, padding: *padding },
            OpOf::Conv2dGradW { stride, padding } => OpOf::Conv2dGradW { stride: *stride, padding: *padding },
            OpOf::Conv2dGradB => OpOf::Conv2dGradB,
            OpOf::BatchedMatMul => OpOf::BatchedMatMul,
            OpOf::BatchedTranspose => OpOf::BatchedTranspose,
            OpOf::MaxPool2d { pool_size, stride, padding } => OpOf::MaxPool2d { pool_size: *pool_size, stride: *stride, padding: *padding },
            OpOf::MaxPool2dGrad { pool_size, stride, padding } => OpOf::MaxPool2dGrad { pool_size: *pool_size, stride: *stride, padding: *padding },
            OpOf::AvgPool2d { pool_size, stride, padding } => OpOf::AvgPool2d { pool_size: *pool_size, stride: *stride, padding: *padding },
            OpOf::AvgPool2dGrad { pool_size, stride, padding } => OpOf::AvgPool2dGrad { pool_size: *pool_size, stride: *stride, padding: *padding },
            OpOf::Attention { scale } => OpOf::Attention { scale: *scale },
            OpOf::AttentionGradQ { scale } => OpOf::AttentionGradQ { scale: *scale },
            OpOf::AttentionGradK { scale } => OpOf::AttentionGradK { scale: *scale },
            OpOf::AttentionGradV { scale } => OpOf::AttentionGradV { scale: *scale },
            OpOf::CastF32ToF16 => OpOf::CastF32ToF16,
            OpOf::CastF16ToF32 => OpOf::CastF16ToF32,
            OpOf::CastF32ToBF16 => OpOf::CastF32ToBF16,
            OpOf::CastBF16ToF32 => OpOf::CastBF16ToF32,
            OpOf::CausalAttention { scale, num_heads } => OpOf::CausalAttention { scale: *scale, num_heads: *num_heads },
            OpOf::MultiHeadAttention { scale, num_heads } => OpOf::MultiHeadAttention { scale: *scale, num_heads: *num_heads },
            OpOf::FlashAttention { scale, causal } => OpOf::FlashAttention { scale: *scale, causal: *causal },
        }
    }
}

/// Whether two operations are the same, down to the bits of a constant.
pub fn same_op(a: &Op, b: &Op) -> (r: bool)
    ensures
        r == (a@ == b@),
{
    match (a, b) {
        (OpOf::Input(x), OpOf::Input(y)) => same_tensor(x, y),
        (OpOf::MatMul, OpOf::MatMul) => true,
        (OpOf::Relu, OpOf::Relu) => true,
        (OpOf::Add, OpOf::Add) => true,
        (OpOf::Sub, OpOf::Sub) => true,
        (OpOf::Mul, OpOf::Mul) => true,
        (OpOf::Div, OpOf::Div) => true,
        (OpOf::Tanh, OpOf::Tanh) => true,
        (OpOf::Sigmoid, OpOf::Sigmoid) => true,
        (OpOf::Exp, OpOf::Exp) => true,
        (OpOf::Sqrt, OpOf::Sqrt) => true,
        (OpOf::Neg, OpOf::Neg) => true,
        (OpOf::BroadcastAdd { input_shapes: x0 }, OpOf::BroadcastAdd { input_shapes: y0 }) => same_shapes(x0, y0),
        (OpOf::BroadcastMul { input_shapes: x0 }, OpOf::BroadcastMul { input_shapes: y0 }) => same_shapes(x0, y0),
        (OpOf::BroadcastSub { input_shapes: x0 }, OpOf::BroadcastSub { input_shapes: y0 }) => same_shapes(x0, y0),
        (OpOf::BroadcastDiv { input_shapes: x0 }, OpOf::BroadcastDiv { input_shapes: y0 }) => same_shapes(x0, y0),
        (OpOf::Transpose, OpOf::Transpose) => true,
        (OpOf::SumAll, OpOf::SumAll) => true,
        (OpOf::SumDim { axis: x0 }, OpOf::SumDim { axis: y0 }) => *x0 == *y0,
        (OpOf::Reshape { shape: x0 }, OpOf::Reshape { shape: y0 }) => crate::shape::same_dims(&x0.dims, &y0.dims),
        (OpOf::Softmax, OpOf::Softmax) => true,
        (OpOf::SoftmaxGrad, OpOf::SoftmaxGrad) => true,
        (OpOf::Step, OpOf::Step) => true,
        (OpOf::Concat { axis: x0 }, OpOf::Concat { axis: y0 }) => *x0 == *y0,
        (OpOf::LayerNorm { epsilon: x0 }, OpOf::LayerNorm { epsilon: y0 }) => *x0 == *y0,
        (OpOf::RmsNorm { epsilon: x0 }, OpOf::RmsNorm { epsilon: y0 }) => *x0 == *y0,
        (OpOf::Conv2d { stride: x0, padding: x1 }, OpOf::Conv2d { stride: y0, padding: y1 }) => *x0 == *y0 && *x1 == *y1,
        (OpOf::Slice { axis: x0, start: x1, end: x2 }, OpOf::Slice { axis: y0, start: y1, end: y2 }) => *x0 == *y0 && *x1 == *y1 && *x2 == *y2,
        (OpOf::SliceGrad { axis: x0, start: x1, end: x2 }, OpOf::SliceGrad { axis: y0, start: y1, end: y2 }) => *x0 == *y0 && *x1 == *y1 && *x2 == *y2,
        (OpOf::LayerNormGradX { epsilon: x0 }, OpOf::LayerNormGradX { epsilon: y0 }) => *x0 == *y0,
        (OpOf::LayerNormGradW { epsilon: x0 }, OpOf::LayerNormGradW { epsilon: y0 }) => *x0 == *y0,
        (OpOf::LayerNormGradB, OpOf::LayerNormGradB) => true,
        (OpOf::Conv2dGradX { stride: x0, padding: x1 }, OpOf::Conv2dGradX { stride: y0, padding: y1 }) => *x0 == *y0 && *x1 == *y1,
        (OpOf::Conv2dGradW { stride: x0, padding: x1 }, OpOf::Conv2dGradW { stride: y0, padding: y1 }) => *x0 == *y0 && *x1 == *y1,
        (OpOf::Conv2dGradB, OpOf::Conv2dGradB) => true,
        (OpOf::BatchedMatMul, OpOf::BatchedMatMul) => true,
        (OpOf::BatchedTranspose, OpOf::BatchedTranspose) => true,
        (OpOf::MaxPool2d { pool_size: x0, stride: x1, padding: x2 }, OpOf::MaxPool2d { pool_size: y0, stride: y1, padding: y2 }) => *x0 == *y0 && *x1 == *y1 && *x2 == *y2,
        (OpOf::MaxPool2dGrad { pool_size: x0, stride: x1, padding: x2 }, OpOf::MaxPool2dGrad { pool_size: y0, stride: y1, padding: y2 }) => *x0 == *y0 && *x1 == *y1 && *x2 == *y2,
        (OpOf::AvgPool2d { pool_size: x0, stride: x1, padding: x2 }, OpOf::AvgPool2d { pool_size: y0, stride: y1, padding: y2 }) => *x0 == *y0 && *x1 == *y1 && *x2 == *y2,
        (OpOf::AvgPool2dGrad { pool_size: x0, stride: x1, padding: x2 }, OpOf::AvgPool2dGrad { pool_size: y0, stride: y1, padding: y2 }) => *x0 == *y0 && *x1 == *y1 && *x2 == *y2,
        (OpOf::Attention { scale: x0 }, OpOf::Attention { scale: y0 }) => *x0 == *y0,
        (OpOf::AttentionGradQ { scale: x0 }, OpOf::AttentionGradQ { scale: y0 }) => *x0 == *y0,
        (OpOf::AttentionGradK { scale: x0 }, OpOf::AttentionGradK { scale: y0 }) => *x0 == *y0,
        (OpOf::AttentionGradV { scale: x0 }, OpOf::AttentionGradV { scale: y0 }) => *x0 == *y0,
        (OpOf::CastF32ToF16, OpOf::CastF32ToF16) => true,
        (OpOf::CastF16ToF32, OpOf::CastF16ToF32) => true,
        (OpOf::CastF32ToBF16, OpOf::CastF32ToBF16) => true,
        (OpOf::CastBF16ToF32, OpOf::CastBF16ToF32) => true,
        (OpOf::CausalAttention { scale: x0, num_heads: x1 }, OpOf::CausalAttention { scale: y0, num_heads: y1 }) => *x0 == *y0 && *x1 == *y1,
        (OpOf::MultiHeadAttention { scale: x0, num_heads: x1 }, OpOf::MultiHeadAttention { scale: y0, num_heads: y1 }) => *x0 == *y0 && *x1 == *y1,
        (OpOf::FlashAttention { scale: x0, causal: x1 }, OpOf::FlashAttention { scale: y0, causal: y1 }) => *x0 == *y0 && *x1 == *y1,
        _ => false,
    }
}

} // verus!
