//! What the graphics device does for an operation.

use crate::backend::dispatch::{elementwise_op_outcome, op_outcome};
use crate::blas::matmul_mismatch;
use crate::codegen::ast::{
    ast_value, can_read, inputs_below, read_at, readable, Expr, ScalarText,
};
use crate::error::{execution_error, Error, ErrorView};
use crate::gpu::plan::{
    fused_plan, plan_fused, plan_rows, plan_sum_all, plan_sum_dim, plan_tiled_matmul,
    plan_transpose, rows_plan, small, sum_all_plan, sum_dim_plan, tiled_matmul_plan,
    transpose_plan, Dispatch, DispatchView, Kernel,
};
use crate::op::{shape_views, Op, OpOf, OpView};
use crate::shape::{
    broadcast_index, broadcast_of, broadcast_shapes, checked_numel, copy_dims, fits, is_there,
    law_broadcast_operands, law_broadcast_same_shape, law_broadcasts_cover, numel, Shape,
};
use crate::sym::{
    misfit_error, misfit, not_single, not_single_error, operand_views, operands_wf, Outcome,
    SymTensor,
};
use crate::tensor::{copy_words, single, AnyData, DataView, Tensor, TensorView};
use crate::text::{bool_name, bool_text, decimal, decimal_text, push_bracketed};
use vstd::prelude::*;
use vstd::string::*;

verus! {

/// What the device does for an operation.
#[derive(Debug)]
pub enum GpuStep {
    /// Nothing: this is the result.
    Ready(Tensor),
    /// Runs a kernel on the first `operands` operands. The result has the
    /// given shape.
    Run { dispatch: Dispatch, operands: usize, shape: Shape },
    /// Runs a kernel that is made for the expression, on all operands.
    Fused { expr: Expr, dispatch: Dispatch, shape: Shape },
}

/// What the device owes for an operation.
#[verifier::ext_equal]
pub enum GpuPlan {
    Ready(TensorView),
    Run { dispatch: DispatchView, operands: nat, shape: Seq<usize> },
    Fused { expr: Expr, dispatch: DispatchView, shape: Seq<usize> },
    /// An error.
    Fails(ErrorView),
    /// The operation is not supported.
    Unsupported,
}

/// The number that an unsupported operation holds, by its bits.
pub open spec fn number_of(op: OpView) -> Option<u32> {
    match op {
        OpOf::LayerNorm { epsilon, .. } => Some(epsilon),
        OpOf::LayerNormGradX { epsilon, .. } => Some(epsilon),
        OpOf::LayerNormGradW { epsilon, .. } => Some(epsilon),
        OpOf::Attention { scale, .. } => Some(scale),
        OpOf::AttentionGradQ { scale, .. } => Some(scale),
        OpOf::AttentionGradK { scale, .. } => Some(scale),
        OpOf::AttentionGradV { scale, .. } => Some(scale),
        OpOf::CausalAttention { scale, .. } => Some(scale),
        OpOf::MultiHeadAttention { scale, .. } => Some(scale),
        OpOf::FlashAttention { scale, .. } => Some(scale),
        _ => None,
    }
}

fn number_in(op: &Op) -> (r: Option<u32>)
    ensures
        r == number_of(op@),
{
    match op {
        OpOf::LayerNorm { epsilon, .. } => Some(*epsilon),
        OpOf::LayerNormGradX { epsilon, .. } => Some(*epsilon),
        OpOf::LayerNormGradW { epsilon, .. } => Some(*epsilon),
        OpOf::Attention { scale, .. } => Some(*scale),
        OpOf::AttentionGradQ { scale, .. } => Some(*scale),
        OpOf::AttentionGradK { scale, .. } => Some(*scale),
        OpOf::AttentionGradV { scale, .. } => Some(*scale),
        OpOf::CausalAttention { scale, .. } => Some(*scale),
        OpOf::MultiHeadAttention { scale, .. } => Some(*scale),
        OpOf::FlashAttention { scale, .. } => Some(*scale),
        _ => None,
    }
}

/// The text of an operation with one field.
pub open spec fn fields1(name: Seq<char>, f0: Seq<char>, v0: Seq<char>) -> Seq<char> {
    name + " { "@ + f0 + v0 + " }"@
}

fn text1(name: &str, f0: &str, v0: &String) -> (s: String)
    ensures
        s@ == fields1(name@, f0@, v0@),
{
    let mut s = String::from_str(name);
    s.append(" { ");
    s.append(f0);
    s.append(v0.as_str());
    s.append(" }");
    proof {
        assert(s@ =~= fields1(name@, f0@, v0@));
    }
    s
}

/// The text of an operation with two fields.
pub open spec fn fields2(name: Seq<char>, f0: Seq<char>, v0: Seq<char>, f1: Seq<char>, v1: Seq<char>) -> Seq<char> {
    name + " { "@ + f0 + v0 + ", "@ + f1 + v1 + " }"@
}

fn text2(name: &str, f0: &str, v0: &String, f1: &str, v1: &String) -> (s: String)
    ensures
        s@ == fields2(name@, f0@, v0@, f1@, v1@),
{
    let mut s = String::from_str(name);
    s.append(" { ");
    s.append(f0);
    s.append(v0.as_str());
    s.append(", ");
    s.append(f1);
    s.append(v1.as_str());
    s.append(" }");
    proof {
        assert(s@ =~= fields2(name@, f0@, v0@, f1@, v1@));
    }
    s
}

/// The text of an operation with three fields.
pub open spec fn fields3(name: Seq<char>, f0: Seq<char>, v0: Seq<char>, f1: Seq<char>, v1: Seq<char>, f2: Seq<char>, v2: Seq<char>) -> Seq<char> {
    name + " { "@ + f0 + v0 + ", "@ + f1 + v1 + ", "@ + f2 + v2 + " }"@
}

fn text3(name: &str, f0: &str, v0: &String, f1: &str, v1: &String, f2: &str, v2: &String) -> (s: String)
    ensures
        s@ == fields3(name@, f0@, v0@, f1@, v1@, f2@, v2@),
{
    let mut s = String::from_str(name);
    s.append(" { ");
    s.append(f0);
    s.append(v0.as_str());
    s.append(", ");
    s.append(f1);
    s.append(v1.as_str());
    s.append(", ");
    s.append(f2);
    s.append(v2.as_str());
    s.append(" }");
    proof {
        assert(s@ =~= fields3(name@, f0@, v0@, f1@, v1@, f2@, v2@));
    }
    s
}

/// The text of an unsupported operation, whose number has the text `x`.
pub open spec fn op_text(op: OpView, x: Seq<char>) -> Seq<char> {
    match op {
        OpOf::Concat { axis } => fields1("Concat"@, "axis: "@, decimal(axis as nat)),
        OpOf::LayerNorm { epsilon: _ } => fields1("LayerNorm"@, "epsilon: "@, x),
        OpOf::Conv2d { stride, padding } => fields2("Conv2d"@, "stride: "@, decimal(stride as nat), "padding: "@, decimal(padding as nat)),
        OpOf::Slice { axis, start, end } => fields3("Slice"@, "axis: "@, decimal(axis as nat), "start: "@, decimal(start as nat), "end: "@, decimal(end as nat)),
        OpOf::SliceGrad { axis, start, end } => fields3("SliceGrad"@, "axis: "@, decimal(axis as nat), "start: "@, decimal(start as nat), "end: "@, decimal(end as nat)),
        OpOf::LayerNormGradX { epsilon: _ } => fields1("LayerNormGradX"@, "epsilon: "@, x),
        OpOf::LayerNormGradW { epsilon: _ } => fields1("LayerNormGradW"@, "epsilon: "@, x),
        OpOf::LayerNormGradB => "LayerNormGradB"@,
        OpOf::Conv2dGradX { stride, padding } => fields2("Conv2dGradX"@, "stride: "@, decimal(stride as nat), "padding: "@, decimal(padding as nat)),
        OpOf::Conv2dGradW { stride, padding } => fields2("Conv2dGradW"@, "stride: "@, decimal(stride as nat), "padding: "@, decimal(padding as nat)),
        OpOf::Conv2dGradB => "Conv2dGradB"@,
        OpOf::BatchedMatMul => "BatchedMatMul"@,
        OpOf::BatchedTranspose => "BatchedTranspose"@,
        OpOf::MaxPool2d { pool_size, stride, padding } => fields3("MaxPool2d"@, "pool_size: "@, decimal(pool_size as nat), "stride: "@, decimal(stride as nat), "padding: "@, decimal(padding as nat)),
        OpOf::MaxPool2dGrad { pool_size, stride, padding } => fields3("MaxPool2dGrad"@, "pool_size: "@, decimal(pool_size as nat), "stride: "@, decimal(stride as nat), "padding: "@, decimal(padding as nat)),
        OpOf::AvgPool2d { pool_size, stride, padding } => fields3("AvgPool2d"@, "pool_size: "@, decimal(pool_size as nat), "stride: "@, decimal(stride as nat), "padding: "@, decimal(padding as nat)),
        OpOf::AvgPool2dGrad { pool_size, stride, padding } => fields3("AvgPool2dGrad"@, "pool_size: "@, decimal(pool_size as nat), "stride: "@, decimal(stride as nat), "padding: "@, decimal(padding as nat)),
        OpOf::Attention { scale: _ } => fields1("Attention"@, "scale: "@, x),
        OpOf::AttentionGradQ { scale: _ } => fields1("AttentionGradQ"@, "scale: "@, x),
        OpOf::AttentionGradK { scale: _ } => fields1("AttentionGradK"@, "scale: "@, x),
        OpOf::AttentionGradV { scale: _ } => fields1("AttentionGradV"@, "scale: "@, x),
        OpOf::CastF32ToF16 => "CastF32ToF16"@,
        OpOf::CastF16ToF32 => "CastF16ToF32"@,
        OpOf::CastF32ToBF16 => "CastF32ToBF16"@,
        OpOf::CastBF16ToF32 => "CastBF16ToF32"@,
        OpOf::CausalAttention { scale: _, num_heads } => fields2("CausalAttention"@, "scale: "@, x, "num_heads: "@, decimal(num_heads as nat)),
        OpOf::MultiHeadAttention { scale: _, num_heads } => fields2("MultiHeadAttention"@, "scale: "@, x, "num_heads: "@, decimal(num_heads as nat)),
        OpOf::FlashAttention { scale: _, causal } => fields2("FlashAttention"@, "scale: "@, x, "causal: "@, bool_name(causal)),
        _ => Seq::empty(),
    }
}

/// The text of an unsupported operation.
fn op_text_of(op: &Op, x: &String) -> (s: String)
    ensures
        s@ == op_text(op@, x@),
{
    match op {
        OpOf::Concat { axis } => text1("Concat", "axis: ", &decimal_text(*axis as u64)),
        OpOf::LayerNorm { epsilon: _ } => text1("LayerNorm", "epsilon: ", x),
        OpOf::Conv2d { stride, padding } => text2("Conv2d", "stride: ", &decimal_text(*stride as u64), "padding: ", &decimal_text(*padding as u64)),
        OpOf::Slice { axis, start, end } => text3("Slice", "axis: ", &decimal_text(*axis as u64), "start: ", &decimal_text(*start as u64), "end: ", &decimal_text(*end as u64)),
        OpOf::SliceGrad { axis, start, end } => text3("SliceGrad", "axis: ", &decimal_text(*axis as u64), "start: ", &decimal_text(*start as u64), "end: ", &decimal_text(*end as u64)),
        OpOf::LayerNormGradX { epsilon: _ } => text1("LayerNormGradX", "epsilon: ", x),
        OpOf::LayerNormGradW { epsilon: _ } => text1("LayerNormGradW", "epsilon: ", x),
        OpOf::LayerNormGradB => String::from_str("LayerNormGradB"),
        OpOf::Conv2dGradX { stride, padding } => text2("Conv2dGradX", "stride: ", &decimal_text(*stride as u64), "padding: ", &decimal_text(*padding as u64)),
        OpOf::Conv2dGradW { stride, padding } => text2("Conv2dGradW", "stride: ", &decimal_text(*stride as u64), "padding: ", &decimal_text(*padding as u64)),
        OpOf::Conv2dGradB => String::from_str("Conv2dGradB"),
        OpOf::BatchedMatMul => String::from_str("BatchedMatMul"),
        OpOf::BatchedTranspose => String::from_str("BatchedTranspose"),
        OpOf::MaxPool2d { pool_size, stride, padding } => text3("MaxPool2d", "pool_size: ", &decimal_text(*pool_size as u64), "stride: ", &decimal_text(*stride as u64), "padding: ", &decimal_text(*padding as u64)),
        OpOf::MaxPool2dGrad { pool_size, stride, padding } => text3("MaxPool2dGrad", "pool_size: ", &decimal_text(*pool_size as u64), "stride: ", &decimal_text(*stride as u64), "padding: ", &decimal_text(*padding as u64)),
        OpOf::AvgPool2d { pool_size, stride, padding } => text3("AvgPool2d", "pool_size: ", &decimal_text(*pool_size as u64), "stride: ", &decimal_text(*stride as u64), "padding: ", &decimal_text(*padding as u64)),
        OpOf::AvgPool2dGrad { pool_size, stride, padding } => text3("AvgPool2dGrad", "pool_size: ", &decimal_text(*pool_size as u64), "stride: ", &decimal_text(*stride as u64), "padding: ", &decimal_text(*padding as u64)),
        OpOf::Attention { scale: _ } => text1("Attention", "scale: ", x),
        OpOf::AttentionGradQ { scale: _ } => text1("AttentionGradQ", "scale: ", x),
        OpOf::AttentionGradK { scale: _ } => text1("AttentionGradK", "scale: ", x),
        OpOf::AttentionGradV { scale: _ } => text1("AttentionGradV", "scale: ", x),
        OpOf::CastF32ToF16 => String::from_str("CastF32ToF16"),
        OpOf::CastF16ToF32 => String::from_str("CastF16ToF32"),
        OpOf::CastF32ToBF16 => String::from_str("CastF32ToBF16"),
        OpOf::CastBF16ToF32 => String::from_str("CastBF16ToF32"),
        OpOf::CausalAttention { scale: _, num_heads } => text2("CausalAttention", "scale: ", x, "num_heads: ", &decimal_text(*num_heads as u64)),
        OpOf::MultiHeadAttention { scale: _, num_heads } => text2("MultiHeadAttention", "scale: ", x, "num_heads: ", &decimal_text(*num_heads as u64)),
        OpOf::FlashAttention { scale: _, causal } => text2("FlashAttention", "scale: ", x, "causal: ", &String::from_str(bool_text(*causal))),
        _ => String::new(),
    }
}

/// `x` may be the text of the number that the operation holds; without one it
/// does not matter.
pub open spec fn number_text<T: ScalarText>(t: T, op: OpView, x: Seq<char>) -> bool {
    match number_of(op) {
        Some(b) => exists|w: String| #[trigger] call_ensures(T::debug, (&t, b), w) && x == w@,
        None => x == Seq::<char>::empty(),
    }
}

/// The error for an unsupported operation.
pub open spec fn unsupported<T: ScalarText>(t: T, op: OpView, e: ErrorView) -> bool {
    exists|x: Seq<char>| #[trigger]
        number_text(t, op, x) && e == ErrorView::ExecutionError(
            "Unsupported WgpuBackend op: "@ + op_text(op, x),
        )
}

/// The expression of an elementwise operation.
pub open spec fn expr_of(op: OpView) -> Option<Expr> {
    match op {
        OpOf::Relu => Some(Expr::Relu(Box::new(Expr::Input(0)))),
        OpOf::Add => Some(Expr::Add(Box::new(Expr::Input(0)), Box::new(Expr::Input(1)))),
        OpOf::Sub => Some(Expr::Sub(Box::new(Expr::Input(0)), Box::new(Expr::Input(1)))),
        OpOf::Mul => Some(Expr::Mul(Box::new(Expr::Input(0)), Box::new(Expr::Input(1)))),
        OpOf::Div => Some(Expr::Div(Box::new(Expr::Input(0)), Box::new(Expr::Input(1)))),
        OpOf::Tanh => Some(Expr::Tanh(Box::new(Expr::Input(0)))),
        OpOf::Sigmoid => Some(Expr::Sigmoid(Box::new(Expr::Input(0)))),
        OpOf::Exp => Some(Expr::Exp(Box::new(Expr::Input(0)))),
        OpOf::Sqrt => Some(Expr::Sqrt(Box::new(Expr::Input(0)))),
        OpOf::Neg => Some(Expr::Neg(Box::new(Expr::Input(0)))),
        OpOf::Step => Some(Expr::Step(Box::new(Expr::Input(0)))),
        OpOf::BroadcastAdd { .. } => Some(Expr::Add(Box::new(Expr::Input(0)), Box::new(Expr::Input(1)))),
        OpOf::BroadcastMul { .. } => Some(Expr::Mul(Box::new(Expr::Input(0)), Box::new(Expr::Input(1)))),
        OpOf::BroadcastSub { .. } => Some(Expr::Sub(Box::new(Expr::Input(0)), Box::new(Expr::Input(1)))),
        OpOf::BroadcastDiv { .. } => Some(Expr::Div(Box::new(Expr::Input(0)), Box::new(Expr::Input(1)))),
        _ => None,
    }
}

/// The numbers of single-precision tensors.
pub open spec fn numbers_of(xs: Seq<TensorView>) -> Seq<Seq<u32>> {
    xs.map_values(|x: TensorView| x.singles())
}

/// Evaluating the expression of an operation at a place of its result is what
/// the operation has there: a sum, product, difference or quotient of two
/// inputs is that of the broadcast operands, and likewise for the other
/// elementwise operations.
///
/// Left out are differences, products and quotients without broadcasting of
/// tensors with the same count of elements in different shapes, such as
/// `[2, 3]` and `[3, 2]`: the operation takes their elements in order, the
/// expression by coordinates.
pub proof fn law_expression_of_operation(
    op: OpView,
    e: Expr,
    xs: Seq<TensorView>,
    s: SymTensor,
    i: usize,
)
    requires
        expr_of(op) == Some(e),
        forall|k: int| 0 <= k < xs.len() ==> (#[trigger] xs[k]).wf(),
        op_outcome(op, xs) == Outcome::Yields(s, false),
        op is Sub || op is Mul || op is Div ==> xs[0].shape == xs[1].shape,
        i < s.data.len(),
    ensures
        readable(e, numbers_of(xs), shapes_of(xs), s.shape, i),
        ast_value(e, numbers_of(xs), shapes_of(xs), s.shape, i) == s.data[i as int],
{
    reveal(elementwise_op_outcome);
    let ds = numbers_of(xs);
    let ss = shapes_of(xs);
    assert forall|k: int| 0 <= k < xs.len() implies can_read(
        ds[k],
        ss[k],
        s.shape,
        i,
    ) && read_at(ss[k], s.shape, i) == (if ss[k] == s.shape {
        i as int
    } else {
        broadcast_index(ss[k], s.shape, i as nat) as int
    }) by {
        assert(xs[k].wf());
        if ss[k] != s.shape {
            law_broadcast_operands(xs[0].shape, xs[1].shape);
            law_broadcasts_cover(ss[k], ds[k].len(), s.shape);
            assert(is_there(ss[k], ds[k].len(), s.shape, i as nat));
        }
    }
    if xs.len() > 0 && ss[0] == s.shape {
        law_broadcast_same_shape(ss[0], i as nat);
    }
    if xs.len() > 1 && ss[1] == s.shape {
        law_broadcast_same_shape(ss[1], i as nat);
    }
    reveal_with_fuel(readable, 3);
    reveal_with_fuel(ast_value, 3);
}

/// The expression of an elementwise operation.
fn expr_for(op: &Op) -> (e: Option<Expr>)
    ensures
        e == expr_of(op@),
{
    match op {
        OpOf::Relu => Some(Expr::Relu(Box::new(Expr::Input(0)))),
        OpOf::Add => Some(Expr::Add(Box::new(Expr::Input(0)), Box::new(Expr::Input(1)))),
        OpOf::Sub => Some(Expr::Sub(Box::new(Expr::Input(0)), Box::new(Expr::Input(1)))),
        OpOf::Mul => Some(Expr::Mul(Box::new(Expr::Input(0)), Box::new(Expr::Input(1)))),
        OpOf::Div => Some(Expr::Div(Box::new(Expr::Input(0)), Box::new(Expr::Input(1)))),
        OpOf::Tanh => Some(Expr::Tanh(Box::new(Expr::Input(0)))),
        OpOf::Sigmoid => Some(Expr::Sigmoid(Box::new(Expr::Input(0)))),
        OpOf::Exp => Some(Expr::Exp(Box::new(Expr::Input(0)))),
        OpOf::Sqrt => Some(Expr::Sqrt(Box::new(Expr::Input(0)))),
        OpOf::Neg => Some(Expr::Neg(Box::new(Expr::Input(0)))),
        OpOf::Step => Some(Expr::Step(Box::new(Expr::Input(0)))),
        OpOf::BroadcastAdd { .. } => Some(Expr::Add(Box::new(Expr::Input(0)), Box::new(Expr::Input(1)))),
        OpOf::BroadcastMul { .. } => Some(Expr::Mul(Box::new(Expr::Input(0)), Box::new(Expr::Input(1)))),
        OpOf::BroadcastSub { .. } => Some(Expr::Sub(Box::new(Expr::Input(0)), Box::new(Expr::Input(1)))),
        OpOf::BroadcastDiv { .. } => Some(Expr::Div(Box::new(Expr::Input(0)), Box::new(Expr::Input(1)))),
        _ => None,
    }
}

/// The operation broadcasts its operands.
pub open spec fn broadcasts(op: OpView) -> bool {
    op is BroadcastAdd || op is BroadcastMul || op is BroadcastSub || op is BroadcastDiv
}

fn is_broadcast(op: &Op) -> (r: bool)
    ensures
        r == broadcasts(op@),
{
    match op {
        OpOf::BroadcastAdd { .. } => true,
        OpOf::BroadcastMul { .. } => true,
        OpOf::BroadcastSub { .. } => true,
        OpOf::BroadcastDiv { .. } => true,
        _ => false,
    }
}

/// Sizes that the device cannot hold, or operands that are missing.
pub open spec fn no_fit() -> GpuPlan {
    match misfit() {
        Outcome::Fails(e) => GpuPlan::Fails(e),
        _ => arbitrary(),
    }
}

/// Operands that are not single precision.
pub open spec fn no_single() -> GpuPlan {
    match not_single() {
        Outcome::Fails(e) => GpuPlan::Fails(e),
        _ => arbitrary(),
    }
}

/// A kernel launch where there is one.
pub open spec fn run_plan(d: Option<DispatchView>, operands: nat, shape: Seq<usize>) -> GpuPlan {
    match d {
        Some(dispatch) => GpuPlan::Run { dispatch, operands, shape },
        None => no_fit(),
    }
}

/// The shapes of operands.
pub open spec fn shapes_of(xs: Seq<TensorView>) -> Seq<Seq<usize>> {
    Seq::new(xs.len(), |i: int| xs[i].shape)
}

/// What the device does for an elementwise operation.
pub open spec fn fused_step(op: OpView, expr: Expr, xs: Seq<TensorView>) -> GpuPlan {
    if !inputs_below(expr, xs.len()) {
        no_fit()
    } else if broadcasts(op) && broadcast_of(xs[0].shape, xs[1].shape) is None {
        GpuPlan::Fails(ErrorView::ExecutionError("Incompatible shapes for broadcast"@))
    } else {
        let shape = if broadcasts(op) {
            broadcast_of(xs[0].shape, xs[1].shape).unwrap()
        } else {
            xs[0].shape
        };
        match fused_plan(shapes_of(xs), shape) {
            Some(dispatch) => GpuPlan::Fused { expr, dispatch, shape },
            None => no_fit(),
        }
    }
}

/// What the device does for an operation.
pub open spec fn gpu_plan(op: OpView, xs: Seq<TensorView>) -> GpuPlan {
    match op {
        OpOf::Input(t) => GpuPlan::Ready(t),
        OpOf::MatMul => if xs.len() != 2 {
            GpuPlan::Fails(ErrorView::ExecutionError("MatMul requires exactly 2 inputs"@))
        } else {
            let (a, b) = (xs[0].shape, xs[1].shape);
            if a.len() != 2 || b.len() != 2 || a[1] != b[0] {
                GpuPlan::Fails(ErrorView::ShapeMismatch(matmul_mismatch(a, b)))
            } else if a[0] > u32::MAX || a[1] > u32::MAX || b[1] > u32::MAX {
                no_fit()
            } else {
                run_plan(
                    tiled_matmul_plan(
                        Kernel::MatMul,
                        a[0] as u32,
                        b[1] as u32,
                        a[1] as u32,
                        64,
                    ),
                    2,
                    seq![a[0], b[1]],
                )
            }
        },
        OpOf::Transpose => if xs.len() == 0 || xs[0].shape.len() < 2 || xs[0].shape[0] > u32::MAX
            || xs[0].shape[1] > u32::MAX {
            no_fit()
        } else {
            let d = xs[0].shape;
            run_plan(transpose_plan(d[0] as u32, d[1] as u32), 1, seq![d[1], d[0]])
        },
        OpOf::SumAll => if xs.len() == 0 {
            no_fit()
        } else {
            run_plan(Some(sum_all_plan()), 1, seq![1usize])
        },
        OpOf::SumDim { axis } => if xs.len() == 0 {
            no_fit()
        } else {
            run_plan(
                sum_dim_plan(xs[0].shape, axis),
                1,
                xs[0].shape.update(axis as int, 1),
            )
        },
        OpOf::Reshape { shape } => if xs.len() == 0 || !fits(shape) || numel(shape)
            != xs[0].data.len() {
            no_fit()
        } else {
            match xs[0].data {
                DataView::F32(d) => GpuPlan::Ready(single(d, shape)),
                DataView::F16(_) => no_single(),
            }
        },
        OpOf::Softmax => if xs.len() == 0 {
            no_fit()
        } else {
            run_plan(
                rows_plan(Kernel::Softmax, xs[0].shape, Seq::empty()),
                1,
                xs[0].shape,
            )
        },
        OpOf::SoftmaxGrad => if xs.len() < 2 {
            no_fit()
        } else {
            run_plan(
                rows_plan(Kernel::SoftmaxGrad, xs[0].shape, Seq::empty()),
                2,
                xs[0].shape,
            )
        },
        OpOf::RmsNorm { epsilon } => if xs.len() != 2 {
            GpuPlan::Fails(
                ErrorView::ExecutionError("RMSNorm requires exactly 2 inputs: x, weight"@),
            )
        } else {
            run_plan(
                rows_plan(Kernel::RmsNorm, xs[0].shape, seq![epsilon]),
                2,
                xs[0].shape,
            )
        },
        _ => match expr_of(op) {
            Some(expr) => fused_step(op, expr, xs),
            None => GpuPlan::Unsupported,
        },
    }
}

/// The result is what the device owes.
pub open spec fn gpu_step_is<T: ScalarText>(
    t: T,
    op: OpView,
    p: GpuPlan,
    r: Result<GpuStep, Error>,
) -> bool {
    match p {
        GpuPlan::Ready(x) => r matches Ok(GpuStep::Ready(y)) && y@ == x && y.wf(),
        GpuPlan::Run { dispatch: d, operands: n, shape: s } => r matches Ok(
            GpuStep::Run { dispatch, operands, shape },
        ) && dispatch@ == d && operands == n && shape@ == s,
        GpuPlan::Fused { expr: e, dispatch: d, shape: s } => r matches Ok(
            GpuStep::Fused { expr, dispatch, shape },
        ) && expr == e && dispatch@ == d && shape@ == s,
        GpuPlan::Fails(e) => r matches Err(x) && x@ == e,
        GpuPlan::Unsupported => r matches Err(x) && unsupported(t, op, x@),
    }
}

/// A kernel launch where there is one.
fn run_step(d: Option<Dispatch>, operands: usize, shape: Shape) -> (r: Result<GpuStep, Error>)
    ensures
        match d {
            Some(dispatch) => r == Ok::<GpuStep, Error>(
                GpuStep::Run { dispatch, operands, shape },
            ),
            None => r matches Err(e) && Outcome::Fails(e@) == misfit(),
        },
{
    match d {
        Some(dispatch) => Ok(GpuStep::Run { dispatch, operands, shape }),
        None => Err(misfit_error()),
    }
}

/// Chooses what the device does for a matrix product.
fn matmul_step<T: ScalarText>(t: &T, inputs: &[&Tensor]) -> (r: Result<GpuStep, Error>)
    ensures
        gpu_step_is(
            *t,
            OpOf::MatMul,
            gpu_plan(OpOf::MatMul, operand_views(inputs@)),
            r,
        ),
{
    if inputs.len() != 2 {
        return Err(execution_error("MatMul requires exactly 2 inputs"));
    }
    let a = &inputs[0].shape.dims;
    let b = &inputs[1].shape.dims;
    if a.len() != 2 || b.len() != 2 || a[1] != b[0] {
        let mut message = String::from_str("MatMul shape mismatch: ");
        push_bracketed(&mut message, a);
        message.append(" and ");
        push_bracketed(&mut message, b);
        proof {
            assert(message@ =~= matmul_mismatch(a@, b@));
        }
        return Err(Error::ShapeMismatch(message));
    }
    match (small(a[0]), small(b[1]), small(a[1])) {
        (Some(m), Some(n), Some(k)) => {
            let shape = Shape::new(vec![a[0], b[1]]);
            proof {
                assert(shape@ =~= seq![a@[0], b@[1]]);
            }
            run_step(plan_tiled_matmul(Kernel::MatMul, m, n, k, 64), 2, shape)
        },
        _ => Err(misfit_error()),
    }
}

/// Chooses what the device does for an elementwise operation.
fn choose_fused<T: ScalarText>(t: &T, op: &Op, expr: Expr, inputs: &[&Tensor]) -> (r:
    Result<GpuStep, Error>)
    requires
        expr_of(op@) == Some(expr),
    ensures
        gpu_step_is(*t, op@, fused_step(op@, expr, operand_views(inputs@)), r),
{
    let ghost xs = operand_views(inputs@);
    if !expr.uses_below(inputs.len()) {
        return Err(misfit_error());
    }
    proof {
        reveal_with_fuel(inputs_below, 3);
    }
    let shape: Shape = if is_broadcast(op) {
        match broadcast_shapes(&inputs[0].shape.dims, &inputs[1].shape.dims) {
            Some(dims) => Shape::new(dims),
            None => {
                return Err(execution_error("Incompatible shapes for broadcast"));
            },
        }
    } else {
        inputs[0].shape.copy()
    };
    let mut shapes: Vec<Shape> = Vec::new();
    for i in 0..inputs.len()
        invariant
            shapes@.len() == i,
            forall|j: int| 0 <= j < i ==> (#[trigger] shapes@[j])@ == inputs@[j]@.shape,
    {
        shapes.push(inputs[i].shape.copy());
    }
    proof {
        assert(shape_views(shapes@) =~= shapes_of(xs));
    }
    match plan_fused(&shapes, &shape) {
        Some(dispatch) => Ok(GpuStep::Fused { expr, dispatch, shape }),
        None => Err(misfit_error()),
    }
}

/// Chooses what the device does for an operation.
pub fn gpu_step<T: ScalarText>(t: &T, op: &Op, inputs: &[&Tensor]) -> (r: Result<GpuStep, Error>)
    requires
        op.wf(),
        operands_wf(inputs@),
    ensures
        gpu_step_is(*t, op@, gpu_plan(op@, operand_views(inputs@)), r),
{
    let ghost xs = operand_views(inputs@);
    match op {
        OpOf::Input(x) => Ok(GpuStep::Ready(x.copy())),
        OpOf::MatMul => matmul_step(t, inputs),
        OpOf::Transpose => {
            if inputs.len() == 0 || inputs[0].shape.dims.len() < 2 {
                return Err(misfit_error());
            }
            let d = &inputs[0].shape.dims;
            match (small(d[0]), small(d[1])) {
                (Some(m), Some(n)) => {
                    let shape = Shape::new(vec![d[1], d[0]]);
                    proof {
                        assert(shape@ =~= seq![d@[1], d@[0]]);
                    }
                    run_step(plan_transpose(m, n), 1, shape)
                },
                _ => Err(misfit_error()),
            }
        },
        OpOf::SumAll => {
            if inputs.len() == 0 {
                return Err(misfit_error());
            }
            let shape = Shape::new(vec![1]);
            proof {
                assert(shape@ =~= seq![1usize]);
            }
            run_step(Some(plan_sum_all()), 1, shape)
        },
        OpOf::SumDim { axis } => {
            if inputs.len() == 0 {
                return Err(misfit_error());
            }
            let dims = &inputs[0].shape.dims;
            match plan_sum_dim(dims, *axis) {
                Some(d) => {
                    let mut out: Vec<usize> = copy_dims(dims);
                    out.set(*axis, 1);
                    run_step(Some(d), 1, Shape::new(out))
                },
                None => Err(misfit_error()),
            }
        },
        OpOf::Reshape { shape } => {
            if inputs.len() == 0 {
                return Err(misfit_error());
            }
            let n: usize = match checked_numel(&shape.dims) {
                Some(n) => n,
                None => {
                    return Err(misfit_error());
                },
            };
            match &inputs[0].data {
                AnyData::F32(d) => {
                    if d.len() != n {
                        return Err(misfit_error());
                    }
                    Ok(GpuStep::Ready(Tensor::new(copy_words(d), shape.copy())))
                },
                AnyData::F16(h) => {
                    if h.len() != n {
                        return Err(misfit_error());
                    }
                    Err(not_single_error())
                },
            }
        },
        OpOf::Softmax => {
            if inputs.len() == 0 {
                return Err(misfit_error());
            }
            let none: Vec<u32> = Vec::new();
            run_step(
                plan_rows(Kernel::Softmax, &inputs[0].shape.dims, &none),
                1,
                inputs[0].shape.copy(),
            )
        },
        OpOf::SoftmaxGrad => {
            if inputs.len() < 2 {
                return Err(misfit_error());
            }
            let none: Vec<u32> = Vec::new();
            run_step(
                plan_rows(Kernel::SoftmaxGrad, &inputs[0].shape.dims, &none),
                2,
                inputs[0].shape.copy(),
            )
        },
        OpOf::RmsNorm { epsilon } => {
            if inputs.len() != 2 {
                return Err(execution_error("RMSNorm requires exactly 2 inputs: x, weight"));
            }
            let more: Vec<u32> = vec![*epsilon];
            proof {
                assert(more@ =~= seq![*epsilon]);
            }
            run_step(
                plan_rows(Kernel::RmsNorm, &inputs[0].shape.dims, &more),
                2,
                inputs[0].shape.copy(),
            )
        },
        _ => match expr_for(op) {
            Some(expr) => choose_fused(t, op, expr, inputs),
            None => {
                let x: String = match number_in(op) {
                    Some(b) => {
                        let w = t.debug(b);
                        proof {
                            assert(call_ensures(T::debug, (t, b), w));
                        }
                        w
                    },
                    None => String::new(),
                };
                let mut message = String::from_str("Unsupported WgpuBackend op: ");
                message.append(op_text_of(op, &x).as_str());
                proof {
                    assert(number_text(*t, op@, x@));
                }
                Err(Error::ExecutionError(message))
            },
        },
    }
}

} // verus!
