//! Operations of the host's backend that write into a buffer of the caller.

use crate::backend::cpu::CpuBackend;
use crate::backend::dispatch::{elementwise_op_outcome, op_outcome};
use crate::backend::Backend;
use crate::blas::{entry, sgemm, stored, Gemm};
use crate::codegen::ast::{
    ast_value, buffers, can_read, evaluate_ast, inputs_below, lemma_readable, Expr,
};
use crate::error::{Error, ErrorView};
use crate::float::{
    bits, computes, computes_all, greater, gt, leaves, Float, Fx, ONE, ZERO,
};
use crate::kernels::elementwise::{
    apply_binary, binary_of, broadcast_data, broadcast_elements, map1, map2, map_binary, map_unary,
    Binary, Unary,
};
use crate::kernels::movement::{lemma_row_major, lemma_split};
use crate::op::{Op, OpOf, OpView};
use crate::shape::{
    all_positive, broadcast_position, checked_numel, checked_strides, covers, fits,
    law_broadcast_operands, law_broadcasts_cover, numel, stride, strides_fit, unravel, Shape,
};
use crate::sym::{
    misfit, misfit_error, operand_views, product_failed, realized, Outcome, SymTensor,
};
use crate::tensor::{copy_words, single, AnyData, Tensor, TensorView};
use vstd::prelude::*;

verus! {

/// The largest number of axes of a broadcast into a buffer.
pub const MAX_AXES: usize = 8;

/// The expressions have been written to the front of a buffer; the rest is as
/// it was.
pub open spec fn wrote<F: Float>(f: F, es: Seq<Fx>, before: Seq<u32>, after: Seq<u32>) -> bool {
    &&& after.len() == before.len()
    &&& es.len() <= before.len()
    &&& forall|i: int| 0 <= i < es.len() ==> computes(f, es[i], #[trigger] after[i])
    &&& forall|i: int| es.len() <= i < before.len() ==> #[trigger] after[i] == before[i]
}

/// The buffer is as it was, and the error says that the sizes do not fit.
pub open spec fn refused(before: Seq<u32>, after: Seq<u32>, r: Result<(), Error>) -> bool {
    after == before && (r matches Err(e) && Outcome::Fails(e@) == misfit())
}

/// The matrix product of row-major operands, onto `beta` times the buffer.
pub open spec fn plain_gemm(m: usize, k: usize, n: usize, beta: u32) -> Gemm {
    Gemm { trans_a: false, trans_b: false, m, n, k, alpha: ONE, lda: k, ldb: n, beta, ldc: n }
}

/// The entries of a matrix product, row by row.
pub open spec fn gemm_elements(g: Gemm, a: Seq<u32>, b: Seq<u32>, c: Seq<u32>) -> Seq<Fx> {
    Seq::new(
        (g.m * g.n) as nat,
        |p: int| g.value(leaves(a), leaves(b), leaves(c), p / g.n as int, p % g.n as int),
    )
}

/// The sizes of a matrix product fit its operands and the buffer.
pub open spec fn gemm_fits(m: usize, k: usize, n: usize, a: nat, b: nat, c: nat) -> bool {
    m * k <= a && k * n <= b && m * n <= c
}

/// A row-major matrix that is as long as its size says is stored.
proof fn lemma_stored(rows: usize, cols: usize, len: int)
    requires
        rows * cols <= len,
    ensures
        stored(false, cols as int, rows as int, cols as int, len),
{
    assert forall|i: int, j: int| 0 <= i < rows && 0 <= j < cols implies 0 <= #[trigger] entry(
        false,
        cols as int,
        i,
        j,
    ) < len by {
        lemma_row_major(i, j, rows as int, cols as int);
    }
}

/// Computes a matrix product into the front of a buffer.
fn product_into<F: Float>(
    f: &F,
    m: usize,
    k: usize,
    n: usize,
    a: &Vec<u32>,
    b: &Vec<u32>,
    beta: u32,
    c: &mut Vec<u32>,
)
    requires
        gemm_fits(m, k, n, a@.len(), b@.len(), old(c)@.len()),
    ensures
        wrote(
            *f,
            gemm_elements(plain_gemm(m, k, n, beta), a@, b@, old(c)@),
            old(c)@,
            final(c)@,
        ),
{
    let ghost g = plain_gemm(m, k, n, beta);
    let ghost before = c@;
    proof {
        lemma_stored(m, k, a@.len() as int);
        lemma_stored(k, n, b@.len() as int);
        lemma_stored(m, n, c@.len() as int);
    }
    sgemm(f, false, false, m, n, k, ONE, a, k, b, n, beta, c, n);
    proof {
        let es = gemm_elements(g, a@, b@, before);
        assert forall|p: int| 0 <= p < es.len() implies computes(*f, es[p], #[trigger] c@[p]) by {
            lemma_split(p, m as int, n as int);
            assert(p == g.at(p / n as int, p % n as int));
        }
        assert forall|p: int| es.len() <= p < before.len() implies #[trigger] c@[p]
            == before[p] by {
            if g.covers(p) {
                let (i, j) = choose|i: int, j: int|
                    0 <= i < g.m && 0 <= j < g.n && p == #[trigger] g.at(i, j);
                lemma_row_major(i, j, m as int, n as int);
            }
        }
    }
}

/// Whether the sizes of a matrix product fit.
fn check_gemm(m: usize, k: usize, n: usize, a: usize, b: usize, c: usize) -> (ok: bool)
    ensures
        ok == gemm_fits(m, k, n, a as nat, b as nat, c as nat),
{
    match (m.checked_mul(k), k.checked_mul(n), m.checked_mul(n)) {
        (Some(x), Some(y), Some(z)) => x <= a && y <= b && z <= c,
        _ => false,
    }
}

/// Writes numbers to the front of a buffer.
fn write_front(out: &mut Vec<u32>, data: &Vec<u32>)
    requires
        data@.len() <= old(out)@.len(),
    ensures
        final(out)@ == data@ + old(out)@.skip(data@.len() as int),
{
    let ghost before = out@;
    for i in 0..data.len()
        invariant
            data@.len() <= before.len(),
            out@.len() == before.len(),
            forall|j: int| 0 <= j < i ==> #[trigger] out@[j] == data@[j],
            forall|j: int| i <= j < before.len() ==> #[trigger] out@[j] == before[j],
    {
        out.set(i, data[i]);
    }
    proof {
        assert(out@ =~= data@ + before.skip(data@.len() as int));
    }
}

/// Two buffers, read as tensors, can be combined into a third: whatever is read
/// of them is there, and so is the room for the result.
pub open spec fn broadcast_fits(
    lhs: Seq<u32>,
    lhs_shape: Seq<usize>,
    rhs: Seq<u32>,
    rhs_shape: Seq<usize>,
    out: Seq<u32>,
    out_shape: Seq<usize>,
) -> bool {
    &&& out_shape.len() <= MAX_AXES
    &&& fits(out_shape) && numel(out_shape) <= out.len()
    &&& covers(lhs_shape, lhs.len(), out_shape)
    &&& covers(rhs_shape, rhs.len(), out_shape)
}

/// Combines two buffers, read as tensors that are broadcast to the shape of
/// the output.
fn broadcast_op_slices<F: Float>(
    f: &F,
    k: Binary,
    lhs: &Vec<u32>,
    lhs_shape: &Shape,
    rhs: &Vec<u32>,
    rhs_shape: &Shape,
    out: &mut Vec<u32>,
    out_shape: &Shape,
) -> (r: Result<(), Error>)
    ensures
        if broadcast_fits(lhs@, lhs_shape@, rhs@, rhs_shape@, old(out)@, out_shape@) {
            r is Ok && wrote(
                *f,
                broadcast_elements(k, lhs@, lhs_shape@, rhs@, rhs_shape@, out_shape@),
                old(out)@,
                final(out)@,
            )
        } else {
            refused(old(out)@, final(out)@, r)
        },
{
    let out_fits: bool = match checked_numel(&out_shape.dims) {
        Some(n) => n <= out.len(),
        None => false,
    };
    if out_shape.dims.len() > MAX_AXES || !out_fits {
        return Err(misfit_error());
    }
    let op = |a: u32, b: u32| -> (r: u32)
        ensures
            computes(*f, binary_of(k, bits(a), bits(b)), r),
        { apply_binary(f, k, a, b, Ghost(bits(a)), Ghost(bits(b))) };
    let data: Vec<u32> = match broadcast_data(
        lhs,
        &lhs_shape.dims,
        rhs,
        &rhs_shape.dims,
        &out_shape.dims,
        &op,
    ) {
        Some(d) => d,
        None => {
            return Err(misfit_error());
        },
    };
    let ghost es = broadcast_elements(k, lhs@, lhs_shape@, rhs@, rhs_shape@, out_shape@);
    let ghost before = out@;
    write_front(out, &data);
    proof {
        assert forall|i: int| 0 <= i < es.len() implies computes(*f, es[i], #[trigger] out@[i]) by {
            assert(out@[i] == data@[i]);
        }
        assert forall|i: int| es.len() <= i < before.len() implies #[trigger] out@[i]
            == before[i] by {}
    }
    Ok(())
}

/// The elementwise operation of one operand that an operation is.
pub open spec fn unary_kind(op: OpView) -> Option<Unary> {
    match op {
        OpOf::Relu => Some(Unary::Relu),
        OpOf::Tanh => Some(Unary::Tanh),
        OpOf::Sigmoid => Some(Unary::Sigmoid),
        OpOf::Exp => Some(Unary::Exp),
        OpOf::Sqrt => Some(Unary::Sqrt),
        OpOf::Neg => Some(Unary::Neg),
        _ => None,
    }
}

/// The elementwise operation of two operands that an operation is.
pub open spec fn binary_kind(op: OpView) -> Option<Binary> {
    match op {
        OpOf::Add => Some(Binary::Add),
        OpOf::Sub => Some(Binary::Sub),
        OpOf::Mul => Some(Binary::Mul),
        OpOf::Div => Some(Binary::Div),
        _ => None,
    }
}

/// The operation on broadcast operands that an operation is.
pub open spec fn broadcast_kind(op: OpView) -> Option<Binary> {
    match op {
        OpOf::BroadcastAdd { .. } => Some(Binary::Add),
        OpOf::BroadcastSub { .. } => Some(Binary::Sub),
        OpOf::BroadcastMul { .. } => Some(Binary::Mul),
        OpOf::BroadcastDiv { .. } => Some(Binary::Div),
        _ => None,
    }
}

fn unary_kind_of(op: &Op) -> (k: Option<Unary>)
    ensures
        k == unary_kind(op@),
{
    match op {
        OpOf::Relu => Some(Unary::Relu),
        OpOf::Tanh => Some(Unary::Tanh),
        OpOf::Sigmoid => Some(Unary::Sigmoid),
        OpOf::Exp => Some(Unary::Exp),
        OpOf::Sqrt => Some(Unary::Sqrt),
        OpOf::Neg => Some(Unary::Neg),
        _ => None,
    }
}

fn binary_kind_of(op: &Op) -> (k: Option<Binary>)
    ensures
        k == binary_kind(op@),
{
    match op {
        OpOf::Add => Some(Binary::Add),
        OpOf::Sub => Some(Binary::Sub),
        OpOf::Mul => Some(Binary::Mul),
        OpOf::Div => Some(Binary::Div),
        _ => None,
    }
}

fn broadcast_kind_of(op: &Op) -> (k: Option<Binary>)
    ensures
        k == broadcast_kind(op@),
{
    match op {
        OpOf::BroadcastAdd { .. } => Some(Binary::Add),
        OpOf::BroadcastSub { .. } => Some(Binary::Sub),
        OpOf::BroadcastMul { .. } => Some(Binary::Mul),
        OpOf::BroadcastDiv { .. } => Some(Binary::Div),
        _ => None,
    }
}

/// How many buffers have a shape.
pub open spec fn pairs(xs: Seq<Seq<u32>>, shapes: Seq<Seq<usize>>) -> nat {
    if xs.len() < shapes.len() {
        xs.len()
    } else {
        shapes.len()
    }
}

/// Every buffer that has a shape holds as many numbers as the shape says.
pub open spec fn tensors_fit(xs: Seq<Seq<u32>>, shapes: Seq<Seq<usize>>) -> bool {
    forall|i: int|
        0 <= i < pairs(xs, shapes) ==> fits(#[trigger] shapes[i]) && numel(shapes[i])
            == xs[i].len()
}

/// The buffers that have a shape, as tensors.
pub open spec fn as_tensors(xs: Seq<Seq<u32>>, shapes: Seq<Seq<usize>>) -> Seq<TensorView> {
    Seq::new(pairs(xs, shapes), |i: int| single(xs[i], shapes[i]))
}

/// The shapes of a matrix product of the first two buffers.
pub open spec fn are_matrices(xs: Seq<Seq<u32>>, shapes: Seq<Seq<usize>>) -> bool {
    xs.len() >= 2 && shapes.len() >= 2 && shapes[0].len() >= 2 && shapes[1].len() >= 2
}

/// What the general path does: the operation is computed as on tensors, and
/// its result must be as long as the buffer.
pub open spec fn copied_result<F: Float>(
    f: F,
    o: Outcome,
    before: Seq<u32>,
    after: Seq<u32>,
    r: Result<(), Error>,
) -> bool {
    match o {
        Outcome::Fails(e) => after == before && (r matches Err(x) && x@ == e),
        Outcome::Copies(t) => if t.data is F32 && t.singles().len() == before.len() {
            r is Ok && after == t.singles()
        } else {
            refused(before, after, r)
        },
        Outcome::Yields(s, products) => {
            ||| products && product_failed(f) && after == before && (r matches Err(e) && e@
                == ErrorView::ExecutionError("Matrix product has the wrong size"@))
            ||| if s.half is None && s.data.len() == before.len() {
                r is Ok && wrote(f, s.data, before, after)
            } else {
                refused(before, after, r)
            }
        },
    }
}

/// What an operation on buffers does: the buffer `before` becomes `after`.
pub open spec fn ran_on_slices<F: Float>(
    f: F,
    op: OpView,
    xs: Seq<Seq<u32>>,
    shapes: Seq<Seq<usize>>,
    out_shape: Seq<usize>,
    before: Seq<u32>,
    after: Seq<u32>,
    r: Result<(), Error>,
) -> bool {
    if op is Input {
        r is Ok && after == before
    } else if op is MatMul {
        if are_matrices(xs, shapes) && gemm_fits(
            shapes[0][0],
            shapes[0][1],
            shapes[1][1],
            xs[0].len(),
            xs[1].len(),
            before.len(),
        ) {
            r is Ok && wrote(
                f,
                gemm_elements(
                    plain_gemm(shapes[0][0], shapes[0][1], shapes[1][1], ZERO),
                    xs[0],
                    xs[1],
                    before,
                ),
                before,
                after,
            )
        } else {
            refused(before, after, r)
        }
    } else if unary_kind(op) is Some {
        if xs.len() >= 1 && xs[0].len() == before.len() {
            r is Ok && wrote(f, map_unary(unary_kind(op).unwrap(), xs[0]), before, after)
        } else {
            refused(before, after, r)
        }
    } else if binary_kind(op) is Some {
        if xs.len() >= 2 && xs[0].len() == before.len() && xs[1].len() == before.len() {
            r is Ok && wrote(
                f,
                map_binary(binary_kind(op).unwrap(), xs[0], xs[1]),
                before,
                after,
            )
        } else {
            refused(before, after, r)
        }
    } else if broadcast_kind(op) is Some {
        if xs.len() >= 2 && shapes.len() >= 2 && broadcast_fits(
            xs[0],
            shapes[0],
            xs[1],
            shapes[1],
            before,
            out_shape,
        ) {
            r is Ok && wrote(
                f,
                broadcast_elements(
                    broadcast_kind(op).unwrap(),
                    xs[0],
                    shapes[0],
                    xs[1],
                    shapes[1],
                    out_shape,
                ),
                before,
                after,
            )
        } else {
            refused(before, after, r)
        }
    } else if tensors_fit(xs, shapes) {
        copied_result(f, op_outcome(op, as_tensors(xs, shapes)), before, after, r)
    } else {
        refused(before, after, r)
    }
}

/// On buffers that fit their shapes, an operation writes what it computes on
/// tensors into a buffer of the right length. Matrix products, which are
/// computed in another order, and broadcasts over more than eight axes are
/// left out; where the host loses a product, the buffer is left as it is.
pub proof fn law_slices_agree_with_tensors<F: Float>(
    f: F,
    op: OpView,
    xs: Seq<Seq<u32>>,
    shapes: Seq<Seq<usize>>,
    s: SymTensor,
    products: bool,
    before: Seq<u32>,
    after: Seq<u32>,
    r: Result<(), Error>,
)
    requires
        !(op is MatMul),
        tensors_fit(xs, shapes),
        op_outcome(op, as_tensors(xs, shapes)) == Outcome::Yields(s, products),
        s.half is None,
        s.data.len() == before.len(),
        s.shape.len() <= MAX_AXES,
        ran_on_slices(f, op, xs, shapes, s.shape, before, after, r),
    ensures
        (r is Ok && wrote(f, s.data, before, after)) || (products && product_failed(f) && r is Err
            && after == before),
{
    let ts = as_tensors(xs, shapes);
    if unary_kind(op) is Some || binary_kind(op) is Some || broadcast_kind(op) is Some {
        reveal(elementwise_op_outcome);
        if ts.len() >= 2 {
            assert(ts[0] == single(xs[0], shapes[0]));
            assert(ts[1] == single(xs[1], shapes[1]));
            assert(fits(shapes[0]) && fits(shapes[1]));
            if broadcast_kind(op) is Some {
                law_broadcast_operands(shapes[0], shapes[1]);
                law_broadcasts_cover(shapes[0], xs[0].len(), s.shape);
                law_broadcasts_cover(shapes[1], xs[1].len(), s.shape);
            }
        } else if ts.len() == 1 {
            assert(ts[0] == single(xs[0], shapes[0]));
        }
    }
}

/// The buffers that have a shape as tensors, if every one fits its shape.
fn tensors_of(inputs: &[&Vec<u32>], shapes: &[Shape]) -> (r: Option<Vec<Tensor>>)
    ensures
        match r {
            Some(ts) => {
                &&& tensors_fit(buffers(inputs@), crate::op::shape_views(shapes@))
                &&& ts@.len() == pairs(buffers(inputs@), crate::op::shape_views(shapes@))
                &&& forall|i: int|
                    0 <= i < ts@.len() ==> (#[trigger] ts@[i]).wf() && ts@[i]@ == single(
                        inputs@[i]@,
                        shapes@[i]@,
                    )
            },
            None => !tensors_fit(buffers(inputs@), crate::op::shape_views(shapes@)),
        },
{
    let ghost xs = buffers(inputs@);
    let ghost ss = crate::op::shape_views(shapes@);
    let count: usize = if inputs.len() < shapes.len() {
        inputs.len()
    } else {
        shapes.len()
    };
    let mut ts: Vec<Tensor> = Vec::new();
    for i in 0..count
        invariant
            xs == buffers(inputs@),
            ss == crate::op::shape_views(shapes@),
            count == pairs(xs, ss),
            count <= inputs@.len(),
            count <= shapes@.len(),
            ts@.len() == i,
            forall|j: int|
                0 <= j < i ==> fits(#[trigger] ss[j]) && numel(ss[j]) == xs[j].len(),
            forall|j: int|
                0 <= j < i ==> (#[trigger] ts@[j]).wf() && ts@[j]@ == single(
                    inputs@[j]@,
                    shapes@[j]@,
                ),
    {
        proof {
            assert(ss[i as int] == shapes@[i as int]@);
            assert(xs[i as int] == inputs@[i as int]@);
        }
        match checked_numel(&shapes[i].dims) {
            Some(n) => {
                if n != inputs[i].len() {
                    return None;
                }
            },
            None => {
                return None;
            },
        }
        ts.push(Tensor::new(copy_words(inputs[i]), shapes[i].copy()));
    }
    Some(ts)
}

/// References to the tensors of a list.
fn refs_of(ts: &Vec<Tensor>) -> (refs: Vec<&Tensor>)
    ensures
        refs@.len() == ts@.len(),
        forall|i: int| 0 <= i < ts@.len() ==> *(#[trigger] refs@[i]) == ts@[i],
{
    let mut refs: Vec<&Tensor> = Vec::new();
    for i in 0..ts.len()
        invariant
            refs@.len() == i,
            forall|j: int| 0 <= j < i ==> *(#[trigger] refs@[j]) == ts@[j],
    {
        refs.push(&ts[i]);
    }
    refs
}

/// `x` where it is not below zero, else zero.
pub open spec fn clamped(x: Fx) -> Fx {
    Fx::IfGreater(Box::new(bits(ZERO)), Box::new(x), Box::new(bits(ZERO)), Box::new(x))
}

impl<F: Float> CpuBackend<F> {
    /// Computes an operation on buffers into a buffer.
    ///
    /// Where buffers and shapes do not fit the operation, the buffer is left
    /// as it is and an error is returned.
    pub fn execute_slices(
        &self,
        op: &Op,
        inputs: &[&Vec<u32>],
        input_shapes: &[Shape],
        output: &mut Vec<u32>,
        output_shape: &Shape,
    ) -> (r: Result<(), Error>)
        requires
            op.wf(),
        ensures
            ran_on_slices(
                self.float,
                op@,
                buffers(inputs@),
                crate::op::shape_views(input_shapes@),
                output_shape@,
                old(output)@,
                final(output)@,
                r,
            ),
    {
        let f = &self.float;
        let ghost xs = buffers(inputs@);
        let ghost ss = crate::op::shape_views(input_shapes@);
        proof {
            assert(forall|i: int| 0 <= i < xs.len() ==> #[trigger] xs[i] == inputs@[i]@);
            assert(forall|i: int| 0 <= i < ss.len() ==> #[trigger] ss[i] == input_shapes@[i]@);
        }
        match op {
            OpOf::Input(_) => {
                return Ok(());
            },
            OpOf::MatMul => {
                if inputs.len() < 2 || input_shapes.len() < 2 || input_shapes[0].dims.len() < 2
                    || input_shapes[1].dims.len() < 2 {
                    return Err(misfit_error());
                }
                let m: usize = input_shapes[0].dims[0];
                let k: usize = input_shapes[0].dims[1];
                let n: usize = input_shapes[1].dims[1];
                if !check_gemm(m, k, n, inputs[0].len(), inputs[1].len(), output.len()) {
                    return Err(misfit_error());
                }
                product_into(f, m, k, n, inputs[0], inputs[1], ZERO, output);
                return Ok(());
            },
            _ => {},
        }
        if let Some(k) = unary_kind_of(op) {
            if inputs.len() < 1 || inputs[0].len() != output.len() {
                return Err(misfit_error());
            }
            *output = map1(f, k, inputs[0]);
            return Ok(());
        }
        if let Some(k) = binary_kind_of(op) {
            if inputs.len() < 2 || inputs[0].len() != output.len() || inputs[1].len()
                != output.len() {
                return Err(misfit_error());
            }
            *output = map2(f, k, inputs[0], inputs[1]);
            return Ok(());
        }
        if let Some(k) = broadcast_kind_of(op) {
            if inputs.len() < 2 || input_shapes.len() < 2 {
                return Err(misfit_error());
            }
            return broadcast_op_slices(
                f,
                k,
                inputs[0],
                &input_shapes[0],
                inputs[1],
                &input_shapes[1],
                output,
                output_shape,
            );
        }
        let tensors = match tensors_of(inputs, input_shapes) {
            Some(ts) => ts,
            None => {
                return Err(misfit_error());
            },
        };
        let refs = refs_of(&tensors);
        proof {
            assert(operand_views(refs@) =~= as_tensors(xs, ss));
        }
        let result = self.execute(op, refs.as_slice());
        let ghost o = op_outcome(op@, as_tensors(xs, ss));
        proof {
            assert(realized(self.float, o, result));
        }
        match result {
            Ok(t) => match t.data {
                AnyData::F32(d) => {
                    if d.len() == output.len() {
                        *output = d;
                        Ok(())
                    } else {
                        Err(misfit_error())
                    }
                },
                AnyData::F16(_) => Err(misfit_error()),
            },
            Err(e) => Err(e),
        }
    }

    /// The matrix product of two buffers, without its negative numbers, into a
    /// buffer.
    pub fn execute_matmul_relu_slices(
        &self,
        a: &Vec<u32>,
        a_shape: &Shape,
        b: &Vec<u32>,
        b_shape: &Shape,
        output: &mut Vec<u32>,
    ) -> (r: Result<(), Error>)
        ensures
            if a_shape@.len() >= 2 && b_shape@.len() >= 2 && gemm_fits(
                a_shape@[0],
                a_shape@[1],
                b_shape@[1],
                a@.len(),
                b@.len(),
                old(output)@.len(),
            ) {
                let es = gemm_elements(
                    plain_gemm(a_shape@[0], a_shape@[1], b_shape@[1], ZERO),
                    a@,
                    b@,
                    old(output)@,
                );
                &&& r is Ok
                &&& computes_all(
                    self.float,
                    Seq::new(
                        old(output)@.len(),
                        |i: int|
                            clamped(
                                if i < es.len() {
                                    es[i]
                                } else {
                                    bits(old(output)@[i])
                                },
                            ),
                    ),
                    final(output)@,
                )
            } else {
                refused(old(output)@, final(output)@, r)
            },
    {
        if a_shape.dims.len() < 2 || b_shape.dims.len() < 2 {
            return Err(misfit_error());
        }
        let m: usize = a_shape.dims[0];
        let k: usize = a_shape.dims[1];
        let n: usize = b_shape.dims[1];
        if !check_gemm(m, k, n, a.len(), b.len(), output.len()) {
            return Err(misfit_error());
        }
        let f = &self.float;
        let ghost before = output@;
        product_into(f, m, k, n, a, b, ZERO, output);
        let ghost es = gemm_elements(plain_gemm(m, k, n, ZERO), a@, b@, before);
        let ghost whole = Seq::new(
            before.len(),
            |i: int|
                if i < es.len() {
                    es[i]
                } else {
                    bits(before[i])
                },
        );
        let ghost raw = output@;
        proof {
            assert forall|i: int| 0 <= i < whole.len() implies computes(
                *f,
                whole[i],
                #[trigger] raw[i],
            ) by {
                if i >= es.len() {
                    assert(raw[i] == before[i]);
                }
            }
        }
        let size: usize = output.len();
        for i in 0..size
            invariant
                size == output@.len() == raw.len() == whole.len(),
                computes_all(*f, whole, raw),
                forall|j: int|
                    0 <= j < i ==> computes(*f, clamped(whole[j]), #[trigger] output@[j]),
                forall|j: int| i <= j < raw.len() ==> #[trigger] output@[j] == raw[j],
        {
            let x: u32 = output[i];
            let below: bool = gt(ZERO, x);
            if below {
                output.set(i, ZERO);
            }
            proof {
                assert(x == raw[i as int]);
                assert(computes(*f, whole[i as int], raw[i as int]));
                assert(computes(*f, bits(ZERO), ZERO));
                assert(below == greater(ZERO, x));
                assert(computes(*f, clamped(whole[i as int]), output@[i as int]));
            }
        }
        Ok(())
    }

    /// The matrix product of two buffers plus a bias for every row, into a
    /// buffer.
    pub fn execute_matmul_add_slices(
        &self,
        a: &Vec<u32>,
        a_shape: &Shape,
        b: &Vec<u32>,
        b_shape: &Shape,
        bias: &Vec<u32>,
        output: &mut Vec<u32>,
    ) -> (r: Result<(), Error>)
        ensures
            if a_shape@.len() >= 2 && b_shape@.len() >= 2 && gemm_fits(
                a_shape@[0],
                a_shape@[1],
                b_shape@[1],
                a@.len(),
                b@.len(),
                old(output)@.len(),
            ) && (a_shape@[0] > 0 ==> bias@.len() == b_shape@[1]) {
                r is Ok && wrote(
                    self.float,
                    gemm_elements(
                        plain_gemm(a_shape@[0], a_shape@[1], b_shape@[1], ONE),
                        a@,
                        b@,
                        bias_rows(bias@, a_shape@[0] as int, b_shape@[1] as int),
                    ),
                    old(output)@,
                    final(output)@,
                )
            } else {
                refused(old(output)@, final(output)@, r)
            },
    {
        if a_shape.dims.len() < 2 || b_shape.dims.len() < 2 {
            return Err(misfit_error());
        }
        let m: usize = a_shape.dims[0];
        let k: usize = a_shape.dims[1];
        let n: usize = b_shape.dims[1];
        if !check_gemm(m, k, n, a.len(), b.len(), output.len()) || (m > 0 && bias.len() != n) {
            return Err(misfit_error());
        }
        let f = &self.float;
        let ghost before = output@;
        let ghost rows = bias_rows(bias@, m as int, n as int);
        let count: usize = m * n;
        for p in 0..count
            invariant
                count == m * n,
                m > 0 ==> bias@.len() == n,
                rows == bias_rows(bias@, m as int, n as int),
                count <= before.len(),
                output@.len() == before.len(),
                forall|j: int| 0 <= j < p ==> #[trigger] output@[j] == rows[j],
                forall|j: int| p <= j < before.len() ==> #[trigger] output@[j] == before[j],
        {
            proof {
                lemma_split(p as int, m as int, n as int);
            }
            output.set(p, bias[p % n]);
        }
        let ghost filled = output@;
        product_into(f, m, k, n, a, b, ONE, output);
        proof {
            let g = plain_gemm(m, k, n, ONE);
            let es = gemm_elements(g, a@, b@, rows);
            let fs = gemm_elements(g, a@, b@, filled);
            assert forall|p: int| 0 <= p < es.len() implies es[p] == fs[p] by {
                lemma_split(p, m as int, n as int);
                assert(g.at(p / n as int, p % n as int) == p);
                assert(filled[p] == rows[p]);
            }
            assert(es =~= fs);
            assert forall|i: int| es.len() <= i < before.len() implies #[trigger] output@[i]
                == before[i] by {
                assert(output@[i] == filled[i]);
            }
        }
        Ok(())
    }

    /// Evaluates an expression over one buffer for every place of a buffer.
    pub fn execute_elementwise_chain_slices(
        &self,
        expr: &Expr,
        input: &Vec<u32>,
        input_shape: &Shape,
        output: &mut Vec<u32>,
        output_shape: &Shape,
    ) -> (r: Result<(), Error>)
        ensures
            if chain_fits(*expr, input@, input_shape@, old(output)@.len(), output_shape@) {
                r is Ok && computes_all(
                    self.float,
                    Seq::new(
                        old(output)@.len(),
                        |i: int|
                            ast_value(
                                *expr,
                                seq![input@],
                                seq![input_shape@],
                                output_shape@,
                                i as usize,
                            ),
                    ),
                    final(output)@,
                )
            } else {
                refused(old(output)@, final(output)@, r)
            },
    {
        let size: usize = output.len();
        if !check_chain(expr, input, input_shape, size, output_shape) {
            return Err(misfit_error());
        }
        let inputs: [&Vec<u32>; 1] = [input];
        let shapes: [Shape; 1] = [input_shape.copy()];
        let ghost xs = seq![input@];
        let ghost ss = seq![input_shape@];
        proof {
            assert(buffers(inputs@) =~= xs);
            assert(crate::op::shape_views(shapes@) =~= ss);
        }
        for i in 0..size
            invariant
                size == output@.len(),
                xs == seq![input@],
                ss == seq![input_shape@],
                buffers(inputs@) == xs,
                crate::op::shape_views(shapes@) == ss,
                chain_fits(*expr, input@, input_shape@, size as nat, output_shape@),
                forall|j: int|
                    0 <= j < i ==> computes(
                        self.float,
                        ast_value(*expr, xs, ss, output_shape@, j as usize),
                        #[trigger] output@[j],
                    ),
        {
            proof {
                if inputs_below(*expr, 0) {
                    lemma_readable(*expr, 0, xs, ss, output_shape@, i);
                } else {
                    assert(can_read(xs[0], ss[0], output_shape@, i));
                    lemma_readable(*expr, 1, xs, ss, output_shape@, i);
                }
            }
            let x: u32 = evaluate_ast(
                &self.float,
                expr,
                inputs.as_slice(),
                shapes.as_slice(),
                output_shape,
                i,
            );
            output.set(i, x);
        }
        Ok(())
    }
}

/// An expression over one buffer can be evaluated for every place of a buffer
/// of `len` numbers.
pub open spec fn chain_fits(
    e: Expr,
    input: Seq<u32>,
    shape: Seq<usize>,
    len: nat,
    out_shape: Seq<usize>,
) -> bool {
    ||| len == 0
    ||| inputs_below(e, 0)
    ||| inputs_below(e, 1) && forall|i: usize|
        i < len ==> #[trigger] can_read(input, shape, out_shape, i)
}

/// Whether the expression can be evaluated for every place.
fn check_chain(expr: &Expr, input: &Vec<u32>, shape: &Shape, len: usize, out_shape: &Shape) -> (ok:
    bool)
    ensures
        ok == chain_fits(*expr, input@, shape@, len as nat, out_shape@),
{
    if len == 0 || expr.uses_below(0) {
        return true;
    }
    if !expr.uses_below(1) {
        return false;
    }
    if crate::shape::same_dims(&shape.dims, &out_shape.dims) {
        proof {
            if len > input@.len() {
                assert(!can_read(input@, shape@, out_shape@, (len - 1) as usize));
            }
        }
        return len <= input.len();
    }
    let strides = match checked_strides(&shape.dims) {
        Some(v) if all_positive(&out_shape.dims) => v,
        _ => {
            proof {
                assert(!can_read(input@, shape@, out_shape@, 0));
            }
            return false;
        },
    };
    for i in 0..len
        invariant
            !inputs_below(*expr, 0),
            shape@ != out_shape@,
            numel(out_shape@) > 0,
            strides_fit(shape@),
            strides@.len() == shape@.len(),
            forall|j: int|
                0 <= j < shape@.len() ==> #[trigger] strides@[j] == stride(shape@, j),
            forall|j: usize| j < i ==> #[trigger] can_read(input@, shape@, out_shape@, j),
    {
        let c = unravel(i, &out_shape.dims);
        if broadcast_position(
            &shape.dims,
            input.len(),
            &strides,
            &c,
            &out_shape.dims,
            i,
        ).is_none() {
            proof {
                assert(!can_read(input@, shape@, out_shape@, i));
            }
            return false;
        }
    }
    true
}

/// `m` rows, each the bias.
pub open spec fn bias_rows(bias: Seq<u32>, m: int, n: int) -> Seq<u32> {
    Seq::new((m * n) as nat, |p: int| bias[p % n])
}

} // verus!
