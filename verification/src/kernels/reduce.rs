//! Reductions and normalizations of whole tensors.

use crate::error::{execution_error, Error};
use crate::float::{
    bits, computes, computes_all, do_plus, do_times, leaves, lemma_leaves, sum_where, times, Float,
    Fx, NEG_ZERO, ZERO,
};
use crate::kernels::movement::{lemma_numel_1, lemma_row_major, with_extent};
use crate::kernels::rows::{
    layer_norm_grad_row, layer_norm_grad_vec, layer_norm_row, layer_norm_vec, moments, normalized,
    normalized_vec, rms_norm_row, rms_norm_vec, softmax_grad_row, softmax_grad_vec, softmax_row,
    softmax_vec, sum_seq, total_seq, total_vec,
};
use crate::shape::{
    as_nats, checked_numel, coords, copy_dims, fits, get_strides, numel, ravel, ravel_index, stride,
    unravel, Shape,
};
use crate::sym::{
    fails, misfit, misfit_error, not_single, not_single_error, realized, yields, Outcome,
};
use crate::tensor::{AnyData, DataView, Tensor, TensorView};
use vstd::arithmetic::div_mod::*;
use vstd::arithmetic::mul::*;
use vstd::prelude::*;

verus! {

/// What the sum of all elements yields.
pub open spec fn sum_all_outcome(x: TensorView) -> Outcome {
    match x.data {
        DataView::F32(d) => yields(seq![1], seq![total_seq(leaves(d))]),
        DataView::F16(_) => not_single(),
    }
}

/// The sum of all elements.
pub fn sum_all<F: Float>(f: &F, x: &Tensor) -> (r: Result<Tensor, Error>)
    requires
        x.wf(),
    ensures
        realized(*f, sum_all_outcome(x@), r),
{
    match &x.data {
        AnyData::F32(d) => {
            proof {
                lemma_leaves(*f, d@);
                lemma_numel_1(1);
            }
            let s: u32 = total_vec(f, d, Ghost(leaves(d@)));
            let shape = Shape::new(vec![1]);
            let out: Vec<u32> = vec![s];
            proof {
                assert(shape@ =~= seq![1usize]);
                assert(out@ =~= seq![s]);
            }
            Ok(Tensor::new(out, shape))
        },
        AnyData::F16(_) => Err(not_single_error()),
    }
}

/// Where element `idx` goes when the tensor is summed along one axis.
pub open spec fn sum_position(s: Seq<usize>, axis: int, idx: int) -> nat {
    ravel(with_extent(s, axis, 1), coords(s, idx as nat).update(axis, 0))
}

/// The elements that are summed into place `j`.
pub open spec fn summed_into(s: Seq<usize>, axis: int, j: int) -> spec_fn(int) -> bool {
    |idx: int| sum_position(s, axis, idx) == j
}

/// The elements of a list, as expressions.
pub open spec fn leaf_at(d: Seq<u32>) -> spec_fn(int) -> Fx {
    |i: int| bits(d[i])
}

/// What a sum along one axis yields: the axis keeps extent 1, and every place
/// holds the sum of the elements that differ from it along the axis only.
pub open spec fn sum_dim_outcome(x: TensorView, axis: usize) -> Outcome {
    if axis >= x.shape.len() {
        fails("SumDim axis out of bounds"@)
    } else {
        match x.data {
            DataView::F32(d) => {
                let out = with_extent(x.shape, axis as int, 1);
                if fits(out) {
                    yields(
                        out,
                        Seq::new(
                            numel(out),
                            |j: int|
                                sum_where(
                                    d.len(),
                                    bits(ZERO),
                                    summed_into(x.shape, axis as int, j),
                                    leaf_at(d),
                                ),
                        ),
                    )
                } else {
                    misfit()
                }
            },
            DataView::F16(_) => not_single(),
        }
    }
}

/// The sum along one axis.
pub fn sum_dim<F: Float>(f: &F, x: &Tensor, axis: usize) -> (r: Result<Tensor, Error>)
    requires
        x.wf(),
    ensures
        realized(*f, sum_dim_outcome(x@, axis), r),
{
    let ndim: usize = x.shape.dims.len();
    if axis >= ndim {
        return Err(execution_error("SumDim axis out of bounds"));
    }
    match &x.data {
        AnyData::F32(d) => {
            let mut out_dims: Vec<usize> = copy_dims(&x.shape.dims);
            out_dims.set(axis, 1);
            let ghost s = x@.shape;
            let ghost o = with_extent(s, axis as int, 1);
            let count: usize = match checked_numel(&out_dims) {
                Some(n) => n,
                None => {
                    return Err(misfit_error());
                },
            };
            let strides = get_strides(&out_dims);
            let mut out: Vec<u32> = vec![ZERO; count];
            for idx in 0..d.len()
                invariant
                    s == x@.shape,
                    ndim == s.len(),
                    axis < ndim,
                    d@.len() == numel(s),
                    o == with_extent(s, axis as int, 1),
                    out_dims@ == o,
                    fits(o),
                    count == numel(o),
                    strides@.len() == ndim,
                    forall|k: int| 0 <= k < ndim ==> #[trigger] strides@[k] == stride(o, k),
                    out@.len() == count,
                    forall|j: int|
                        0 <= j < count ==> computes(
                            *f,
                            sum_where(
                                idx as nat,
                                bits(ZERO),
                                summed_into(s, axis as int, j),
                                leaf_at(d@),
                            ),
                            #[trigger] out@[j],
                        ),
            {
                let mut c = unravel(idx, &x.shape.dims);
                let ghost before = c@;
                proof {
                    assert(as_nats(c@).len() == ndim);
                }
                c.set(axis, 0);
                proof {
                    let t = as_nats(before).update(axis as int, 0);
                    assert(as_nats(c@) =~= t);
                    assert forall|k: int| 0 <= k < o.len() implies #[trigger] t[k] < o[k] by {
                        assert(as_nats(before)[k] < s[k]);
                    }
                }
                let at: usize = ravel_index(&c, &out_dims, &strides);
                let ghost e = sum_where(
                    idx as nat,
                    bits(ZERO),
                    summed_into(s, axis as int, at as int),
                    leaf_at(d@),
                );
                let v: u32 = do_plus(
                    f,
                    out[at],
                    d[idx],
                    Ghost(e),
                    Ghost(bits(d@[idx as int])),
                );
                out.set(at, v);
            }
            Ok(Tensor::new(out, Shape::new(out_dims)))
        },
        AnyData::F16(_) => Err(not_single_error()),
    }
}

/// Part of a list of numbers.
pub(crate) fn part_of(data: &Vec<u32>, start: usize, n: usize) -> (out: Vec<u32>)
    requires
        start + n <= data@.len(),
    ensures
        out@ == data@.subrange(start as int, start + n),
{
    let size: usize = data.len();
    let mut out: Vec<u32> = Vec::new();
    for i in 0..n
        invariant
            start + n <= size,
            size == data@.len(),
            out@.len() == i,
            forall|j: int| 0 <= j < i ==> #[trigger] out@[j] == data@[start + j],
    {
        out.push(data[start + i]);
    }
    proof {
        assert(out@ =~= data@.subrange(start as int, start + n));
    }
    out
}

/// Row `r` of a list of rows.
pub open spec fn row(d: Seq<u32>, cols: int, r: int) -> Seq<u32> {
    d.subrange(r * cols, r * cols + cols)
}

/// The rows `of(0)`, `of(1)`, ... one behind the other.
pub open spec fn by_rows(n: nat, cols: nat, of: spec_fn(int) -> Seq<Fx>) -> Seq<Fx> {
    Seq::new(n, |i: int| of(i / cols as int)[i % cols as int])
}

/// The numbers are what the rows evaluate to, as far as they go.
pub open spec fn rows_done<F: Float>(
    f: F,
    cols: nat,
    of: spec_fn(int) -> Seq<Fx>,
    out: Seq<u32>,
) -> bool {
    forall|i: int|
        0 <= i < out.len() ==> computes(f, of(i / cols as int)[i % cols as int], #[trigger] out[i])
}

/// Appends row `r`.
pub(crate) fn push_row<F: Float>(
    f: &F,
    out: &mut Vec<u32>,
    row: &Vec<u32>,
    r: usize,
    cols: usize,
    Ghost(of): Ghost<spec_fn(int) -> Seq<Fx>>,
)
    requires
        old(out)@.len() == r * cols,
        row@.len() == cols,
        rows_done(*f, cols as nat, of, old(out)@),
        computes_all(*f, of(r as int), row@),
    ensures
        final(out)@.len() == (r + 1) * cols,
        rows_done(*f, cols as nat, of, final(out)@),
{
    let ghost start = out@.len();
    for i in 0..cols
        invariant
            start == r * cols,
            row@.len() == cols,
            out@.len() == start + i,
            rows_done(*f, cols as nat, of, out@),
            computes_all(*f, of(r as int), row@),
    {
        proof {
            lemma_row_major(r as int, i as int, r + 1, cols as int);
            assert(computes(*f, of(r as int)[i as int], row@[i as int]));
        }
        out.push(row[i]);
    }
    proof {
        assert((r + 1) * cols == r * cols + cols) by (nonlinear_arith);
    }
}

/// A position of row `r` is within all the rows.
pub proof fn lemma_row_within(r: int, rows: int, cols: int)
    requires
        0 <= r < rows,
        0 <= cols,
    ensures
        0 <= r * cols,
        r * cols + cols <= rows * cols,
        r * cols + cols == (r + 1) * cols,
{
    assert(r * cols >= 0 && r * cols + cols <= rows * cols && r * cols + cols == (r + 1) * cols)
        by (nonlinear_arith)
        requires
            0 <= r < rows,
            0 <= cols,
    ;
}

/// A tensor splits into rows along its last axis.
pub proof fn lemma_last_axis_divides(s: Seq<usize>)
    requires
        s.len() > 0,
        s.last() > 0,
    ensures
        numel(s) % (s.last() as nat) == 0,
        numel(s) == (numel(s) / (s.last() as nat)) * s.last(),
    decreases s.len(),
{
    let c = s.last() as nat;
    if s.len() == 1 {
        assert(s =~= seq![s[0]]);
        lemma_numel_1(s[0]);
        lemma_mod_self_0(c as int);
    } else {
        let t = s.skip(1);
        assert(t.last() == s.last());
        lemma_last_axis_divides(t);
        let k = numel(t) / c;
        let a = s[0] as nat;
        assert(numel(s) == (a * k) * c) by (nonlinear_arith)
            requires
                numel(s) == a * numel(t),
                numel(t) == k * c,
        ;
        lemma_mod_multiples_basic((a * k) as int, c as int);
    }
    let n = numel(s);
    lemma_fundamental_div_mod(n as int, c as int);
    lemma_mul_is_commutative(c as int, (n / c) as int);
}

/// The rows of a softmax.
pub open spec fn softmax_rows(d: Seq<u32>, cols: int) -> spec_fn(int) -> Seq<Fx> {
    |r: int| softmax_row(NEG_ZERO, leaves(row(d, cols, r)))
}

/// What a softmax along the last axis yields.
pub open spec fn softmax_outcome(x: TensorView) -> Outcome {
    if x.shape.len() == 0 {
        fails("Softmax requires at least 1 dimension"@)
    } else if x.shape.last() == 0 {
        misfit()
    } else {
        match x.data {
            DataView::F32(d) => yields(
                x.shape,
                by_rows(d.len(), x.shape.last() as nat, softmax_rows(d, x.shape.last() as int)),
            ),
            DataView::F16(_) => not_single(),
        }
    }
}

/// The softmax along the last axis.
pub fn softmax<F: Float>(f: &F, x: &Tensor) -> (r: Result<Tensor, Error>)
    requires
        x.wf(),
    ensures
        realized(*f, softmax_outcome(x@), r),
{
    let ndim: usize = x.shape.dims.len();
    if ndim == 0 {
        return Err(execution_error("Softmax requires at least 1 dimension"));
    }
    let cols: usize = x.shape.dims[ndim - 1];
    if cols == 0 {
        return Err(misfit_error());
    }
    match &x.data {
        AnyData::F32(d) => {
            let size: usize = d.len();
            let rows: usize = size / cols;
            let ghost of = softmax_rows(d@, cols as int);
            proof {
                lemma_last_axis_divides(x@.shape);
                lemma_mul_basics(cols as int);
            }
            let mut out: Vec<u32> = Vec::new();
            for r in 0..rows
                invariant
                    size == d@.len() == rows * cols,
                    of == softmax_rows(d@, cols as int),
                    out@.len() == r * cols,
                    rows_done(*f, cols as nat, of, out@),
            {
                proof {
                    lemma_row_within(r as int, rows as int, cols as int);
                }
                let part = part_of(d, r * cols, cols);
                proof {
                    lemma_leaves(*f, part@);
                }
                let done = softmax_vec(f, NEG_ZERO, &part, Ghost(leaves(part@)));
                push_row(f, &mut out, &done, r, cols, Ghost(of));
            }
            Ok(Tensor::new(out, x.shape.copy()))
        },
        AnyData::F16(_) => Err(not_single_error()),
    }
}

/// The rows of a softmax gradient.
pub open spec fn softmax_grad_rows(s: Seq<u32>, d: Seq<u32>, cols: int) -> spec_fn(int) -> Seq<Fx> {
    |r: int| softmax_grad_row(leaves(row(s, cols, r)), leaves(row(d, cols, r)))
}

/// What the gradient of a softmax yields, from the softmax and the gradient
/// of its result.
pub open spec fn softmax_grad_outcome(s: TensorView, d: TensorView) -> Outcome {
    if s.shape.len() == 0 || s.shape.last() == 0 || d.data.len() < s.data.len() {
        misfit()
    } else {
        match (s.data, d.data) {
            (DataView::F32(a), DataView::F32(b)) => yields(
                s.shape,
                by_rows(
                    a.len(),
                    s.shape.last() as nat,
                    softmax_grad_rows(a, b, s.shape.last() as int),
                ),
            ),
            _ => not_single(),
        }
    }
}

/// The number of elements of a tensor.
pub(crate) fn count_of(t: &Tensor) -> (n: usize)
    ensures
        n == t@.data.len(),
{
    match &t.data {
        AnyData::F32(v) => v.len(),
        AnyData::F16(v) => v.len(),
    }
}

/// The gradient of a softmax.
pub fn softmax_grad<F: Float>(f: &F, s: &Tensor, d: &Tensor) -> (r: Result<Tensor, Error>)
    requires
        s.wf(),
        d.wf(),
    ensures
        realized(*f, softmax_grad_outcome(s@, d@), r),
{
    let ndim: usize = s.shape.dims.len();
    if ndim == 0 || s.shape.dims[ndim - 1] == 0 || count_of(d) < count_of(s) {
        return Err(misfit_error());
    }
    let cols: usize = s.shape.dims[ndim - 1];
    match (&s.data, &d.data) {
        (AnyData::F32(a), AnyData::F32(b)) => {
            let size: usize = a.len();
            let rows: usize = size / cols;
            let ghost of = softmax_grad_rows(a@, b@, cols as int);
            proof {
                lemma_last_axis_divides(s@.shape);
                lemma_mul_basics(cols as int);
            }
            let mut out: Vec<u32> = Vec::new();
            for r in 0..rows
                invariant
                    size == a@.len() == rows * cols,
                    b@.len() >= a@.len(),
                    of == softmax_grad_rows(a@, b@, cols as int),
                    out@.len() == r * cols,
                    rows_done(*f, cols as nat, of, out@),
            {
                proof {
                    lemma_row_within(r as int, rows as int, cols as int);
                }
                let pa = part_of(a, r * cols, cols);
                let pb = part_of(b, r * cols, cols);
                proof {
                    lemma_leaves(*f, pa@);
                    lemma_leaves(*f, pb@);
                }
                let done = softmax_grad_vec(f, &pa, &pb, Ghost(leaves(pa@)), Ghost(leaves(pb@)));
                push_row(f, &mut out, &done, r, cols, Ghost(of));
            }
            Ok(Tensor::new(out, s.shape.copy()))
        },
        _ => Err(not_single_error()),
    }
}

/// The rows of a layer normalization.
pub open spec fn layer_norm_rows(
    x: Seq<u32>,
    w: Seq<u32>,
    b: Seq<u32>,
    cols: int,
    epsilon: u32,
) -> spec_fn(int) -> Seq<Fx> {
    |r: int| layer_norm_row(leaves(row(x, cols, r)), leaves(w), leaves(b), epsilon)
}

/// What a layer normalization along the last axis yields.
pub open spec fn layer_norm_outcome(
    x: TensorView,
    w: TensorView,
    b: TensorView,
    epsilon: u32,
) -> Outcome {
    if x.shape.len() == 0 {
        fails("LayerNorm requires at least 1 dimension"@)
    } else if x.shape.last() == 0 || w.data.len() != x.shape.last() || b.data.len()
        != x.shape.last() {
        misfit()
    } else {
        match (x.data, w.data, b.data) {
            (DataView::F32(xd), DataView::F32(wd), DataView::F32(bd)) => yields(
                x.shape,
                by_rows(
                    xd.len(),
                    x.shape.last() as nat,
                    layer_norm_rows(xd, wd, bd, x.shape.last() as int, epsilon),
                ),
            ),
            _ => not_single(),
        }
    }
}

/// Layer normalization along the last axis.
pub fn layer_norm<F: Float>(f: &F, x: &Tensor, w: &Tensor, b: &Tensor, epsilon: u32) -> (r: Result<
    Tensor,
    Error,
>)
    requires
        x.wf(),
        w.wf(),
        b.wf(),
    ensures
        realized(*f, layer_norm_outcome(x@, w@, b@, epsilon), r),
{
    let ndim: usize = x.shape.dims.len();
    if ndim == 0 {
        return Err(execution_error("LayerNorm requires at least 1 dimension"));
    }
    let cols: usize = x.shape.dims[ndim - 1];
    if cols == 0 || count_of(w) != cols || count_of(b) != cols {
        return Err(misfit_error());
    }
    match (&x.data, &w.data, &b.data) {
        (AnyData::F32(xd), AnyData::F32(wd), AnyData::F32(bd)) => {
            let size: usize = xd.len();
            let rows: usize = size / cols;
            let ghost of = layer_norm_rows(xd@, wd@, bd@, cols as int, epsilon);
            proof {
                lemma_last_axis_divides(x@.shape);
                lemma_mul_basics(cols as int);
                lemma_leaves(*f, wd@);
                lemma_leaves(*f, bd@);
            }
            let mut out: Vec<u32> = Vec::new();
            for r in 0..rows
                invariant
                    size == xd@.len() == rows * cols,
                    wd@.len() == cols,
                    bd@.len() == cols,
                    computes_all(*f, leaves(wd@), wd@),
                    computes_all(*f, leaves(bd@), bd@),
                    of == layer_norm_rows(xd@, wd@, bd@, cols as int, epsilon),
                    out@.len() == r * cols,
                    rows_done(*f, cols as nat, of, out@),
            {
                proof {
                    lemma_row_within(r as int, rows as int, cols as int);
                }
                let part = part_of(xd, r * cols, cols);
                proof {
                    lemma_leaves(*f, part@);
                }
                let done = layer_norm_vec(
                    f,
                    &part,
                    wd,
                    bd,
                    epsilon,
                    Ghost(leaves(part@)),
                    Ghost(leaves(wd@)),
                    Ghost(leaves(bd@)),
                );
                push_row(f, &mut out, &done, r, cols, Ghost(of));
            }
            Ok(Tensor::new(out, x.shape.copy()))
        },
        _ => Err(not_single_error()),
    }
}

/// The rows of a root-mean-square normalization.
pub open spec fn rms_norm_rows(x: Seq<u32>, w: Seq<u32>, cols: int, epsilon: u32) -> spec_fn(
    int,
) -> Seq<Fx> {
    |r: int| rms_norm_row(leaves(row(x, cols, r)), leaves(w), epsilon)
}

/// What a root-mean-square normalization along the last axis yields.
pub open spec fn rms_norm_outcome(x: TensorView, w: TensorView, epsilon: u32) -> Outcome {
    if x.shape.len() == 0 {
        fails("RMSNorm requires at least 1 dimension"@)
    } else if x.shape.last() == 0 || w.data.len() != x.shape.last() {
        misfit()
    } else {
        match (x.data, w.data) {
            (DataView::F32(xd), DataView::F32(wd)) => yields(
                x.shape,
                by_rows(
                    xd.len(),
                    x.shape.last() as nat,
                    rms_norm_rows(xd, wd, x.shape.last() as int, epsilon),
                ),
            ),
            _ => not_single(),
        }
    }
}

/// Root-mean-square normalization along the last axis.
pub fn rms_norm<F: Float>(f: &F, x: &Tensor, w: &Tensor, epsilon: u32) -> (r: Result<Tensor, Error>)
    requires
        x.wf(),
        w.wf(),
    ensures
        realized(*f, rms_norm_outcome(x@, w@, epsilon), r),
{
    let ndim: usize = x.shape.dims.len();
    if ndim == 0 {
        return Err(execution_error("RMSNorm requires at least 1 dimension"));
    }
    let cols: usize = x.shape.dims[ndim - 1];
    if cols == 0 || count_of(w) != cols {
        return Err(misfit_error());
    }
    match (&x.data, &w.data) {
        (AnyData::F32(xd), AnyData::F32(wd)) => {
            let size: usize = xd.len();
            let rows: usize = size / cols;
            let ghost of = rms_norm_rows(xd@, wd@, cols as int, epsilon);
            proof {
                lemma_last_axis_divides(x@.shape);
                lemma_mul_basics(cols as int);
                lemma_leaves(*f, wd@);
            }
            let mut out: Vec<u32> = Vec::new();
            for r in 0..rows
                invariant
                    size == xd@.len() == rows * cols,
                    wd@.len() == cols,
                    computes_all(*f, leaves(wd@), wd@),
                    of == rms_norm_rows(xd@, wd@, cols as int, epsilon),
                    out@.len() == r * cols,
                    rows_done(*f, cols as nat, of, out@),
            {
                proof {
                    lemma_row_within(r as int, rows as int, cols as int);
                }
                let part = part_of(xd, r * cols, cols);
                proof {
                    lemma_leaves(*f, part@);
                }
                let done = rms_norm_vec(
                    f,
                    &part,
                    wd,
                    epsilon,
                    Ghost(leaves(part@)),
                    Ghost(leaves(wd@)),
                );
                push_row(f, &mut out, &done, r, cols, Ghost(of));
            }
            Ok(Tensor::new(out, x.shape.copy()))
        },
        _ => Err(not_single_error()),
    }
}

/// The rows of a layer normalization gradient with respect to its input.
pub open spec fn layer_norm_grad_x_rows(
    x: Seq<u32>,
    w: Seq<u32>,
    dy: Seq<u32>,
    cols: int,
    epsilon: u32,
) -> spec_fn(int) -> Seq<Fx> {
    |r: int|
        layer_norm_grad_row(
            leaves(row(x, cols, r)),
            leaves(w.take(cols)),
            leaves(row(dy, cols, r)),
            epsilon,
        )
}

/// What the gradient of a layer normalization with respect to its input
/// yields.
pub open spec fn layer_norm_grad_x_outcome(
    x: TensorView,
    w: TensorView,
    dy: TensorView,
    epsilon: u32,
) -> Outcome {
    if x.shape.len() == 0 || x.shape.last() == 0 || (x.data.len() > 0 && w.data.len()
        < x.shape.last()) || dy.data.len() < x.data.len() {
        misfit()
    } else {
        match (x.data, w.data, dy.data) {
            (DataView::F32(xd), DataView::F32(wd), DataView::F32(gd)) => yields(
                x.shape,
                by_rows(
                    xd.len(),
                    x.shape.last() as nat,
                    layer_norm_grad_x_rows(xd, wd, gd, x.shape.last() as int, epsilon),
                ),
            ),
            _ => not_single(),
        }
    }
}

/// The gradient of a layer normalization with respect to its input.
pub fn layer_norm_grad_x<F: Float>(
    f: &F,
    x: &Tensor,
    w: &Tensor,
    dy: &Tensor,
    epsilon: u32,
) -> (r: Result<Tensor, Error>)
    requires
        x.wf(),
        w.wf(),
        dy.wf(),
    ensures
        realized(*f, layer_norm_grad_x_outcome(x@, w@, dy@, epsilon), r),
{
    let ndim: usize = x.shape.dims.len();
    if ndim == 0 || x.shape.dims[ndim - 1] == 0 || (count_of(x) > 0 && count_of(w)
        < x.shape.dims[ndim - 1]) || count_of(dy) < count_of(x) {
        return Err(misfit_error());
    }
    let cols: usize = x.shape.dims[ndim - 1];
    match (&x.data, &w.data, &dy.data) {
        (AnyData::F32(xd), AnyData::F32(wd), AnyData::F32(gd)) => {
            let size: usize = xd.len();
            let rows: usize = size / cols;
            let ghost of = layer_norm_grad_x_rows(xd@, wd@, gd@, cols as int, epsilon);
            if size == 0 {
                return Ok(Tensor::new(Vec::new(), x.shape.copy()));
            }
            let scale = part_of(wd, 0, cols);
            proof {
                lemma_last_axis_divides(x@.shape);
                lemma_mul_basics(cols as int);
                lemma_leaves(*f, scale@);
                assert(scale@ =~= wd@.take(cols as int));
            }
            let mut out: Vec<u32> = Vec::new();
            for r in 0..rows
                invariant
                    size == xd@.len() == rows * cols,
                    gd@.len() >= size,
                    scale@ == wd@.take(cols as int),
                    scale@.len() == cols,
                    computes_all(*f, leaves(scale@), scale@),
                    of == layer_norm_grad_x_rows(xd@, wd@, gd@, cols as int, epsilon),
                    out@.len() == r * cols,
                    rows_done(*f, cols as nat, of, out@),
            {
                proof {
                    lemma_row_within(r as int, rows as int, cols as int);
                }
                let px = part_of(xd, r * cols, cols);
                let pg = part_of(gd, r * cols, cols);
                proof {
                    lemma_leaves(*f, px@);
                    lemma_leaves(*f, pg@);
                }
                let done = layer_norm_grad_vec(
                    f,
                    &px,
                    &scale,
                    &pg,
                    epsilon,
                    Ghost(leaves(px@)),
                    Ghost(leaves(scale@)),
                    Ghost(leaves(pg@)),
                );
                push_row(f, &mut out, &done, r, cols, Ghost(of));
            }
            Ok(Tensor::new(out, x.shape.copy()))
        },
        _ => Err(not_single_error()),
    }
}

/// The contributions of the first `rows` rows to the gradient of the scale in
/// column `c`.
pub open spec fn scale_terms(
    x: Seq<u32>,
    dy: Seq<u32>,
    cols: int,
    epsilon: u32,
    rows: nat,
    c: int,
) -> Seq<Fx> {
    Seq::new(
        rows,
        |r: int|
            times(
                bits(dy[r * cols + c]),
                normalized(leaves(row(x, cols, r)), epsilon)[c],
            ),
    )
}

/// What the gradient of a layer normalization with respect to its scale
/// yields.
pub open spec fn layer_norm_grad_w_outcome(x: TensorView, dy: TensorView, epsilon: u32) -> Outcome {
    if x.shape.len() == 0 || x.shape.last() == 0 || dy.data.len() < x.data.len() {
        misfit()
    } else {
        match (x.data, dy.data) {
            (DataView::F32(xd), DataView::F32(gd)) => {
                let cols = x.shape.last();
                yields(
                    seq![cols],
                    Seq::new(
                        cols as nat,
                        |c: int|
                            sum_seq(
                                scale_terms(
                                    xd,
                                    gd,
                                    cols as int,
                                    epsilon,
                                    xd.len() / (cols as nat),
                                    c,
                                ),
                            ),
                    ),
                )
            },
            _ => not_single(),
        }
    }
}

/// The gradient of a layer normalization with respect to its scale.
pub fn layer_norm_grad_w<F: Float>(f: &F, x: &Tensor, dy: &Tensor, epsilon: u32) -> (r: Result<
    Tensor,
    Error,
>)
    requires
        x.wf(),
        dy.wf(),
    ensures
        realized(*f, layer_norm_grad_w_outcome(x@, dy@, epsilon), r),
{
    let ndim: usize = x.shape.dims.len();
    if ndim == 0 || x.shape.dims[ndim - 1] == 0 || count_of(dy) < count_of(x) {
        return Err(misfit_error());
    }
    let cols: usize = x.shape.dims[ndim - 1];
    match (&x.data, &dy.data) {
        (AnyData::F32(xd), AnyData::F32(gd)) => {
            let size: usize = xd.len();
            let rows: usize = size / cols;
            proof {
                lemma_last_axis_divides(x@.shape);
                lemma_mul_basics(cols as int);
            }
            let mut out: Vec<u32> = vec![ZERO; cols];
            for r in 0..rows
                invariant
                    size == xd@.len() == rows * cols,
                    gd@.len() >= size,
                    out@.len() == cols,
                    forall|c: int|
                        0 <= c < cols ==> computes(
                            *f,
                            sum_seq(scale_terms(xd@, gd@, cols as int, epsilon, r as nat, c)),
                            #[trigger] out@[c],
                        ),
            {
                proof {
                    lemma_row_within(r as int, rows as int, cols as int);
                }
                let px = part_of(xd, r * cols, cols);
                let ghost ex = leaves(px@);
                proof {
                    lemma_leaves(*f, px@);
                }
                let (mean, dev) = moments(f, &px, epsilon, Ghost(ex));
                let hat = normalized_vec(f, &px, mean, dev, epsilon, Ghost(ex));
                for c in 0..cols
                    invariant
                        r < rows,
                        size == xd@.len() == rows * cols,
                        r * cols + cols <= size,
                        gd@.len() >= size,
                        ex == leaves(row(xd@, cols as int, r as int)),
                        ex.len() == cols,
                        hat@.len() == cols,
                        computes_all(*f, normalized(ex, epsilon), hat@),
                        out@.len() == cols,
                        forall|j: int|
                            0 <= j < c ==> computes(
                                *f,
                                sum_seq(
                                    scale_terms(xd@, gd@, cols as int, epsilon, (r + 1) as nat, j),
                                ),
                                #[trigger] out@[j],
                            ),
                        forall|j: int|
                            c <= j < cols ==> computes(
                                *f,
                                sum_seq(scale_terms(xd@, gd@, cols as int, epsilon, r as nat, j)),
                                #[trigger] out@[j],
                            ),
                {
                    let ghost h = normalized(ex, epsilon)[c as int];
                    proof {
                        assert(computes(*f, h, hat@[c as int]));
                    }
                    let g: u32 = gd[r * cols + c];
                    let t: u32 = do_times(f, g, hat[c], Ghost(bits(g)), Ghost(h));
                    let ghost before = scale_terms(
                        xd@,
                        gd@,
                        cols as int,
                        epsilon,
                        r as nat,
                        c as int,
                    );
                    let v: u32 = do_plus(
                        f,
                        out[c],
                        t,
                        Ghost(sum_seq(before)),
                        Ghost(times(bits(g), h)),
                    );
                    out.set(c, v);
                    proof {
                        let after = scale_terms(
                            xd@,
                            gd@,
                            cols as int,
                            epsilon,
                            (r + 1) as nat,
                            c as int,
                        );
                        assert(after.drop_last() =~= before);
                        assert(after.last() == times(bits(g), h));
                    }
                }
            }
            let shape = Shape::new(vec![cols]);
            proof {
                assert(shape@ =~= seq![cols]);
                lemma_numel_1(cols);
            }
            Ok(Tensor::new(out, shape))
        },
        _ => Err(not_single_error()),
    }
}

/// The first `rows` numbers of column `c`.
pub open spec fn column(dy: Seq<u32>, cols: int, rows: nat, c: int) -> Seq<Fx> {
    Seq::new(rows, |r: int| bits(dy[r * cols + c]))
}

/// What the gradient of a layer normalization with respect to its offset
/// yields: the sums of the columns.
pub open spec fn layer_norm_grad_b_outcome(dy: TensorView) -> Outcome {
    if dy.shape.len() == 0 || dy.shape.last() == 0 {
        misfit()
    } else {
        match dy.data {
            DataView::F32(gd) => {
                let cols = dy.shape.last();
                yields(
                    seq![cols],
                    Seq::new(
                        cols as nat,
                        |c: int| sum_seq(column(gd, cols as int, gd.len() / (cols as nat), c)),
                    ),
                )
            },
            DataView::F16(_) => not_single(),
        }
    }
}

/// The gradient of a layer normalization with respect to its offset.
pub fn layer_norm_grad_b<F: Float>(f: &F, dy: &Tensor) -> (r: Result<Tensor, Error>)
    requires
        dy.wf(),
    ensures
        realized(*f, layer_norm_grad_b_outcome(dy@), r),
{
    let ndim: usize = dy.shape.dims.len();
    if ndim == 0 || dy.shape.dims[ndim - 1] == 0 {
        return Err(misfit_error());
    }
    let cols: usize = dy.shape.dims[ndim - 1];
    match &dy.data {
        AnyData::F32(gd) => {
            let size: usize = gd.len();
            let rows: usize = size / cols;
            proof {
                lemma_last_axis_divides(dy@.shape);
                lemma_mul_basics(cols as int);
            }
            let mut out: Vec<u32> = vec![ZERO; cols];
            for r in 0..rows
                invariant
                    size == gd@.len() == rows * cols,
                    out@.len() == cols,
                    forall|c: int|
                        0 <= c < cols ==> computes(
                            *f,
                            sum_seq(column(gd@, cols as int, r as nat, c)),
                            #[trigger] out@[c],
                        ),
            {
                proof {
                    lemma_row_within(r as int, rows as int, cols as int);
                }
                for c in 0..cols
                    invariant
                        r < rows,
                        size == gd@.len() == rows * cols,
                        r * cols + cols <= size,
                        out@.len() == cols,
                        forall|j: int|
                            0 <= j < c ==> computes(
                                *f,
                                sum_seq(column(gd@, cols as int, (r + 1) as nat, j)),
                                #[trigger] out@[j],
                            ),
                        forall|j: int|
                            c <= j < cols ==> computes(
                                *f,
                                sum_seq(column(gd@, cols as int, r as nat, j)),
                                #[trigger] out@[j],
                            ),
                {
                    let g: u32 = gd[r * cols + c];
                    let ghost before = column(gd@, cols as int, r as nat, c as int);
                    let v: u32 = do_plus(
                        f,
                        out[c],
                        g,
                        Ghost(sum_seq(before)),
                        Ghost(bits(g)),
                    );
                    out.set(c, v);
                    proof {
                        let after = column(gd@, cols as int, (r + 1) as nat, c as int);
                        assert(after.drop_last() =~= before);
                        assert(after.last() == bits(g));
                    }
                }
            }
            let shape = Shape::new(vec![cols]);
            proof {
                assert(shape@ =~= seq![cols]);
                lemma_numel_1(cols);
            }
            Ok(Tensor::new(out, shape))
        },
        AnyData::F16(_) => Err(not_single_error()),
    }
}

} // verus!
