//! Operations that move elements without computing on them.

use crate::error::{execution_error, Error};
use crate::float::{leaves, Float, ZERO};
use crate::kernels::reduce::count_of;
use crate::shape::{
    as_nats, checked_numel, coords, copy_dims, fits, get_strides, in_range, law_ravel_of_coords,
    lemma_coords_in_range, lemma_numel_positive, lemma_positive_dims, lemma_ravel_bound, numel,
    ravel, stride, unravel, Shape,
};
use crate::sym::{
    fails, misfit, misfit_error, not_single, not_single_error, nothing_of, operand_views,
    operands_wf, realized, yields, Outcome,
};
use crate::tensor::{copy_words, single, AnyData, DataView, Tensor, TensorView};
use vstd::arithmetic::div_mod::*;
use vstd::arithmetic::mul::*;
use vstd::prelude::*;

verus! {

/// `r * n + c` is below `m * n` for a row `r` and a column `c`.
pub proof fn lemma_row_major(r: int, c: int, m: int, n: int)
    requires
        0 <= r < m,
        0 <= c < n,
    ensures
        0 <= r * n + c < m * n,
        (r * n + c) / n == r,
        (r * n + c) % n == c,
{
    assert(0 <= r * n + c < m * n) by (nonlinear_arith)
        requires
            0 <= r < m,
            0 <= c < n,
    ;
    lemma_fundamental_div_mod_converse(r * n + c, n, r, c);
}

/// Row and column of a position below `m * n`.
pub proof fn lemma_split(i: int, m: int, n: int)
    requires
        0 <= i < m * n,
        0 <= m,
        0 <= n,
    ensures
        0 < n,
        0 <= i / n < m,
        0 <= i % n < n,
        i == (i / n) * n + i % n,
{
    assert(n > 0) by (nonlinear_arith)
        requires
            0 <= i < m * n,
            0 <= m,
            0 <= n,
    ;
    lemma_mod_bound(i, n);
    lemma_fundamental_div_mod(i, n);
    lemma_mul_is_commutative(n, i / n);
    lemma_mul_is_commutative(n, m);
    lemma_multiply_divide_lt(i, n, m);
    lemma_div_pos_is_pos(i, n);
}

/// The transpose of an `m` by `n` matrix: row `c` of the result is column `c`.
pub open spec fn transposed(data: Seq<u32>, m: int, n: int) -> Seq<u32> {
    Seq::new((m * n) as nat, |i: int| data[(i % m) * n + i / m])
}

/// Transposing twice gives the matrix back.
pub proof fn law_transpose_involutive(data: Seq<u32>, m: int, n: int)
    requires
        0 <= m,
        0 <= n,
        data.len() == m * n,
    ensures
        transposed(transposed(data, m, n), n, m) == data,
{
    let t = transposed(data, m, n);
    lemma_mul_is_commutative(m, n);
    assert forall|i: int| 0 <= i < data.len() implies transposed(t, n, m)[i] == data[i] by {
        lemma_split(i, m, n);
        let r = i / n;
        let c = i % n;
        assert(transposed(t, n, m)[i] == t[c * m + r]);
        lemma_row_major(c, r, n, m);
        assert(t[c * m + r] == data[r * n + c]);
    }
    assert(transposed(t, n, m) =~= data);
}

/// Transposes an `m` by `n` matrix.
pub fn transpose_data(data: &Vec<u32>, m: usize, n: usize) -> (out: Vec<u32>)
    requires
        data@.len() == m * n,
    ensures
        out@ == transposed(data@, m as int, n as int),
{
    let count: usize = data.len();
    let mut out: Vec<u32> = Vec::new();
    for i in 0..count
        invariant
            count == data@.len() == m * n,
            out@.len() == i,
            forall|j: int|
                0 <= j < i ==> #[trigger] out@[j] == transposed(data@, m as int, n as int)[j],
    {
        proof {
            lemma_mul_is_commutative(m as int, n as int);
            lemma_split(i as int, n as int, m as int);
            lemma_row_major((i % m) as int, (i / m) as int, m as int, n as int);
            assert((i % m) * n <= (i % m) * n + i / m);
        }
        out.push(data[(i % m) * n + i / m]);
    }
    proof {
        assert(out@ =~= transposed(data@, m as int, n as int));
    }
    out
}

/// What a transposition yields.
pub open spec fn transpose_outcome(x: TensorView) -> Outcome {
    if x.shape.len() != 2 {
        fails("Transpose is only supported for 2D matrices"@)
    } else {
        match x.data {
            DataView::F32(d) => yields(
                seq![x.shape[1], x.shape[0]],
                leaves(transposed(d, x.shape[0] as int, x.shape[1] as int)),
            ),
            DataView::F16(_) => not_single(),
        }
    }
}

/// The element count of a list.
pub proof fn lemma_numel_1(n: usize)
    ensures
        numel(seq![n]) == n,
        fits(seq![n]),
{
    let s = seq![n];
    assert(s.skip(1) =~= Seq::<usize>::empty());
    assert(s.skip(0) =~= s);
    assert(numel(Seq::<usize>::empty()) == 1);
    assert(numel(s) == n * 1);
    assert forall|i: int| 0 <= i <= s.len() implies numel(#[trigger] s.skip(i)) <= usize::MAX by {
        assert(i == 0 || i == 1);
    }
}

/// Putting an extent in front.
pub proof fn lemma_numel_front(s: Seq<usize>)
    requires
        s.len() > 0,
    ensures
        numel(s) == s[0] * numel(s.skip(1)),
        fits(s) <==> numel(s) <= usize::MAX && fits(s.skip(1)),
{
    let t = s.skip(1);
    assert(s.skip(0) =~= s);
    if fits(s) {
        assert(numel(s.skip(0)) <= usize::MAX);
        crate::shape::lemma_fits_suffix(s);
    }
    if numel(s) <= usize::MAX && fits(t) {
        assert forall|i: int| 0 <= i <= s.len() implies numel(#[trigger] s.skip(i))
            <= usize::MAX by {
            if i > 0 {
                assert(t.skip(i - 1) =~= s.skip(i));
            }
        }
    }
}

/// The element count of a matrix.
pub proof fn lemma_numel_2(m: usize, n: usize)
    ensures
        numel(seq![m, n]) == m * n,
        fits(seq![m, n]) <==> m * n <= usize::MAX,
{
    assert(seq![m, n].skip(1) =~= seq![n]);
    lemma_numel_front(seq![m, n]);
    lemma_numel_1(n);
}

/// The element count of a batch of matrices.
pub proof fn lemma_numel_3(b: usize, m: usize, n: usize)
    ensures
        numel(seq![b, m, n]) == b * (m * n),
        fits(seq![b, m, n]) <==> b * (m * n) <= usize::MAX && m * n <= usize::MAX,
{
    assert(seq![b, m, n].skip(1) =~= seq![m, n]);
    lemma_numel_front(seq![b, m, n]);
    lemma_numel_2(m, n);
}

/// The element count of a batch of images.
pub proof fn lemma_numel_4(b: usize, c: usize, h: usize, w: usize)
    ensures
        numel(seq![b, c, h, w]) == b * (c * (h * w)),
        fits(seq![b, c, h, w]) <==> b * (c * (h * w)) <= usize::MAX && c * (h * w) <= usize::MAX
            && h * w <= usize::MAX,
{
    assert(seq![b, c, h, w].skip(1) =~= seq![c, h, w]);
    lemma_numel_front(seq![b, c, h, w]);
    lemma_numel_3(c, h, w);
}

/// Transposes a matrix.
pub fn transpose<F: Float>(f: &F, x: &Tensor) -> (r: Result<Tensor, Error>)
    requires
        x.wf(),
    ensures
        realized(*f, transpose_outcome(x@), r),
{
    if x.shape.dims.len() != 2 {
        return Err(execution_error("Transpose is only supported for 2D matrices"));
    }
    match &x.data {
        AnyData::F32(d) => {
            let m: usize = x.shape.dims[0];
            let n: usize = x.shape.dims[1];
            proof {
                assert(x@.shape =~= seq![m, n]);
                lemma_numel_2(m, n);
                lemma_numel_2(n, m);
                lemma_mul_is_commutative(m as int, n as int);
            }
            let out = transpose_data(d, m, n);
            Ok(Tensor::new(out, Shape::new(vec![n, m])))
        },
        AnyData::F16(_) => Err(not_single_error()),
    }
}

/// The transposes of `b` matrices of `m` by `n`, one behind the other.
pub open spec fn batch_transposed(data: Seq<u32>, b: int, m: int, n: int) -> Seq<u32> {
    Seq::new(
        (b * (m * n)) as nat,
        |i: int| {
            let j = i % (m * n);
            data[(i / (m * n)) * (m * n) + ((j % m) * n + j / m)]
        },
    )
}

/// What a batched transposition yields.
pub open spec fn batched_transpose_outcome(x: TensorView) -> Outcome {
    if x.shape.len() != 3 {
        fails("BatchedTranspose input must be 3D"@)
    } else {
        match x.data {
            DataView::F32(d) => yields(
                seq![x.shape[0], x.shape[2], x.shape[1]],
                leaves(
                    batch_transposed(d, x.shape[0] as int, x.shape[1] as int, x.shape[2] as int),
                ),
            ),
            DataView::F16(_) => not_single(),
        }
    }
}

/// Transposes every matrix of a batch.
pub fn batched_transpose<F: Float>(f: &F, x: &Tensor) -> (r: Result<Tensor, Error>)
    requires
        x.wf(),
    ensures
        realized(*f, batched_transpose_outcome(x@), r),
{
    if x.shape.dims.len() != 3 {
        return Err(execution_error("BatchedTranspose input must be 3D"));
    }
    match &x.data {
        AnyData::F32(d) => {
            let b: usize = x.shape.dims[0];
            let m: usize = x.shape.dims[1];
            let n: usize = x.shape.dims[2];
            proof {
                assert(x@.shape =~= seq![b, m, n]);
                lemma_numel_3(b, m, n);
                lemma_numel_3(b, n, m);
                lemma_mul_is_commutative(m as int, n as int);
            }
            let size: usize = m * n;
            let count: usize = d.len();
            let mut out: Vec<u32> = Vec::new();
            for i in 0..count
                invariant
                    count == d@.len() == b * size,
                    size == m * n,
                    size == n * m,
                    out@.len() == i,
                    forall|j: int|
                        0 <= j < i ==> #[trigger] out@[j] == batch_transposed(
                            d@,
                            b as int,
                            m as int,
                            n as int,
                        )[j],
            {
                proof {
                    lemma_split(i as int, b as int, size as int);
                    lemma_split((i % size) as int, n as int, m as int);
                    let j = (i % size) as int;
                    lemma_row_major(j % m as int, j / m as int, m as int, n as int);
                    lemma_row_major(
                        (i / size) as int,
                        (j % m as int) * n + j / m as int,
                        b as int,
                        size as int,
                    );
                }
                let j: usize = i % size;
                let base: usize = (i / size) * size;
                out.push(d[base + ((j % m) * n + j / m)]);
            }
            proof {
                assert(out@ =~= batch_transposed(d@, b as int, m as int, n as int));
            }
            Ok(Tensor::new(out, Shape::new(vec![b, n, m])))
        },
        AnyData::F16(_) => Err(not_single_error()),
    }
}

/// What a reshape yields.
pub open spec fn reshape_outcome(x: TensorView, shape: Seq<usize>) -> Outcome {
    match x.data {
        DataView::F32(d) => if fits(shape) && d.len() == numel(shape) {
            yields(shape, leaves(d))
        } else {
            fails("Reshape element count mismatch"@)
        },
        DataView::F16(_) => not_single(),
    }
}

/// The same elements under another shape.
pub fn reshape<F: Float>(f: &F, x: &Tensor, shape: &Shape) -> (r: Result<Tensor, Error>)
    requires
        x.wf(),
    ensures
        realized(*f, reshape_outcome(x@, shape@), r),
{
    match &x.data {
        AnyData::F32(d) => {
            let fit: bool = match checked_numel(&shape.dims) {
                Some(n) => n == d.len(),
                None => false,
            };
            if !fit {
                return Err(execution_error("Reshape element count mismatch"));
            }
            Ok(Tensor::new(copy_words(d), shape.copy()))
        },
        AnyData::F16(_) => Err(not_single_error()),
    }
}

/// A list of extents with another extent along one axis.
pub open spec fn with_extent(s: Seq<usize>, axis: int, n: usize) -> Seq<usize> {
    s.update(axis, n)
}

/// Coordinates moved by `start` along one axis.
pub open spec fn shifted(c: Seq<nat>, axis: int, start: nat) -> Seq<nat> {
    c.update(axis, c[axis] + start)
}

/// The position in the whole tensor of position `i` of the slice.
pub open spec fn slice_source(
    whole: Seq<usize>,
    part: Seq<usize>,
    axis: int,
    start: nat,
    i: nat,
) -> nat {
    ravel(whole, shifted(coords(part, i), axis, start))
}

/// The elements of a slice.
pub open spec fn sliced(
    data: Seq<u32>,
    whole: Seq<usize>,
    axis: int,
    start: usize,
    end: usize,
) -> Seq<u32> {
    let part = with_extent(whole, axis, (end - start) as usize);
    Seq::new(numel(part), |i: int| data[slice_source(whole, part, axis, start as nat, i as nat) as int])
}

/// What a slice yields.
pub open spec fn slice_outcome(x: TensorView, axis: usize, start: usize, end: usize) -> Outcome {
    if axis >= x.shape.len() {
        fails("Slice axis out of bounds"@)
    } else if start > end || end > x.shape[axis as int] {
        fails("Invalid slice range"@)
    } else {
        match x.data {
            DataView::F32(d) => yields(
                with_extent(x.shape, axis as int, (end - start) as usize),
                leaves(sliced(d, x.shape, axis as int, start, end)),
            ),
            DataView::F16(_) => nothing_of(
                with_extent(x.shape, axis as int, (end - start) as usize),
            ),
        }
    }
}

/// A slice is not larger than the whole.
proof fn lemma_part_fits(whole: Seq<usize>, axis: int, n: usize)
    requires
        fits(whole),
        0 <= axis < whole.len(),
        n <= whole[axis],
    ensures
        fits(with_extent(whole, axis, n)),
        numel(with_extent(whole, axis, n)) <= numel(whole),
    decreases whole.len(),
{
    let part = with_extent(whole, axis, n);
    lemma_numel_front(whole);
    lemma_numel_front(part);
    if axis == 0 {
        assert(part.skip(1) =~= whole.skip(1));
        let k = numel(whole.skip(1));
        let w = whole[0];
        assert(n * k <= w * k) by (nonlinear_arith)
            requires
                n <= w,
        ;
    } else {
        assert(part.skip(1) =~= with_extent(whole.skip(1), axis - 1, n));
        lemma_part_fits(whole.skip(1), axis - 1, n);
        let a = whole[0];
        let p = numel(part.skip(1));
        let q = numel(whole.skip(1));
        assert(a * p <= a * q) by (nonlinear_arith)
            requires
                p <= q,
        ;
    }
}

/// A position of the slice is a position of the whole.
proof fn lemma_slice_source(
    whole: Seq<usize>,
    part: Seq<usize>,
    axis: int,
    start: usize,
    end: usize,
    i: nat,
)
    requires
        0 <= axis < whole.len(),
        start <= end <= whole[axis],
        part == with_extent(whole, axis, (end - start) as usize),
        i < numel(part),
    ensures
        in_range(whole, shifted(coords(part, i), axis, start as nat)),
        slice_source(whole, part, axis, start as nat, i) < numel(whole),
{
    lemma_coords_in_range(part, i);
    let c = coords(part, i);
    let d = shifted(c, axis, start as nat);
    assert forall|k: int| 0 <= k < whole.len() implies #[trigger] d[k] < whole[k] by {
        assert(c[k] < part[k]);
    }
    lemma_ravel_bound(whole, d);
}

/// Cuts the range from `start` to `end` out along one axis.
pub fn slice<F: Float>(f: &F, x: &Tensor, axis: usize, start: usize, end: usize) -> (r: Result<
    Tensor,
    Error,
>)
    requires
        x.wf(),
    ensures
        realized(*f, slice_outcome(x@, axis, start, end), r),
{
    let ndim: usize = x.shape.dims.len();
    if axis >= ndim {
        return Err(execution_error("Slice axis out of bounds"));
    }
    if start > end || end > x.shape.dims[axis] {
        return Err(execution_error("Invalid slice range"));
    }
    let mut part: Vec<usize> = copy_dims(&x.shape.dims);
    part.set(axis, end - start);
    proof {
        lemma_part_fits(x@.shape, axis as int, (end - start) as usize);
    }
    let count: usize = match checked_numel(&part) {
        Some(n) => n,
        None => 0,
    };
    match &x.data {
        AnyData::F32(d) => {
            let strides = get_strides(&x.shape.dims);
            let mut out: Vec<u32> = Vec::new();
            for i in 0..count
                invariant
                    ndim == x@.shape.len(),
                    axis < ndim,
                    start <= end <= x@.shape[axis as int],
                    fits(x@.shape),
                    d@.len() == numel(x@.shape),
                    part@ == with_extent(x@.shape, axis as int, (end - start) as usize),
                    count == numel(part@),
                    strides@.len() == ndim,
                    forall|k: int| 0 <= k < ndim ==> #[trigger] strides@[k] == stride(x@.shape, k),
                    out@.len() == i,
                    forall|j: int|
                        0 <= j < i ==> #[trigger] out@[j] == sliced(
                            d@,
                            x@.shape,
                            axis as int,
                            start,
                            end,
                        )[j],
            {
                let mut c = unravel(i, &part);
                proof {
                    lemma_slice_source(x@.shape, part@, axis as int, start, end, i as nat);
                    let d = shifted(coords(part@, i as nat), axis as int, start as nat);
                    assert(as_nats(c@).len() == ndim);
                    assert(as_nats(c@)[axis as int] == c@[axis as int]);
                    assert(d[axis as int] < x@.shape[axis as int]);
                }
                let ghost before = c@;
                let moved: usize = c[axis] + start;
                c.set(axis, moved);
                proof {
                    assert(as_nats(c@) =~= shifted(as_nats(before), axis as int, start as nat));
                }
                let at: usize = crate::shape::ravel_index(&c, &x.shape.dims, &strides);
                out.push(d[at]);
            }
            proof {
                assert(out@ =~= sliced(d@, x@.shape, axis as int, start, end));
            }
            Ok(Tensor::new(out, Shape::new(part)))
        },
        AnyData::F16(_) => if count == 0 {
            Ok(Tensor::new(Vec::new(), Shape::new(part)))
        } else {
            Err(not_single_error())
        },
    }
}

/// What stands at place `j` after the first `n` of the numbers `vals` were
/// written, number `i` at place `pos(i)`, over zeros.
pub open spec fn written(n: nat, pos: spec_fn(int) -> nat, vals: Seq<u32>, j: int) -> u32
    decreases n,
{
    if n == 0 {
        ZERO
    } else if pos(n - 1) == j {
        vals[n - 1]
    } else {
        written((n - 1) as nat, pos, vals, j)
    }
}

/// Where the elements of a slice stand in the whole.
pub open spec fn slice_positions(
    whole: Seq<usize>,
    part: Seq<usize>,
    axis: int,
    start: nat,
) -> spec_fn(int) -> nat {
    |i: int| slice_source(whole, part, axis, start, i as nat)
}

/// What the gradient of a slice yields: zeros in the shape of `x` with the
/// elements of `dy` at the places they were sliced from. Axes that `dy` has
/// beyond those of `x` are left out of account.
pub open spec fn slice_grad_outcome(
    x: TensorView,
    dy: TensorView,
    axis: usize,
    start: usize,
) -> Outcome {
    let part = dy.shape.take(x.shape.len() as int);
    let pos = slice_positions(x.shape, part, axis as int, start as nat);
    if dy.data.len() > 0 && (axis >= x.shape.len() || dy.shape.len() < x.shape.len()) {
        misfit()
    } else {
        match (x.data, dy.data) {
            (DataView::F32(d), DataView::F32(g)) => if forall|i: int|
                0 <= i < g.len() ==> #[trigger] pos(i) < d.len() {
                yields(
                    x.shape,
                    leaves(Seq::new(d.len(), |j: int| written(g.len(), pos, g, j))),
                )
            } else {
                misfit()
            },
            (DataView::F32(d), DataView::F16(g)) => if g.len() == 0 {
                yields(x.shape, leaves(Seq::new(d.len(), |j: int| ZERO)))
            } else {
                not_single()
            },
            _ => not_single(),
        }
    }
}

/// A far coordinate makes the position larger than any machine number.
proof fn lemma_tail_beyond(whole: Seq<usize>, c: Seq<nat>, axis: int)
    requires
        fits(whole),
        numel(whole) > 0,
        c.len() == whole.len(),
        0 <= axis < whole.len(),
        c[axis] > usize::MAX,
    ensures
        ravel(whole, c) > usize::MAX,
        ravel(whole, c) >= numel(whole),
    decreases whole.len(),
{
    lemma_positive_dims(whole);
    lemma_numel_front(whole);
    let k = numel(whole.skip(1));
    assert(whole.skip(0) =~= whole);
    assert(numel(whole.skip(0)) <= usize::MAX);
    assert(numel(whole.skip(1)) > 0);
    if axis == 0 {
        let a = c[0];
        assert(a * k >= a) by (nonlinear_arith)
            requires
                k >= 1,
        ;
    } else {
        lemma_tail_beyond(whole.skip(1), c.skip(1), axis - 1);
        let a = c[0];
        assert(a * k >= 0) by (nonlinear_arith);
    }
}

/// Puts the elements of `dy` where a slice of `x` took them from.
pub fn slice_grad<F: Float>(f: &F, x: &Tensor, dy: &Tensor, axis: usize, start: usize) -> (r: Result<
    Tensor,
    Error,
>)
    requires
        x.wf(),
        dy.wf(),
    ensures
        realized(*f, slice_grad_outcome(x@, dy@, axis, start), r),
{
    let ndim: usize = x.shape.dims.len();
    let more: bool = count_of(dy) > 0;
    if more && (axis >= ndim || dy.shape.dims.len() < ndim) {
        return Err(misfit_error());
    }
    match (&x.data, &dy.data) {
        (AnyData::F32(d), AnyData::F32(g)) => {
            let mut part: Vec<usize> = copy_dims(&dy.shape.dims);
            if more {
                part.truncate(ndim);
                proof {
                    assert(part@ =~= dy@.shape.take(ndim as int));
                    lemma_positive_dims(dy@.shape);
                    lemma_numel_positive(part@);
                }
            }
            let ghost pos = slice_positions(
                x@.shape,
                dy@.shape.take(ndim as int),
                axis as int,
                start as nat,
            );
            let strides = get_strides(&x.shape.dims);
            let count: usize = g.len();
            let size: usize = d.len();
            let mut out: Vec<u32> = vec![ZERO; size];
            for i in 0..count
                invariant
                    ndim == x@.shape.len(),
                    count > 0 ==> axis < ndim && ndim <= dy@.shape.len() && numel(part@) > 0
                        && part@ == dy@.shape.take(ndim as int),
                    fits(x@.shape),
                    size == numel(x@.shape),
                    count == g@.len(),
                    x@.data == DataView::F32(d@),
                    d@.len() == size,
                    dy@.data == DataView::F32(g@),
                    strides@.len() == ndim,
                    forall|k: int| 0 <= k < ndim ==> #[trigger] strides@[k] == stride(x@.shape, k),
                    pos == slice_positions(
                        x@.shape,
                        dy@.shape.take(ndim as int),
                        axis as int,
                        start as nat,
                    ),
                    out@.len() == size,
                    forall|k: int| 0 <= k < i ==> #[trigger] pos(k) < size,
                    forall|j: int|
                        0 <= j < size ==> #[trigger] out@[j] == written(i as nat, pos, g@, j),
            {
                let mut c = unravel(i, &part);
                let ghost before = c@;
                proof {
                    assert(as_nats(c@).len() == ndim);
                    assert(as_nats(c@)[axis as int] == c@[axis as int]);
                }
                let moved: usize = match c[axis].checked_add(start) {
                    Some(v) => v,
                    None => {
                        proof {
                            let far = shifted(
                                coords(part@, i as nat),
                                axis as int,
                                start as nat,
                            );
                            if size > 0 {
                                lemma_tail_beyond(x@.shape, far, axis as int);
                            }
                            assert(!(pos(i as int) < d@.len()));
                        }
                        return Err(misfit_error());
                    },
                };
                c.set(axis, moved);
                proof {
                    assert(as_nats(c@) =~= shifted(as_nats(before), axis as int, start as nat));
                }
                let at: usize = match crate::shape::checked_ravel(&c, &x.shape.dims, &strides) {
                    Some(v) => v,
                    None => {
                        proof {
                            assert(!(pos(i as int) < d@.len()));
                        }
                        return Err(misfit_error());
                    },
                };
                if at >= size {
                    proof {
                        assert(!(pos(i as int) < d@.len()));
                    }
                    return Err(misfit_error());
                }
                out.set(at, g[i]);
            }
            proof {
                assert(out@ =~= Seq::new(d@.len(), |j: int| written(g@.len(), pos, g@, j)));
            }
            Ok(Tensor::new(out, x.shape.copy()))
        },
        (AnyData::F32(d), AnyData::F16(g)) => {
            if g.len() > 0 {
                return Err(not_single_error());
            }
            let size: usize = d.len();
            let out: Vec<u32> = vec![ZERO; size];
            proof {
                assert(out@ =~= Seq::new(d@.len(), |j: int| ZERO));
            }
            Ok(Tensor::new(out, x.shape.copy()))
        },
        _ => Err(not_single_error()),
    }
}

/// Slicing what the gradient of a slice yields gives the gradient back.
pub proof fn law_slice_of_slice_grad(
    whole: Seq<usize>,
    axis: int,
    start: usize,
    end: usize,
    g: Seq<u32>,
)
    requires
        0 <= axis < whole.len(),
        start <= end <= whole[axis],
        g.len() == numel(with_extent(whole, axis, (end - start) as usize)),
    ensures
        ({
            let part = with_extent(whole, axis, (end - start) as usize);
            let pos = slice_positions(whole, part, axis, start as nat);
            let spread = Seq::new(numel(whole), |j: int| written(g.len(), pos, g, j));
            sliced(spread, whole, axis, start, end) == g
        }),
{
    let part = with_extent(whole, axis, (end - start) as usize);
    let pos = slice_positions(whole, part, axis, start as nat);
    let spread = Seq::new(numel(whole), |j: int| written(g.len(), pos, g, j));
    assert forall|i: int| 0 <= i < g.len() implies sliced(spread, whole, axis, start, end)[i]
        == g[i] by {
        lemma_slice_source(whole, part, axis, start, end, i as nat);
        assert forall|k: int| 0 <= k < g.len() && k != i implies #[trigger] pos(k) != pos(i) by {
            lemma_slice_source(whole, part, axis, start, end, k as nat);
            lemma_slice_source_injective(whole, part, axis, start, end, i as nat, k as nat);
        }
        lemma_written_once(g.len(), pos, g, i);
    }
    assert(sliced(spread, whole, axis, start, end) =~= g);
}

proof fn lemma_slice_source_injective(
    whole: Seq<usize>,
    part: Seq<usize>,
    axis: int,
    start: usize,
    end: usize,
    i: nat,
    k: nat,
)
    requires
        0 <= axis < whole.len(),
        start <= end <= whole[axis],
        part == with_extent(whole, axis, (end - start) as usize),
        i < numel(part),
        k < numel(part),
        i != k,
    ensures
        slice_source(whole, part, axis, start as nat, i) != slice_source(
            whole,
            part,
            axis,
            start as nat,
            k,
        ),
{
    lemma_slice_source(whole, part, axis, start, end, i);
    lemma_slice_source(whole, part, axis, start, end, k);
    let ci = coords(part, i);
    let ck = coords(part, k);
    let di = shifted(ci, axis, start as nat);
    let dk = shifted(ck, axis, start as nat);
    if ravel(whole, di) == ravel(whole, dk) {
        crate::shape::law_ravel_injective(whole, di, dk);
        assert(ci =~= ck) by {
            assert forall|a: int| 0 <= a < ci.len() implies ci[a] == ck[a] by {
                assert(di[a] == dk[a]);
            }
        }
        law_ravel_of_coords(part, i);
        law_ravel_of_coords(part, k);
    }
}

proof fn lemma_written_once(n: nat, pos: spec_fn(int) -> nat, vals: Seq<u32>, i: int)
    requires
        0 <= i < n,
        forall|k: int| 0 <= k < n && k != i ==> #[trigger] pos(k) != pos(i),
    ensures
        written(n, pos, vals, pos(i) as int) == vals[i],
    decreases n,
{
    if i < n - 1 {
        assert(pos(n - 1) != pos(i));
        lemma_written_once((n - 1) as nat, pos, vals, i);
    }
}

/// Which tensor holds place `v` of a row of extents, counting from tensor `i`
/// on, and the place within it.
pub open spec fn located(sizes: Seq<usize>, v: nat, i: int) -> (int, nat)
    decreases sizes.len() - i,
{
    if i >= sizes.len() {
        (0, 0)
    } else if v < sizes[i] {
        (i, v)
    } else {
        located(sizes, (v - sizes[i]) as nat, i + 1)
    }
}

/// The sum of the extents from tensor `i` on.
pub open spec fn total_extent(sizes: Seq<usize>, i: int) -> nat
    decreases sizes.len() - i,
{
    if i >= sizes.len() {
        0
    } else {
        sizes[i] as nat + total_extent(sizes, i + 1)
    }
}

/// The extents of the operands along one axis.
pub open spec fn extents(xs: Seq<TensorView>, axis: int) -> Seq<usize> {
    Seq::new(xs.len(), |i: int| xs[i].shape[axis])
}

/// The shape of a concatenation.
pub open spec fn concat_shape(xs: Seq<TensorView>, axis: int) -> Seq<usize> {
    with_extent(xs[0].shape, axis, total_extent(extents(xs, axis), 0) as usize)
}

/// The operand that element `i` of a concatenation comes from, and its
/// position there.
pub open spec fn concat_source(xs: Seq<TensorView>, axis: int, i: nat) -> (int, nat) {
    let c = coords(concat_shape(xs, axis), i);
    let (t, v) = located(extents(xs, axis), c[axis], 0);
    (t, ravel(xs[t].shape, c.update(axis, v)))
}

/// Every operand that elements are taken from is single precision.
pub open spec fn singles_are_read(xs: Seq<TensorView>, axis: int) -> bool {
    numel(concat_shape(xs, axis)) > 0 ==> forall|i: int|
        0 <= i < xs.len() && (#[trigger] xs[i]).shape[axis] > 0 ==> xs[i].data is F32
}

/// Element `i` of a concatenation comes from within its operand, which has at
/// least the axes of the first.
pub open spec fn concat_in_range(xs: Seq<TensorView>, axis: int, i: int) -> bool {
    let (t, p) = concat_source(xs, axis, i as nat);
    xs[t].shape.len() >= xs[0].shape.len() && p < xs[t].singles().len()
}

/// The elements of a concatenation.
pub open spec fn concatenated(xs: Seq<TensorView>, axis: int) -> Seq<u32> {
    Seq::new(
        numel(concat_shape(xs, axis)),
        |i: int| {
            let (t, p) = concat_source(xs, axis, i as nat);
            xs[t].singles()[p as int]
        },
    )
}

/// What a concatenation yields.
pub open spec fn concat_outcome(xs: Seq<TensorView>, axis: usize) -> Outcome {
    if xs.len() == 0 {
        fails("Concat requires at least 1 input"@)
    } else if axis >= xs[0].shape.len() {
        fails("Concat axis out of bounds"@)
    } else if exists|i: int| 0 <= i < xs.len() && (#[trigger] xs[i]).shape.len() <= axis {
        misfit()
    } else if total_extent(extents(xs, axis as int), 0) > usize::MAX || !fits(
        concat_shape(xs, axis as int),
    ) {
        misfit()
    } else if !singles_are_read(xs, axis as int) {
        not_single()
    } else if !(forall|i: int|
        0 <= i < numel(concat_shape(xs, axis as int)) ==> #[trigger] concat_in_range(
            xs,
            axis as int,
            i,
        )) {
        misfit()
    } else {
        yields(concat_shape(xs, axis as int), leaves(concatenated(xs, axis as int)))
    }
}

/// A place within all the extents is within one of them.
proof fn lemma_located(sizes: Seq<usize>, v: nat, i: int)
    requires
        0 <= i <= sizes.len(),
        v < total_extent(sizes, i),
    ensures
        i <= located(sizes, v, i).0 < sizes.len(),
        located(sizes, v, i).1 < sizes[located(sizes, v, i).0],
        located(sizes, v, i).1 <= v,
    decreases sizes.len() - i,
{
    if i < sizes.len() && v >= sizes[i] {
        lemma_located(sizes, (v - sizes[i]) as nat, i + 1);
    }
}

proof fn lemma_total_split(sizes: Seq<usize>, k: int)
    requires
        0 <= k < sizes.len(),
    ensures
        total_extent(sizes, k) == sizes[k] + total_extent(sizes, k + 1),
{
}

/// Joins tensors along one axis.
pub fn concat<F: Float>(f: &F, inputs: &[&Tensor], axis: usize) -> (r: Result<Tensor, Error>)
    requires
        operands_wf(inputs@),
    ensures
        realized(*f, concat_outcome(operand_views(inputs@), axis), r),
{
    let ghost xs = operand_views(inputs@);
    let n: usize = inputs.len();
    if n == 0 {
        return Err(execution_error("Concat requires at least 1 input"));
    }
    let ndim: usize = inputs[0].shape.dims.len();
    if axis >= ndim {
        return Err(execution_error("Concat axis out of bounds"));
    }
    for i in 0..n
        invariant
            xs == operand_views(inputs@),
            n == inputs@.len(),
            n > 0,
            ndim == xs[0].shape.len(),
            axis < ndim,
            forall|j: int| 0 <= j < i ==> axis < (#[trigger] xs[j]).shape.len(),
    {
        if inputs[i].shape.dims.len() <= axis {
            proof {
                assert(xs[i as int].shape.len() <= axis);
            }
            return Err(misfit_error());
        }
    }
    let mut sizes: Vec<usize> = Vec::new();
    for i in 0..n
        invariant
            xs == operand_views(inputs@),
            n == inputs@.len(),
            n > 0,
            ndim == xs[0].shape.len(),
            axis < ndim,
            forall|j: int| 0 <= j < n ==> axis < (#[trigger] xs[j]).shape.len(),
            sizes@.len() == i,
            forall|j: int| 0 <= j < i ==> #[trigger] sizes@[j] == xs[j].shape[axis as int],
    {
        proof {
            assert(xs[i as int] == inputs@[i as int]@);
        }
        sizes.push(inputs[i].shape.dims[axis]);
    }
    proof {
        assert(sizes@ =~= extents(xs, axis as int));
    }
    let mut total: usize = 0;
    let mut k: usize = n;
    while k > 0
        invariant
            k <= n,
            n == sizes@.len(),
            total == total_extent(sizes@, k as int),
            xs == operand_views(inputs@),
            sizes@ == extents(xs, axis as int),
            n > 0,
            n == xs.len(),
            ndim == xs[0].shape.len(),
            axis < ndim,
            forall|j: int| 0 <= j < n ==> axis < (#[trigger] xs[j]).shape.len(),
        decreases k,
    {
        k = k - 1;
        proof {
            lemma_total_split(sizes@, k as int);
        }
        total = match sizes[k].checked_add(total) {
            Some(v) => v,
            None => {
                proof {
                    lemma_total_monotone(sizes@, 0, k as int);
                }
                return Err(misfit_error());
            },
        };
    }
    let mut out_dims: Vec<usize> = copy_dims(&inputs[0].shape.dims);
    out_dims.set(axis, total);
    proof {
        assert(out_dims@ == concat_shape(xs, axis as int));
    }
    let count: usize = match checked_numel(&out_dims) {
        Some(v) => v,
        None => {
            return Err(misfit_error());
        },
    };
    for i in 0..n
        invariant
            xs == operand_views(inputs@),
            n == inputs@.len(),
            n > 0,
            ndim == xs[0].shape.len(),
            axis < ndim,
            forall|j: int| 0 <= j < n ==> axis < (#[trigger] xs[j]).shape.len(),
            sizes@ == extents(xs, axis as int),
            total == total_extent(sizes@, 0),
            out_dims@ == concat_shape(xs, axis as int),
            fits(out_dims@),
            count == numel(out_dims@),
            count > 0 ==> forall|j: int|
                0 <= j < i && (#[trigger] xs[j]).shape[axis as int] > 0 ==> xs[j].data is F32,
    {
        proof {
            assert(xs[i as int] == inputs@[i as int]@);
        }
        match &inputs[i].data {
            AnyData::F32(_) => {},
            AnyData::F16(_) => {
                if count > 0 && sizes[i] > 0 {
                    proof {
                        assert(xs[i as int].shape[axis as int] > 0);
                    }
                    return Err(not_single_error());
                }
            },
        }
    }
    let mut strides: Vec<Vec<usize>> = Vec::new();
    for i in 0..n
        invariant
            xs == operand_views(inputs@),
            operands_wf(inputs@),
            n == inputs@.len(),
            strides@.len() == i,
            forall|j: int|
                0 <= j < i ==> (#[trigger] strides@[j])@.len() == xs[j].shape.len() && forall|a: int|
                    0 <= a < xs[j].shape.len() ==> #[trigger] strides@[j]@[a] == stride(
                        xs[j].shape,
                        a,
                    ),
    {
        proof {
            assert(inputs@[i as int].wf());
        }
        strides.push(get_strides(&inputs[i].shape.dims));
    }
    let mut out: Vec<u32> = Vec::new();
    for i in 0..count
        invariant
            xs == operand_views(inputs@),
            operands_wf(inputs@),
            n == inputs@.len(),
            n > 0,
            singles_are_read(xs, axis as int),
            ndim == xs[0].shape.len(),
            axis < ndim,
            forall|j: int| 0 <= j < n ==> axis < (#[trigger] xs[j]).shape.len(),
            sizes@ == extents(xs, axis as int),
            total == total_extent(sizes@, 0),
            out_dims@ == concat_shape(xs, axis as int),
            out_dims@[axis as int] == total,
            fits(out_dims@),
            count == numel(out_dims@),
            strides@.len() == n,
            forall|j: int|
                0 <= j < n ==> (#[trigger] strides@[j])@.len() == xs[j].shape.len() && forall|a: int|
                    0 <= a < xs[j].shape.len() ==> #[trigger] strides@[j]@[a] == stride(
                        xs[j].shape,
                        a,
                    ),
            out@.len() == i,
            forall|j: int| 0 <= j < i ==> #[trigger] concat_in_range(xs, axis as int, j),
            forall|j: int| 0 <= j < i ==> #[trigger] out@[j] == concatenated(xs, axis as int)[j],
    {
        let mut c = unravel(i, &out_dims);
        let ghost before = c@;
        proof {
            assert(as_nats(c@).len() == ndim);
            assert(as_nats(c@)[axis as int] == c@[axis as int]);
            assert(c@[axis as int] < total);
            lemma_located(sizes@, c@[axis as int] as nat, 0);
        }
        let mut t: usize = 0;
        let mut v: usize = c[axis];
        while v >= sizes[t]
            invariant
                t < n,
                n == sizes@.len(),
                v < total_extent(sizes@, t as int),
                located(sizes@, before[axis as int] as nat, 0) == located(
                    sizes@,
                    v as nat,
                    t as int,
                ),
            decreases n - t,
        {
            proof {
                lemma_total_split(sizes@, t as int);
                assert(total_extent(sizes@, n as int) == 0);
            }
            v = v - sizes[t];
            t = t + 1;
        }
        c.set(axis, v);
        proof {
            assert(as_nats(c@) =~= as_nats(before).update(axis as int, v as nat));
            assert(concat_source(xs, axis as int, i as nat) == (
                t as int,
                ravel(xs[t as int].shape, as_nats(c@)),
            ));
            assert(xs[t as int] == inputs@[t as int]@);
            assert(inputs@[t as int].wf());
            assert(xs[t as int].shape[axis as int] > v);
            assert(xs[t as int].data is F32);
            assert(strides@[t as int]@.len() == xs[t as int].shape.len());
        }
        let data: &Vec<u32> = inputs[t].data();
        let size: usize = data.len();
        if inputs[t].shape.dims.len() < ndim {
            proof {
                assert(!concat_in_range(xs, axis as int, i as int));
            }
            return Err(misfit_error());
        }
        let at: usize = match crate::shape::checked_ravel(&c, &inputs[t].shape.dims, &strides[t]) {
            Some(p) => p,
            None => {
                proof {
                    assert(!concat_in_range(xs, axis as int, i as int));
                }
                return Err(misfit_error());
            },
        };
        if at >= size {
            proof {
                assert(!concat_in_range(xs, axis as int, i as int));
            }
            return Err(misfit_error());
        }
        out.push(data[at]);
        proof {
            assert(concat_in_range(xs, axis as int, i as int));
        }
    }
    proof {
        assert(out@ =~= concatenated(xs, axis as int));
    }
    Ok(Tensor::new(out, Shape::new(out_dims)))
}

proof fn lemma_total_monotone(sizes: Seq<usize>, i: int, k: int)
    requires
        0 <= i <= k <= sizes.len(),
    ensures
        total_extent(sizes, i) >= total_extent(sizes, k),
    decreases k - i,
{
    if i < k {
        lemma_total_monotone(sizes, i + 1, k);
    }
}

/// The sum of the first `i` extents.
pub open spec fn extent_before(sizes: Seq<usize>, i: nat) -> nat
    decreases i,
{
    if i == 0 {
        0
    } else {
        extent_before(sizes, (i - 1) as nat) + sizes[i - 1] as nat
    }
}

/// The extents before a place and those from it on are all extents.
proof fn lemma_extent_before(sizes: Seq<usize>, i: nat)
    requires
        i <= sizes.len(),
    ensures
        extent_before(sizes, i) + total_extent(sizes, i as int) == total_extent(sizes, 0),
    decreases i,
{
    if i > 0 {
        lemma_extent_before(sizes, (i - 1) as nat);
        lemma_total_split(sizes, i - 1);
    }
}

/// A place of tensor `i`, behind the extents from `k` on that come before, is
/// found there.
proof fn lemma_located_behind(sizes: Seq<usize>, k: int, i: int, v: nat)
    requires
        0 <= k <= i < sizes.len(),
        v < sizes[i],
    ensures
        total_extent(sizes, k) >= total_extent(sizes, i),
        located(sizes, (total_extent(sizes, k) - total_extent(sizes, i) + v) as nat, k) == (i, v),
    decreases i - k,
{
    if k < i {
        lemma_located_behind(sizes, k + 1, i, v);
        lemma_total_split(sizes, k);
    }
}

/// A slice undoes a concatenation: the range that an operand went to holds the
/// operand.
pub proof fn law_slice_of_concat(xs: Seq<TensorView>, axis: usize, i: int)
    requires
        concat_outcome(xs, axis) is Yields,
        forall|j: int| 0 <= j < xs.len() ==> (#[trigger] xs[j]).wf(),
        forall|j: int|
            0 <= j < xs.len() ==> (#[trigger] xs[j]).shape == with_extent(
                xs[0].shape,
                axis as int,
                xs[j].shape[axis as int],
            ),
        0 <= i < xs.len(),
    ensures
        ({
            let start = extent_before(extents(xs, axis as int), i as nat);
            let end = start + xs[i].shape[axis as int] as nat;
            let whole = single(concatenated(xs, axis as int), concat_shape(xs, axis as int));
            &&& end <= usize::MAX
            &&& slice_outcome(whole, axis, start as usize, end as usize) == yields(
                xs[i].shape,
                leaves(xs[i].singles()),
            )
        }),
{
    let a = axis as int;
    let sizes = extents(xs, a);
    let n = xs[i].shape[a];
    let start = extent_before(sizes, i as nat);
    let shape = concat_shape(xs, a);
    let data = concatenated(xs, a);
    lemma_extent_before(sizes, i as nat);
    lemma_total_split(sizes, i);
    assert(sizes[i] == n);
    assert(shape[a] == total_extent(sizes, 0));
    let s = start as usize;
    let e = (start + n) as usize;
    let part = with_extent(shape, a, (e - s) as usize);
    assert(xs[i].shape == with_extent(xs[0].shape, a, n));
    assert(part =~= xs[i].shape);
    let cut = sliced(data, shape, a, s, e);
    assert(cut.len() == xs[i].singles().len()) by {
        if numel(part) > 0 {
            lemma_positive_dims(part);
            assert forall|k: int| 0 <= k < shape.len() implies #[trigger] shape[k] > 0 by {
                assert(part[k] > 0);
            }
            lemma_numel_positive(shape);
            assert(part[a] == n);
            assert(xs[i].data is F32);
        }
    }
    assert forall|j: int| 0 <= j < cut.len() implies cut[j] == xs[i].singles()[j] by {
        let c = coords(part, j as nat);
        let d = shifted(c, a, start);
        lemma_coords_in_range(part, j as nat);
        lemma_slice_source(shape, part, a, s, e, j as nat);
        let at = ravel(shape, d);
        crate::shape::law_coords_of_ravel(shape, d);
        assert(c[a] < part[a]);
        lemma_located_behind(sizes, 0, i, c[a]);
        assert(d[a] == (total_extent(sizes, 0) - total_extent(sizes, i) + c[a]) as nat);
        assert(concat_source(xs, a, at).0 == i);
        assert(d.update(a, c[a]) =~= c);
        law_ravel_of_coords(part, j as nat);
        assert(concat_source(xs, a, at) == (i, j as nat));
    }
    assert(cut =~= xs[i].singles());
}

} // verus!
