//! What slices and their gradients hold.

use crate::float::{bits, ZERO};
use crate::kernels::movement::{
    reshape_outcome, slice_grad_outcome, slice_outcome, slice_positions, written,
};
use crate::shape::{
    coords, in_range, law_coords_of_ravel, lemma_coords_in_range, lemma_ravel_bound, numel, ravel,
};
use crate::sym::Outcome;
use crate::tensor::TensorView;
use vstd::prelude::*;

verus! {

/// A slice takes a range of one axis: what stands at coordinates `c` of the
/// slice stands, along that axis, `start` further on in the whole, and at the
/// same coordinates otherwise.
pub proof fn law_slice_takes_range(
    x: TensorView,
    axis: usize,
    start: usize,
    end: usize,
    c: Seq<nat>,
)
    requires
        slice_outcome(x, axis, start, end) is Yields,
        x.data is F32,
        in_range(x.shape.update(axis as int, (end - start) as usize), c),
    ensures
        ({
            let a = axis as int;
            let part = x.shape.update(a, (end - start) as usize);
            slice_outcome(x, axis, start, end) matches Outcome::Yields(s, _) && s.shape == part
                && s.data[ravel(part, c) as int] == bits(
                x.singles()[ravel(x.shape, c.update(a, c[a] + start as nat)) as int],
            )
        }),
{
    let part = x.shape.update(axis as int, (end - start) as usize);
    lemma_ravel_bound(part, c);
    law_coords_of_ravel(part, c);
}

/// The gradient of a slice is zero outside of the slice.
pub proof fn law_slice_gradient_is_zero_outside(
    x: TensorView,
    dy: TensorView,
    axis: usize,
    start: usize,
    c: Seq<nat>,
)
    requires
        slice_grad_outcome(x, dy, axis, start) is Yields,
        x.wf() && dy.wf(),
        x.data is F32 && dy.data is F32,
        dy.shape.len() == x.shape.len(),
        axis < x.shape.len(),
        start + dy.shape[axis as int] <= x.shape[axis as int],
        dy.shape == x.shape.update(axis as int, dy.shape[axis as int]),
        in_range(x.shape, c),
        c[axis as int] < start || c[axis as int] >= start + dy.shape[axis as int],
    ensures
        slice_grad_outcome(x, dy, axis, start) matches Outcome::Yields(s, _) && s.shape == x.shape
            && s.data[ravel(x.shape, c) as int] == bits(ZERO),
{
    let a = axis as int;
    let part = dy.shape.take(x.shape.len() as int);
    assert(part =~= dy.shape);
    let pos = slice_positions(x.shape, part, a, start as nat);
    let j = ravel(x.shape, c) as int;
    lemma_ravel_bound(x.shape, c);
    law_coords_of_ravel(x.shape, c);
    let g = dy.singles();
    assert forall|i: int| 0 <= i < g.len() implies #[trigger] pos(i) != j by {
        lemma_coords_in_range(part, i as nat);
        let d = coords(part, i as nat);
        let e = d.update(a, d[a] + start as nat);
        assert forall|k: int| 0 <= k < x.shape.len() implies #[trigger] e[k] < x.shape[k] by {
            assert(d[k] < part[k]);
        }
        assert(d[a] < part[a]);
        law_coords_of_ravel(x.shape, e);
        if pos(i) == j {
            assert(e == c);
            assert(e[a] == c[a]);
        }
    }
    lemma_never_written(g.len(), pos, g, j);
}

/// Where nothing was written zero stands.
proof fn lemma_never_written(n: nat, pos: spec_fn(int) -> nat, vals: Seq<u32>, j: int)
    requires
        forall|i: int| 0 <= i < n ==> #[trigger] pos(i) != j,
    ensures
        written(n, pos, vals, j) == ZERO,
    decreases n,
{
    if n > 0 {
        assert(pos(n - 1) != j);
        lemma_never_written((n - 1) as nat, pos, vals, j);
    }
}

/// A reshaped tensor has its elements in the same order.
pub proof fn law_reshape_keeps_order(x: TensorView, shape: Seq<usize>, i: int)
    requires
        reshape_outcome(x, shape) is Yields,
        0 <= i < x.singles().len(),
    ensures
        reshape_outcome(x, shape) matches Outcome::Yields(s, _) && s.shape == shape && s.data.len()
            == numel(shape) && s.data[i] == bits(x.singles()[i]),
{
}

} // verus!
