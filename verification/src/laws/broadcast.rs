//! What broadcasting reads.

use crate::exact::{
    all_finite, exact, is_finite, is_number, lemma_finite, number, real_of, Exact,
};
use crate::kernels::elementwise::{broadcast_outcome, Binary};
use crate::kernels::movement::lemma_numel_1;
use crate::shape::{
    broadcast_coords, broadcast_index, broadcast_of, coords, law_broadcast_operands,
    law_broadcast_same_shape, law_coords_of_ravel, lemma_broadcast_in_range, lemma_coords_skip,
    numel, ravel,
};
use crate::sym::Outcome;
use crate::tensor::TensorView;
use vstd::arithmetic::div_mod::*;
use vstd::prelude::*;

verus! {

/// The last axes of a shape have a number of elements that divides that of the
/// shape.
proof fn lemma_last_axes_divide(a: Seq<usize>, out: Seq<usize>) -> (k: nat)
    requires
        a.len() <= out.len(),
        out.skip(out.len() - a.len()) == a,
    ensures
        numel(out) == numel(a) * k,
    decreases out.len(),
{
    if out.len() == a.len() {
        assert(out.skip(0) =~= out);
        1
    } else {
        let rest = out.skip(1);
        assert(rest.skip(rest.len() - a.len()) =~= out.skip(out.len() - a.len()));
        let k = lemma_last_axes_divide(a, rest);
        let (n, f) = (numel(a), out[0] as nat);
        assert(f * (n * k) == n * (f * k)) by (nonlinear_arith);
        f * k
    }
}

/// A tensor whose shape is the last axes of the result repeats: what is read
/// for a position is what stands at the rest of it by the number of elements.
pub proof fn law_last_axes_repeat(a: Seq<usize>, out: Seq<usize>, idx: nat)
    requires
        a.len() <= out.len(),
        out.skip(out.len() - a.len()) == a,
        idx < numel(out),
    ensures
        numel(a) > 0,
        broadcast_index(a, out, idx) == idx % numel(a),
    decreases out.len(),
{
    let all = lemma_last_axes_divide(a, out);
    let n = numel(a);
    assert(n > 0) by (nonlinear_arith)
        requires
            idx < n * all,
    ;
    if out.len() == a.len() {
        assert(out.skip(0) =~= out);
        law_broadcast_same_shape(a, idx);
        lemma_small_mod(idx, n);
    } else {
        let rest = out.skip(1);
        assert(rest.skip(rest.len() - a.len()) =~= out.skip(out.len() - a.len()));
        let k = lemma_last_axes_divide(a, rest);
        let size = numel(rest);
        assert(size > 0) by (nonlinear_arith)
            requires
                idx < out[0] as nat * size,
        ;
        lemma_mod_bound(idx as int, size as int);
        law_last_axes_repeat(a, rest, idx % size);
        lemma_coords_skip(out, idx);
        let (c, d) = (coords(out, idx), coords(rest, idx % size));
        assert(broadcast_coords(a, c) =~= broadcast_coords(a, d)) by {
            assert forall|i: int| 0 <= i < a.len() implies #[trigger] broadcast_coords(a, c)[i]
                == broadcast_coords(a, d)[i] by {
                let j = rest.len() - a.len() + i;
                assert(c.skip(1)[j] == c[j + 1]);
            }
        }
        assert(k > 0) by (nonlinear_arith)
            requires
                size == n * k,
                size > 0,
        ;
        lemma_mod_mod(idx as int, n as int, k as int);
    }
}

/// A column repeats along the rows of a matrix: what is read for an element is
/// what stands in its row.
pub proof fn law_columns_repeat(r: usize, n: usize, i: int, j: int)
    requires
        0 <= i < r,
        0 <= j < n,
    ensures
        broadcast_index(seq![r, 1usize], seq![r, n], (i * n + j) as nat) == i,
{
    let (s, a) = (seq![r, n], seq![r, 1usize]);
    let c = seq![i as nat, j as nat];
    assert(s.skip(1) =~= seq![n]);
    assert(s.skip(1).skip(1) =~= Seq::<usize>::empty());
    assert(a.skip(1) =~= seq![1usize]);
    assert(a.skip(1).skip(1) =~= Seq::<usize>::empty());
    assert(c.skip(1) =~= seq![j as nat]);
    lemma_numel_1(n);
    lemma_numel_1(1);
    assert(i * n + j >= 0) by (nonlinear_arith)
        requires
            i >= 0,
            j >= 0,
            n >= 0,
    ;
    lemma_ravel_1(n, j as nat);
    assert(c[0] * numel(s.skip(1)) == i * n) by (nonlinear_arith)
        requires
            c[0] == i,
            numel(s.skip(1)) == n,
    ;
    assert(ravel(s, c) == i * n + j);
    law_coords_of_ravel(s, c);
    let b = broadcast_coords(a, c);
    let x: nat = if r == 1 {
        0
    } else {
        i as nat
    };
    assert(b =~= seq![x, 0nat]);
    assert(b.skip(1) =~= seq![0nat]);
    lemma_ravel_1(1, 0);
    assert(b[0] * numel(a.skip(1)) == x) by (nonlinear_arith)
        requires
            b[0] == x,
            numel(a.skip(1)) == 1,
    ;
    assert(ravel(a, b) == x);
}

/// The position of an element of a list.
proof fn lemma_ravel_1(n: usize, j: nat)
    ensures
        ravel(seq![n], seq![j]) == j,
{
    reveal_with_fuel(ravel, 2);
    let (s, c) = (seq![n], seq![j]);
    assert(s.skip(1) =~= Seq::<usize>::empty());
    assert(c.skip(1) =~= Seq::<nat>::empty());
    assert(numel(s.skip(1)) == 1);
    assert(j * 1 == j) by (nonlinear_arith);
}

/// A broadcast difference is what is missing: over the real numbers, with what
/// is read on the right it adds up to what is read on the left. A broadcast
/// sum, less the right, is the left.
pub proof fn law_broadcast_difference(m: Exact, x: TensorView, y: TensorView, i: int)
    requires
        broadcast_outcome(Binary::Add, x, y) is Yields,
        broadcast_outcome(Binary::Sub, x, y) is Yields,
        x.wf() && y.wf(),
        x.data is F32 && y.data is F32,
        all_finite(x.singles()) && all_finite(y.singles()),
        broadcast_of(x.shape, y.shape) matches Some(out) && 0 <= i < numel(out),
    ensures
        ({
            let out = broadcast_of(x.shape, y.shape)->0;
            let a = real_of(x.singles()[broadcast_index(x.shape, out, i as nat) as int]);
            let b = real_of(y.singles()[broadcast_index(y.shape, out, i as nat) as int]);
            &&& broadcast_outcome(Binary::Add, x, y) matches Outcome::Yields(s, _) && s.shape == out
                && is_number(m, s.data[i]) && number(m, s.data[i]) - b == a
            &&& broadcast_outcome(Binary::Sub, x, y) matches Outcome::Yields(s, _) && s.shape == out
                && is_number(m, s.data[i]) && number(m, s.data[i]) + b == a
        }),
{
    let out = broadcast_of(x.shape, y.shape)->0;
    law_broadcast_operands(x.shape, y.shape);
    lemma_broadcast_in_range(x.shape, out, i as nat);
    lemma_broadcast_in_range(y.shape, out, i as nat);
    let a = x.singles()[broadcast_index(x.shape, out, i as nat) as int];
    let b = y.singles()[broadcast_index(y.shape, out, i as nat) as int];
    assert(is_finite(a) && is_finite(b));
    lemma_finite(m, a);
    lemma_finite(m, b);
    reveal_with_fuel(exact, 2);
}

} // verus!
