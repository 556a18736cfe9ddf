//! The gradients of a layer normalization.

use crate::exact::{
    all_finite, all_numbers, exact, is_finite, is_number, lemma_finite, lemma_rsum_linear,
    lemma_rsum_same, lemma_rsum_scale, lemma_sum_onto, number, real_of, rooted, rsum, Exact, Value,
};
use crate::float::{leaves, minus, over, times, Fx, ZERO};
use crate::kernels::reduce::{
    column, layer_norm_grad_b_outcome, layer_norm_grad_w_outcome, layer_norm_grad_x_outcome,
    layer_norm_grad_x_rows, row, scale_terms,
};
use crate::kernels::rows::{deviation_of, layer_norm_grad_row, normalized, products, sum_seq};
use crate::laws::rows::{
    average, lemma_deviation, lemma_normalized_row, lemma_place, lemma_row, lemma_same_moments,
    numbers_of_row, row_there, variance,
};
use crate::laws::steps::lemma_divided;
use crate::sym::Outcome;
use crate::tensor::TensorView;
use vstd::arithmetic::div_mod::*;
use vstd::prelude::*;

verus! {

/// A row with mean zero and variance one: distances from the mean over the
/// deviation.
pub open spec fn standard(m: Exact, d: Seq<u32>, cols: int, r: int, epsilon: u32) -> spec_fn(
    int,
) -> real {
    |i: int|
        (real_of(d[r * cols + i]) - average(cols as nat, numbers_of_row(d, cols, r))) / (m.sqrt)(
            variance(cols as nat, numbers_of_row(d, cols, r)) + real_of(epsilon),
        )
}

/// What a gradient with respect to a row is worth.
proof fn lemma_grad_row(
    m: Exact,
    x: Seq<Fx>,
    w: Seq<Fx>,
    dy: Seq<Fx>,
    epsilon: u32,
    z: real,
    hat: spec_fn(int) -> real,
    i: int,
)
    requires
        all_numbers(m, w) && all_numbers(m, dy),
        0 <= i < x.len() <= usize::MAX,
        w.len() == x.len(),
        dy.len() == x.len(),
        z > 0real,
        exact(m, deviation_of(x, epsilon)) == Value::Num(z),
        forall|j: int|
            0 <= j < x.len() ==> exact(m, #[trigger] normalized(x, epsilon)[j]) == Value::Num(
                hat(j),
            ),
    ensures
        ({
            let n = x.len() as real;
            let dw = |j: int| number(m, dy[j]) * number(m, w[j]);
            let s1 = rsum(x.len(), dw);
            let s2 = rsum(x.len(), |j: int| number(m, dy[j]) * number(m, w[j]) * hat(j));
            exact(m, layer_norm_grad_row(x, w, dy, epsilon)[i]) == Value::Num(
                ((dw(i) - s1 / n) - (hat(i) * s2) / n) / z,
            )
        }),
{
    let n = x.len();
    let h = normalized(x, epsilon);
    let dw = products(dy, w);
    let d = |j: int| number(m, dy[j]) * number(m, w[j]);
    let dh = |j: int| number(m, dy[j]) * number(m, w[j]) * hat(j);
    assert forall|j: int| 0 <= j < n implies is_number(m, #[trigger] dw[j]) && number(m, dw[j])
        == d(j) by {
        assert(is_number(m, dy[j]) && is_number(m, w[j]));
        reveal_with_fuel(exact, 2);
    }
    lemma_sum_onto(m, ZERO, dw);
    lemma_rsum_same(n, |j: int| number(m, dw[j]), d);
    let ps = products(dw, h);
    assert forall|j: int| 0 <= j < n implies is_number(m, #[trigger] ps[j]) && number(m, ps[j])
        == dh(j) by {
        assert(is_number(m, dw[j]));
        assert(exact(m, h[j]) == Value::Num(hat(j)));
    }
    lemma_sum_onto(m, ZERO, ps);
    lemma_rsum_same(n, |j: int| number(m, ps[j]), dh);
    assert(is_number(m, dw[i]));
    assert(exact(m, h[i]) == Value::Num(hat(i)));
    assert(exact(m, sum_seq(dw)) == Value::Num(rsum(n, d)));
    assert(exact(m, sum_seq(ps)) == Value::Num(rsum(n, dh)));
    let nr = n as real;
    assert(nr != 0real);
    let en = Fx::Count(n as usize);
    assert(exact(m, en) == Value::Num(nr));
    let (s1, s2) = (rsum(n, d), rsum(n, dh));
    let e1 = over(sum_seq(dw), en);
    assert(exact(m, e1) == Value::Num(s1 / nr));
    let e2 = times(h[i], sum_seq(ps));
    assert(exact(m, e2) == Value::Num(hat(i) * s2));
    let e3 = over(e2, en);
    assert(exact(m, e3) == Value::Num((hat(i) * s2) / nr));
    let e4 = minus(dw[i], e1);
    assert(exact(m, e4) == Value::Num(d(i) - s1 / nr));
    let e5 = minus(e4, e3);
    assert(exact(m, e5) == Value::Num((d(i) - s1 / nr) - (hat(i) * s2) / nr));
    let e6 = over(e5, deviation_of(x, epsilon));
    assert(exact(m, e6) == Value::Num(((d(i) - s1 / nr) - (hat(i) * s2) / nr) / z));
    assert(layer_norm_grad_row(x, w, dy, epsilon)[i] == e6);
}

/// The gradient of a layer normalization with respect to a row: over the real
/// numbers, the deviation times its products with any direction is the sum of
/// the products of weight, gradient and direction, less the products of their
/// means and less the products of their shares along the standardized row.
pub proof fn law_layer_norm_input_gradient(
    m: Exact,
    x: TensorView,
    w: TensorView,
    dy: TensorView,
    epsilon: u32,
    r: int,
    e: spec_fn(int) -> real,
)
    requires
        rooted(m),
        row_there(x, r),
        w.data is F32 && w.singles().len() >= x.shape.last(),
        dy.data is F32 && dy.singles().len() >= x.singles().len(),
        all_finite(x.singles()) && all_finite(w.singles()) && all_finite(dy.singles()),
        is_finite(epsilon),
        real_of(epsilon) > 0real,
    ensures
        ({
            let cols = x.shape.last() as int;
            let n = cols as nat;
            let hat = standard(m, x.singles(), cols, r, epsilon);
            let z = (m.sqrt)(
                variance(n, numbers_of_row(x.singles(), cols, r)) + real_of(epsilon),
            );
            let d = |i: int| real_of(dy.singles()[r * cols + i]) * real_of(w.singles()[i]);
            layer_norm_grad_x_outcome(x, w, dy, epsilon) matches Outcome::Yields(s, _) && s.shape
                == x.shape && (forall|i: int|
                0 <= i < cols ==> is_number(m, #[trigger] s.data[r * cols + i])) && z * rsum(
                n,
                |i: int| number(m, s.data[r * cols + i]) * e(i),
            ) == rsum(n, |i: int| d(i) * e(i)) - (rsum(n, d) / (n as real)) * rsum(n, e) - (rsum(
                n,
                |i: int| d(i) * hat(i),
            ) / (n as real)) * rsum(n, |i: int| hat(i) * e(i))
        }),
{
    let cols = x.shape.last() as int;
    let n = cols as nat;
    let nr = n as real;
    let (xd, wd, gd) = (x.singles(), w.singles(), dy.singles());
    let f = numbers_of_row(xd, cols, r);
    let hat = standard(m, xd, cols, r, epsilon);
    let z = (m.sqrt)(variance(n, f) + real_of(epsilon));
    lemma_row(m, xd, cols, r);
    lemma_row(m, gd, cols, r);
    let (ex, ew, ed) = (
        leaves(row(xd, cols, r)),
        leaves(wd.take(cols)),
        leaves(row(gd, cols, r)),
    );
    assert forall|j: int| 0 <= j < ew.len() implies is_number(m, #[trigger] ew[j]) && number(
        m,
        ew[j],
    ) == real_of(wd[j]) by {
        assert(is_finite(wd[j]));
        lemma_finite(m, wd[j]);
    }
    lemma_deviation(m, ex, epsilon);
    let g0 = |i: int| number(m, ex[i]);
    assert forall|j: int| 0 <= j < cols implies #[trigger] g0(j) == f(j) by {
        assert(number(m, ex[j]) == real_of(xd[r * cols + j]));
    }
    lemma_same_moments(n, g0, f);
    assert forall|j: int| 0 <= j < ex.len() implies exact(m, #[trigger] normalized(ex, epsilon)[j])
        == Value::Num(hat(j)) by {
        lemma_normalized_row(m, xd, cols, r, epsilon, j);
    }
    assert(z > 0real) by {
        lemma_normalized_row(m, xd, cols, r, epsilon, 0);
    }
    let d = |i: int| real_of(dy.singles()[r * cols + i]) * real_of(w.singles()[i]);
    let d0 = |j: int| number(m, ed[j]) * number(m, ew[j]);
    assert forall|j: int| 0 <= j < n implies #[trigger] d0(j) == d(j) by {
        assert(is_number(m, ew[j]) && is_number(m, ed[j]));
    }
    lemma_rsum_same(n, d0, d);
    let dh = |i: int| d(i) * hat(i);
    let dh0 = |j: int| number(m, ed[j]) * number(m, ew[j]) * hat(j);
    assert forall|j: int| 0 <= j < n implies #[trigger] dh0(j) == dh(j) by {
        assert(d0(j) == d(j));
    }
    lemma_rsum_same(n, dh0, dh);
    let (s1, s2) = (rsum(n, d), rsum(n, dh));
    let (c1, c2) = (s1 / nr, s2 / nr);
    let s = layer_norm_grad_x_outcome(x, w, dy, epsilon)->Yields_0;
    let out = |i: int| number(m, s.data[r * cols + i]) * e(i);
    let zo = |i: int| z * out(i);
    let de = |i: int| d(i) * e(i);
    let he = |i: int| hat(i) * e(i);
    assert forall|i: int| 0 <= i < cols implies is_number(m, #[trigger] s.data[r * cols + i])
        && zo(i) == 1real * de(i) + (0real - c1) * e(i) + (0real - c2) * he(i) by {
        lemma_place(xd.len(), cols, layer_norm_grad_x_rows(xd, wd, gd, cols, epsilon), r, i);
        lemma_grad_row(m, ex, ew, ed, epsilon, z, hat, i);
        assert(s.data[r * cols + i] == layer_norm_grad_row(ex, ew, ed, epsilon)[i]);
        assert(d0(i) == d(i));
        let (di, hi, ei) = (d(i), hat(i), e(i));
        let t = (di - s1 / nr) - (hi * s2) / nr;
        assert(number(m, s.data[r * cols + i]) == t / z);
        lemma_divided(t, z);
        let q = t / z;
        assert(z * (q * ei) == (q * z) * ei) by (nonlinear_arith);
        lemma_divided(hi * s2, nr);
        lemma_divided(s2, nr);
        assert(hi * (c2 * nr) == (hi * c2) * nr) by (nonlinear_arith);
        crate::laws::steps::lemma_quotient(hi * c2, hi * s2, nr);
        assert(((di - c1) - hi * c2) * ei == 1real * (di * ei) + (0real - c1) * ei + (0real - c2)
            * (hi * ei)) by (nonlinear_arith);
    }
    assert forall|i: int| 0 <= i < n implies #[trigger] zo(i) == 1real * de(i) + (0real - c1) * e(i)
        + (0real - c2) * he(i) by {
        assert(is_number(m, s.data[r * cols + i]));
    }
    lemma_rsum_linear(n, zo, 1real, de, 0real - c1, e, 0real - c2, he);
    lemma_rsum_scale(n, z, out);
    lemma_rsum_same(n, |i: int| z * out(i), zo);
    let (a, b, c) = (rsum(n, de), rsum(n, e), rsum(n, he));
    assert(1real * a + (0real - c1) * b + (0real - c2) * c == a - c1 * b - c2 * c)
        by (nonlinear_arith);
}

/// The gradient of a layer normalization with respect to its scale: over the
/// real numbers, the sum over all rows of the gradient times the standardized
/// number.
pub proof fn law_layer_norm_scale_gradient(
    m: Exact,
    x: TensorView,
    dy: TensorView,
    epsilon: u32,
    c: int,
)
    requires
        rooted(m),
        x.data is F32 && dy.data is F32,
        x.shape.len() > 0,
        dy.singles().len() >= x.singles().len(),
        all_finite(x.singles()) && all_finite(dy.singles()),
        is_finite(epsilon),
        real_of(epsilon) > 0real,
        0 <= c < x.shape.last(),
    ensures
        ({
            let cols = x.shape.last() as int;
            layer_norm_grad_w_outcome(x, dy, epsilon) matches Outcome::Yields(s, _) && s.shape
                == seq![x.shape.last()] && exact(m, s.data[c]) == Value::Num(
                rsum(
                    (x.singles().len() as int / cols) as nat,
                    |r: int|
                        real_of(dy.singles()[r * cols + c]) * standard(
                            m,
                            x.singles(),
                            cols,
                            r,
                            epsilon,
                        )(c),
                ),
            )
        }),
{
    let cols = x.shape.last() as int;
    let (xd, gd) = (x.singles(), dy.singles());
    let rows = xd.len() / (cols as nat);
    let ts = scale_terms(xd, gd, cols, epsilon, rows, c);
    let f = |r: int| real_of(gd[r * cols + c]) * standard(m, xd, cols, r, epsilon)(c);
    lemma_fundamental_div_mod(xd.len() as int, cols);
    lemma_mod_bound(xd.len() as int, cols);
    assert forall|r: int| 0 <= r < rows implies is_number(m, #[trigger] ts[r]) && number(m, ts[r])
        == f(r) by {
        assert((r + 1) * cols <= xd.len()) by (nonlinear_arith)
            requires
                r + 1 <= rows,
                cols > 0,
                cols * rows <= xd.len(),
        ;
        lemma_row(m, xd, cols, r);
        lemma_normalized_row(m, xd, cols, r, epsilon, c);
        assert(is_finite(gd[r * cols + c]));
        lemma_finite(m, gd[r * cols + c]);
    }
    lemma_sum_onto(m, ZERO, ts);
    lemma_rsum_same(rows, |r: int| number(m, ts[r]), f);
    lemma_rsum_same(
        rows,
        f,
        |r: int|
            real_of(dy.singles()[r * cols + c]) * standard(m, x.singles(), cols, r, epsilon)(c),
    );
}

/// The gradient of a layer normalization with respect to its offset: over the
/// real numbers, the sums of the columns.
pub proof fn law_layer_norm_offset_gradient(m: Exact, dy: TensorView, c: int)
    requires
        dy.data is F32,
        dy.shape.len() > 0,
        all_finite(dy.singles()),
        0 <= c < dy.shape.last(),
    ensures
        ({
            let cols = dy.shape.last() as int;
            layer_norm_grad_b_outcome(dy) matches Outcome::Yields(s, _) && s.shape == seq![
                dy.shape.last(),
            ] && exact(m, s.data[c]) == Value::Num(
                rsum(
                    (dy.singles().len() as int / cols) as nat,
                    |r: int| real_of(dy.singles()[r * cols + c]),
                ),
            )
        }),
{
    let cols = dy.shape.last() as int;
    let gd = dy.singles();
    let rows = gd.len() / (cols as nat);
    let ts = column(gd, cols, rows, c);
    lemma_fundamental_div_mod(gd.len() as int, cols);
    lemma_mod_bound(gd.len() as int, cols);
    let f = |r: int| real_of(gd[r * cols + c]);
    assert forall|r: int| 0 <= r < rows implies is_number(m, #[trigger] ts[r]) && number(m, ts[r])
        == f(r) by {
        assert((r + 1) * cols <= gd.len()) by (nonlinear_arith)
            requires
                r + 1 <= rows,
                cols > 0,
                cols * rows <= gd.len(),
        ;
        lemma_row(m, gd, cols, r);
        assert(is_finite(gd[r * cols + c]));
        lemma_finite(m, gd[r * cols + c]);
    }
    lemma_sum_onto(m, ZERO, ts);
    lemma_rsum_same(rows, |r: int| number(m, ts[r]), f);
}

} // verus!
