//! What is done to rows: softmax and normalization.

use crate::exact::{
    all_finite, all_numbers, exact, exponential, is_finite, is_number, lemma_finite,
    lemma_rsum_least, lemma_rsum_linear, lemma_rsum_same, lemma_rsum_scale, lemma_sum_onto, number,
    real_of, rooted, rsum, Exact, Value,
};
use crate::float::{bits, leaves, minus, Fx, NEG_ZERO, ZERO};
use crate::kernels::movement::lemma_row_major;
use crate::kernels::reduce::{
    by_rows, layer_norm_outcome, layer_norm_rows, rms_norm_outcome, rms_norm_rows, row,
    softmax_grad_outcome, softmax_grad_rows, softmax_outcome, softmax_rows,
};
use crate::kernels::rows::{
    deviation_of, layer_norm_row, max_seq, mean_of, normalized, products, rms_norm_row, rms_of,
    softmax_grad_row, softmax_row, squared_distances, sum_seq, total_seq,
};
use crate::laws::heads::lemma_softmax_row;
use crate::sym::Outcome;
use crate::tensor::TensorView;
use vstd::prelude::*;

verus! {

/// The mean of `f(0)`, ..., `f(n - 1)`.
pub open spec fn average(n: nat, f: spec_fn(int) -> real) -> real {
    rsum(n, f) / (n as real)
}

/// The mean of the squares of the distances from the mean.
pub open spec fn variance(n: nat, f: spec_fn(int) -> real) -> real {
    average(n, |i: int| (f(i) - average(n, f)) * (f(i) - average(n, f)))
}

/// Row `r` of a list, as numbers.
pub open spec fn numbers_of_row(d: Seq<u32>, cols: int, r: int) -> spec_fn(int) -> real {
    |i: int| real_of(d[r * cols + i])
}

/// Row `r` lies within the list.
pub open spec fn row_there(x: TensorView, r: int) -> bool {
    &&& x.data is F32
    &&& x.shape.len() > 0
    &&& x.shape.last() > 0
    &&& 0 <= r
    &&& (r + 1) * x.shape.last() <= x.singles().len()
}

/// A row of finite numbers, as expressions.
pub proof fn lemma_row(m: Exact, d: Seq<u32>, cols: int, r: int)
    requires
        all_finite(d),
        0 < cols,
        0 <= r,
        (r + 1) * cols <= d.len(),
    ensures
        leaves(row(d, cols, r)).len() == cols,
        0 <= r * cols,
        r * cols + cols <= d.len(),
        all_numbers(m, leaves(row(d, cols, r))),
        forall|i: int|
            0 <= i < cols ==> number(m, #[trigger] leaves(row(d, cols, r))[i]) == real_of(
                d[r * cols + i],
            ),
{
    assert((r + 1) * cols == r * cols + cols && 0 <= r * cols) by (nonlinear_arith)
        requires
            0 <= r,
            0 < cols,
    ;
    let es = leaves(row(d, cols, r));
    assert forall|i: int| 0 <= i < es.len() implies is_number(m, #[trigger] es[i]) && number(
        m,
        es[i],
    ) == real_of(d[r * cols + i]) by {
        assert(is_finite(d[r * cols + i]));
        lemma_finite(m, d[r * cols + i]);
        assert(es[i] == bits(d[r * cols + i]));
    }
}

/// Place `i` of row `r`.
pub proof fn lemma_place(n: nat, cols: int, of: spec_fn(int) -> Seq<Fx>, r: int, i: int)
    requires
        0 <= r,
        0 <= i < cols,
        (r + 1) * cols <= n,
    ensures
        0 <= r * cols + i < n,
        by_rows(n, cols as nat, of)[r * cols + i] == of(r)[i],
{
    lemma_row_major(r, i, r + 1, cols);
}

/// What the mean of a row is worth.
pub proof fn lemma_mean(m: Exact, es: Seq<Fx>)
    requires
        all_numbers(m, es),
        0 < es.len() <= usize::MAX,
    ensures
        exact(m, mean_of(es)) == Value::Num(average(es.len(), |i: int| number(m, es[i]))),
{
    reveal_with_fuel(exact, 2);
    lemma_sum_onto(m, NEG_ZERO, es);
}

/// What the deviation of a row is worth.
pub proof fn lemma_deviation(m: Exact, es: Seq<Fx>, epsilon: u32)
    requires
        rooted(m),
        all_numbers(m, es),
        0 < es.len() <= usize::MAX,
        is_finite(epsilon),
        real_of(epsilon) > 0real,
    ensures
        ({
            let v = variance(es.len(), |i: int| number(m, es[i])) + real_of(epsilon);
            &&& v > 0real
            &&& exact(m, deviation_of(es, epsilon)) == Value::Num((m.sqrt)(v))
        }),
{
    let n = es.len();
    let f = |i: int| number(m, es[i]);
    let mu = average(n, f);
    lemma_mean(m, es);
    let ds = squared_distances(es, mean_of(es));
    assert forall|i: int| 0 <= i < n implies is_number(m, #[trigger] ds[i]) && number(m, ds[i])
        == (f(i) - mu) * (f(i) - mu) by {
        reveal_with_fuel(exact, 3);
        assert(is_number(m, es[i]));
        assert(exact(m, minus(es[i], mean_of(es))) == Value::Num(f(i) - mu));
    }
    lemma_sum_onto(m, NEG_ZERO, ds);
    let sq = |i: int| (f(i) - mu) * (f(i) - mu);
    lemma_rsum_same(n, |i: int| number(m, ds[i]), sq);
    assert forall|i: int| 0 <= i < n implies #[trigger] sq(i) >= 0real by {
        let z = f(i) - mu;
        assert(z * z >= 0real) by (nonlinear_arith);
    }
    lemma_rsum_least(n, sq);
    let s = rsum(n, sq);
    let k = n as real;
    assert(s / k >= 0real) by (nonlinear_arith)
        requires
            s >= 0real,
            k > 0real,
    ;
    lemma_finite(m, epsilon);
    reveal_with_fuel(exact, 4);
    assert(exact(m, total_seq(ds)) == Value::Num(s));
}

/// What a normalized row is worth.
pub proof fn lemma_normalized(m: Exact, es: Seq<Fx>, epsilon: u32, i: int)
    requires
        rooted(m),
        all_numbers(m, es),
        0 <= i < es.len() <= usize::MAX,
        is_finite(epsilon),
        real_of(epsilon) > 0real,
    ensures
        ({
            let f = |j: int| number(m, es[j]);
            let d = (m.sqrt)(variance(es.len(), f) + real_of(epsilon));
            &&& d > 0real
            &&& exact(m, normalized(es, epsilon)[i]) == Value::Num(
                (number(m, es[i]) - average(es.len(), f)) / d,
            )
        }),
{
    reveal_with_fuel(exact, 3);
    lemma_mean(m, es);
    lemma_deviation(m, es, epsilon);
    assert(is_number(m, es[i]));
}

/// Mean and variance of a row depend on its numbers alone.
pub proof fn lemma_same_moments(n: nat, f: spec_fn(int) -> real, g: spec_fn(int) -> real)
    requires
        forall|i: int| 0 <= i < n ==> #[trigger] f(i) == g(i),
    ensures
        average(n, f) == average(n, g),
        variance(n, f) == variance(n, g),
{
    lemma_rsum_same(n, f, g);
    lemma_rsum_same(
        n,
        |i: int| (f(i) - average(n, f)) * (f(i) - average(n, f)),
        |i: int| (g(i) - average(n, g)) * (g(i) - average(n, g)),
    );
}

/// A normalized row of a list of numbers.
pub proof fn lemma_normalized_row(
    m: Exact,
    d: Seq<u32>,
    cols: int,
    r: int,
    epsilon: u32,
    i: int,
)
    requires
        rooted(m),
        all_finite(d),
        0 <= i < cols <= usize::MAX,
        0 <= r,
        (r + 1) * cols <= d.len(),
        is_finite(epsilon),
        real_of(epsilon) > 0real,
    ensures
        ({
            let f = numbers_of_row(d, cols, r);
            let z = (m.sqrt)(variance(cols as nat, f) + real_of(epsilon));
            &&& z > 0real
            &&& exact(m, normalized(leaves(row(d, cols, r)), epsilon)[i]) == Value::Num(
                (f(i) - average(cols as nat, f)) / z,
            )
        }),
{
    lemma_row(m, d, cols, r);
    let es = leaves(row(d, cols, r));
    lemma_normalized(m, es, epsilon, i);
    let g = |j: int| number(m, es[j]);
    let f = numbers_of_row(d, cols, r);
    assert forall|j: int| 0 <= j < cols implies #[trigger] g(j) == f(j) by {
        assert(number(m, es[j]) == real_of(d[r * cols + j]));
    }
    lemma_same_moments(cols as nat, g, f);
    assert(g(i) == f(i));
}

/// What an element of a layer normalization is worth.
proof fn lemma_layer_norm(
    m: Exact,
    x: TensorView,
    w: TensorView,
    b: TensorView,
    epsilon: u32,
    r: int,
    i: int,
)
    requires
        rooted(m),
        row_there(x, r),
        w.data is F32 && w.singles().len() == x.shape.last(),
        b.data is F32 && b.singles().len() == x.shape.last(),
        all_finite(x.singles()) && all_finite(w.singles()) && all_finite(b.singles()),
        is_finite(epsilon),
        real_of(epsilon) > 0real,
        0 <= i < x.shape.last(),
    ensures
        ({
            let cols = x.shape.last() as int;
            let f = numbers_of_row(x.singles(), cols, r);
            let z = (m.sqrt)(variance(cols as nat, f) + real_of(epsilon));
            &&& z > 0real
            &&& layer_norm_outcome(x, w, b, epsilon) matches Outcome::Yields(s, _) && s.shape
                == x.shape && exact(m, s.data[r * cols + i]) == Value::Num(
                ((f(i) - average(cols as nat, f)) / z) * real_of(w.singles()[i]) + real_of(
                    b.singles()[i],
                ),
            )
        }),
{
    let cols = x.shape.last() as int;
    let xd = x.singles();
    let wd = w.singles();
    let bd = b.singles();
    lemma_normalized_row(m, xd, cols, r, epsilon, i);
    lemma_row(m, xd, cols, r);
    lemma_place(xd.len(), cols, layer_norm_rows(xd, wd, bd, cols, epsilon), r, i);
    assert(is_finite(wd[i]) && is_finite(bd[i]));
    lemma_finite(m, wd[i]);
    lemma_finite(m, bd[i]);
    reveal_with_fuel(exact, 3);
    assert(layer_norm_row(leaves(row(xd, cols, r)), leaves(wd), leaves(bd), epsilon)[i]
        == layer_norm_rows(xd, wd, bd, cols, epsilon)(r)[i]);
}

/// A layer normalization moves a row to mean zero and variance one, scales it
/// and moves it by the bias: over the real numbers, an element without its
/// bias, times the deviation of its row, is its distance from the mean of the
/// row times its weight.
pub proof fn law_layer_norm_normalizes(
    m: Exact,
    x: TensorView,
    w: TensorView,
    b: TensorView,
    epsilon: u32,
    r: int,
    i: int,
)
    requires
        rooted(m),
        row_there(x, r),
        w.data is F32 && w.singles().len() == x.shape.last(),
        b.data is F32 && b.singles().len() == x.shape.last(),
        all_finite(x.singles()) && all_finite(w.singles()) && all_finite(b.singles()),
        is_finite(epsilon),
        real_of(epsilon) > 0real,
        0 <= i < x.shape.last(),
    ensures
        ({
            let cols = x.shape.last() as int;
            let f = numbers_of_row(x.singles(), cols, r);
            let z = (m.sqrt)(variance(cols as nat, f) + real_of(epsilon));
            &&& z > 0real
            &&& layer_norm_outcome(x, w, b, epsilon) matches Outcome::Yields(s, _) && is_number(
                m,
                s.data[r * cols + i],
            ) && (number(m, s.data[r * cols + i]) - real_of(b.singles()[i])) * z == (f(i)
                - average(cols as nat, f)) * real_of(w.singles()[i])
        }),
{
    lemma_layer_norm(m, x, w, b, epsilon, r, i);
    let cols = x.shape.last() as int;
    let f = numbers_of_row(x.singles(), cols, r);
    let z = (m.sqrt)(variance(cols as nat, f) + real_of(epsilon));
    let e = f(i) - average(cols as nat, f);
    let c = real_of(w.singles()[i]);
    assert(((e / z) * c) * z == e * c) by (nonlinear_arith)
        requires
            z > 0real,
    ;
}

/// The bias of a layer normalization moves the result by itself, whatever the
/// weight is: where the weight is zero the result is the bias, and with
/// another bias the result differs by the difference of the two, element by
/// element.
pub proof fn law_layer_norm_adds_bias(
    m: Exact,
    x: TensorView,
    w: TensorView,
    b: TensorView,
    b2: TensorView,
    epsilon: u32,
    r: int,
    i: int,
)
    requires
        rooted(m),
        row_there(x, r),
        w.data is F32 && w.singles().len() == x.shape.last(),
        b.data is F32 && b.singles().len() == x.shape.last(),
        b2.data is F32 && b2.singles().len() == x.shape.last(),
        all_finite(x.singles()) && all_finite(w.singles()),
        all_finite(b.singles()) && all_finite(b2.singles()),
        is_finite(epsilon),
        real_of(epsilon) > 0real,
        0 <= i < x.shape.last(),
    ensures
        ({
            let p = r * x.shape.last() + i;
            let bi = real_of(b.singles()[i]);
            let b2i = real_of(b2.singles()[i]);
            layer_norm_outcome(x, w, b, epsilon) matches Outcome::Yields(s, _) && (
            layer_norm_outcome(x, w, b2, epsilon) matches Outcome::Yields(s2, _) && is_number(
                m,
                s.data[p],
            ) && is_number(m, s2.data[p]) && number(m, s.data[p]) - number(m, s2.data[p]) == bi
                - b2i && (real_of(w.singles()[i]) == 0real ==> number(m, s.data[p]) == bi))
        }),
{
    lemma_layer_norm(m, x, w, b, epsilon, r, i);
    lemma_layer_norm(m, x, w, b2, epsilon, r, i);
    let cols = x.shape.last() as int;
    let f = numbers_of_row(x.singles(), cols, r);
    let z = (m.sqrt)(variance(cols as nat, f) + real_of(epsilon));
    let e = (f(i) - average(cols as nat, f)) / z;
    assert(e * 0real == 0real) by (nonlinear_arith);
}

/// A softmax turns a row into shares: over the real numbers they are
/// positive, add up to one, and are to one another as the exponentials of the
/// numbers.
pub proof fn law_softmax_shares(m: Exact, x: TensorView, r: int)
    requires
        exponential(m),
        row_there(x, r),
        all_finite(x.singles()),
    ensures
        ({
            let cols = x.shape.last() as int;
            softmax_outcome(x) matches Outcome::Yields(s, _) && s.shape == x.shape && (forall|
                i: int,
            |
                0 <= i < cols ==> is_number(m, #[trigger] s.data[r * cols + i]) && number(
                    m,
                    s.data[r * cols + i],
                ) > 0real) && rsum(cols as nat, |i: int| number(m, s.data[r * cols + i])) == 1real
                && (forall|i: int, j: int|
                0 <= i < cols && 0 <= j < cols ==> number(m, #[trigger] s.data[r * cols + i])
                    * (m.exp)(real_of(x.singles()[r * cols + j])) == number(
                    m,
                    #[trigger] s.data[r * cols + j],
                ) * (m.exp)(real_of(x.singles()[r * cols + i])))
        }),
{
    let cols = x.shape.last() as int;
    let d = x.singles();
    lemma_row(m, d, cols, r);
    let es = leaves(row(d, cols, r));
    lemma_softmax_row(m, NEG_ZERO, es);
    let s = softmax_outcome(x)->Yields_0;
    let top = number(m, max_seq(es));
    let f = |j: int| (m.exp)(number(m, es[j]) - top);
    let total = rsum(cols as nat, f);
    let out = |i: int| number(m, s.data[r * cols + i]);
    assert forall|i: int| 0 <= i < cols implies is_number(m, #[trigger] s.data[r * cols + i])
        && number(m, s.data[r * cols + i]) > 0real && out(i) == f(i) / total by {
        lemma_place(d.len(), cols, softmax_rows(d, cols), r, i);
        assert(s.data[r * cols + i] == softmax_row(NEG_ZERO, es)[i]);
        let w = f(i);
        assert(w > 0real);
        assert(w / total > 0real) by (nonlinear_arith)
            requires
                w > 0real,
                total > 0real,
        ;
    }
    let inv = 1real / total;
    let g = |i: int| inv * f(i);
    assert forall|i: int| 0 <= i < cols implies #[trigger] out(i) == g(i) by {
        assert(is_number(m, s.data[r * cols + i]));
        let w = f(i);
        assert(w / total == (1real / total) * w) by (nonlinear_arith)
            requires
                total > 0real,
        ;
    }
    lemma_rsum_same(cols as nat, out, g);
    lemma_rsum_scale(cols as nat, inv, f);
    assert((1real / total) * total == 1real) by (nonlinear_arith)
        requires
            total > 0real,
    ;
    assert forall|i: int, j: int| 0 <= i < cols && 0 <= j < cols implies number(
        m,
        #[trigger] s.data[r * cols + i],
    ) * (m.exp)(real_of(d[r * cols + j])) == number(m, #[trigger] s.data[r * cols + j]) * (m.exp)(
        real_of(d[r * cols + i]),
    ) by {
        assert(is_number(m, s.data[r * cols + i]) && is_number(m, s.data[r * cols + j]));
        let xi = number(m, es[i]);
        let xj = number(m, es[j]);
        crate::exact::lemma_exp_minus(m, xi, top);
        crate::exact::lemma_exp_minus(m, xj, top);
        let a = (m.exp)(xi - top);
        let b = (m.exp)(xj - top);
        let c = (m.exp)(top);
        assert((a / total) * (b * c) == (b / total) * (a * c)) by (nonlinear_arith)
            requires
                total > 0real,
        ;
    }
}

/// The gradient of a softmax is a covariance: over the real numbers, summed
/// with any direction it is the sum of the products of shares, gradient and
/// direction, less the product of the two sums of products with the shares.
pub proof fn law_softmax_grad_covaries(
    m: Exact,
    s: TensorView,
    d: TensorView,
    r: int,
    e: spec_fn(int) -> real,
)
    requires
        row_there(s, r),
        d.data is F32,
        d.singles().len() >= s.singles().len(),
        all_finite(s.singles()) && all_finite(d.singles()),
    ensures
        ({
            let cols = s.shape.last() as int;
            let n = cols as nat;
            let p = numbers_of_row(s.singles(), cols, r);
            let y = numbers_of_row(d.singles(), cols, r);
            softmax_grad_outcome(s, d) matches Outcome::Yields(g, _) && g.shape == s.shape && (
            forall|i: int| 0 <= i < cols ==> is_number(m, #[trigger] g.data[r * cols + i])) && rsum(
                n,
                |i: int| number(m, g.data[r * cols + i]) * e(i),
            ) == rsum(n, |i: int| p(i) * y(i) * e(i)) - rsum(n, |i: int| p(i) * y(i)) * rsum(
                n,
                |i: int| p(i) * e(i),
            )
        }),
{
    let cols = s.shape.last() as int;
    let n = cols as nat;
    let a = s.singles();
    let b = d.singles();
    lemma_row(m, a, cols, r);
    lemma_row(m, b, cols, r);
    let p = numbers_of_row(a, cols, r);
    let y = numbers_of_row(b, cols, r);
    let es = leaves(row(a, cols, r));
    let ed = leaves(row(b, cols, r));
    let ps = products(ed, es);
    assert forall|i: int| 0 <= i < n implies is_number(m, #[trigger] ps[i]) && number(m, ps[i])
        == p(i) * y(i) by {
        assert(is_number(m, es[i]) && is_number(m, ed[i]));
        let (u, v) = (p(i), y(i));
        assert(v * u == u * v) by (nonlinear_arith);
    }
    lemma_sum_onto(m, ZERO, ps);
    let py = |i: int| p(i) * y(i);
    lemma_rsum_same(n, |i: int| number(m, ps[i]), py);
    let t = rsum(n, py);
    let g = softmax_grad_outcome(s, d)->Yields_0;
    let out = |i: int| number(m, g.data[r * cols + i]) * e(i);
    let pye = |i: int| p(i) * y(i) * e(i);
    let pe = |i: int| p(i) * e(i);
    assert forall|i: int| 0 <= i < n implies is_number(m, #[trigger] g.data[r * cols + i]) && out(i)
        == 1real * pye(i) + (0real - t) * pe(i) + 0real * pe(i) by {
        lemma_place(a.len(), cols, softmax_grad_rows(a, b, cols), r, i);
        assert(g.data[r * cols + i] == softmax_grad_row(es, ed)[i]);
        assert(is_number(m, es[i]) && is_number(m, ed[i]));
        reveal_with_fuel(exact, 3);
        assert(exact(m, sum_seq(ps)) == Value::Num(t));
        let (u, v, z) = (p(i), y(i), e(i));
        assert(number(m, g.data[r * cols + i]) == u * (v - t));
        assert((u * (v - t)) * z == 1real * ((u * v) * z) + (0real - t) * (u * z) + 0real * (u * z))
            by (nonlinear_arith);
    }
    assert forall|i: int| 0 <= i < n implies #[trigger] out(i) == 1real * pye(i) + (0real - t) * pe(
        i,
    ) + 0real * pe(i) by {
        assert(is_number(m, g.data[r * cols + i]));
    }
    lemma_rsum_linear(n, out, 1real, pye, 0real - t, pe, 0real, pe);
    let q = rsum(n, pe);
    let u = rsum(n, pye);
    assert(1real * u + (0real - t) * q + 0real * q == u - t * q) by (nonlinear_arith);
}

/// What the root mean square of a row is worth.
pub proof fn lemma_rms(m: Exact, es: Seq<Fx>, epsilon: u32)
    requires
        rooted(m),
        all_numbers(m, es),
        0 < es.len() <= usize::MAX,
        is_finite(epsilon),
        real_of(epsilon) > 0real,
    ensures
        ({
            let v = average(es.len(), |j: int| number(m, es[j]) * number(m, es[j])) + real_of(
                epsilon,
            );
            &&& v > 0real
            &&& exact(m, rms_of(es, epsilon)) == Value::Num((m.sqrt)(v))
        }),
{
    let n = es.len();
    let ps = products(es, es);
    let sq = |j: int| number(m, es[j]) * number(m, es[j]);
    assert forall|j: int| 0 <= j < n implies is_number(m, #[trigger] ps[j]) && number(m, ps[j])
        == sq(j) by {
        assert(is_number(m, es[j]));
    }
    lemma_sum_onto(m, NEG_ZERO, ps);
    lemma_rsum_same(n, |j: int| number(m, ps[j]), sq);
    assert forall|j: int| 0 <= j < n implies #[trigger] sq(j) >= 0real by {
        let z = number(m, es[j]);
        assert(z * z >= 0real) by (nonlinear_arith);
    }
    lemma_rsum_least(n, sq);
    let t = rsum(n, sq);
    let k = n as real;
    assert(t / k >= 0real) by (nonlinear_arith)
        requires
            t >= 0real,
            k > 0real,
    ;
    lemma_finite(m, epsilon);
    reveal_with_fuel(exact, 4);
    assert(exact(m, total_seq(ps)) == Value::Num(t));
}

/// A root-mean-square normalization divides a row by the root of the mean of
/// its squares and scales it: over the real numbers, an element times that
/// root is the number times its weight.
pub proof fn law_rms_norm_divides(
    m: Exact,
    x: TensorView,
    w: TensorView,
    epsilon: u32,
    r: int,
    i: int,
)
    requires
        rooted(m),
        row_there(x, r),
        w.data is F32 && w.singles().len() == x.shape.last(),
        all_finite(x.singles()) && all_finite(w.singles()),
        is_finite(epsilon),
        real_of(epsilon) > 0real,
        0 <= i < x.shape.last(),
    ensures
        ({
            let cols = x.shape.last() as int;
            let f = numbers_of_row(x.singles(), cols, r);
            let z = (m.sqrt)(average(cols as nat, |j: int| f(j) * f(j)) + real_of(epsilon));
            &&& z > 0real
            &&& rms_norm_outcome(x, w, epsilon) matches Outcome::Yields(s, _) && s.shape == x.shape
                && is_number(m, s.data[r * cols + i]) && number(m, s.data[r * cols + i]) * z == f(i)
                * real_of(w.singles()[i])
        }),
{
    let cols = x.shape.last() as int;
    let n = cols as nat;
    let xd = x.singles();
    let wd = w.singles();
    let f = numbers_of_row(xd, cols, r);
    lemma_row(m, xd, cols, r);
    let es = leaves(row(xd, cols, r));
    lemma_rms(m, es, epsilon);
    let sq = |j: int| number(m, es[j]) * number(m, es[j]);
    assert forall|j: int| 0 <= j < n implies #[trigger] sq(j) == f(j) * f(j) by {
        assert(is_number(m, es[j]));
    }
    lemma_rsum_same(n, sq, |j: int| f(j) * f(j));
    let z = (m.sqrt)(average(n, |j: int| f(j) * f(j)) + real_of(epsilon));
    assert(exact(m, rms_of(es, epsilon)) == Value::Num(z));
    lemma_place(xd.len(), cols, rms_norm_rows(xd, wd, cols, epsilon), r, i);
    assert(is_finite(wd[i]));
    lemma_finite(m, wd[i]);
    let s = rms_norm_outcome(x, w, epsilon)->Yields_0;
    assert(s.data[r * cols + i] == rms_norm_row(es, leaves(wd), epsilon)[i]);
    let e = f(i);
    let c = real_of(wd[i]);
    assert(exact(m, s.data[r * cols + i]) == Value::Num((e / z) * c)) by {
        reveal_with_fuel(exact, 3);
        assert(is_number(m, es[i]));
    }
    assert(((e / z) * c) * z == e * c) by (nonlinear_arith)
        requires
            z > 0real,
    ;
}

} // verus!
