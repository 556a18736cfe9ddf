//! The steps of a layer of a language model.

use crate::exact::{
    all_finite, all_numbers, exact, exponential, is_finite, is_number, lemma_constants,
    lemma_exp_minus, lemma_exp_zero, lemma_finite, lemma_rsum_same, number, real_of, rooted, rsum,
    Exact, Value,
};
use crate::float::{
    bits, cos_of, exp_of, minus, neg_of, over, plus, pow_of, sin_of, times, Fx, ONE,
};
use crate::laws::gradient_check::absolute;
use crate::laws::rows::{average, lemma_rms};
use crate::llama::logits::distance;
use crate::llama::model::{turned_rows, LlamaDims};
use crate::llama::steps::{angle, column_to, gated, logistic, multiplied, normed, MINUS_TWO};
use vstd::arithmetic::div_mod::*;
use vstd::prelude::*;

verus! {

/// A normalized row of a model, times the root of the mean of its squares, is
/// the row times the weights.
pub proof fn law_normed_rows_divide(m: Exact, x: Seq<Fx>, w: Seq<u32>, eps: u32, i: int)
    requires
        rooted(m),
        all_numbers(m, x),
        all_finite(w),
        is_finite(eps),
        real_of(eps) > 0real,
        0 <= i < x.len() <= usize::MAX,
        w.len() == x.len(),
    ensures
        ({
            let z = (m.sqrt)(
                average(x.len(), |j: int| number(m, x[j]) * number(m, x[j])) + real_of(eps),
            );
            &&& z > 0real
            &&& is_number(m, normed(x, w, eps)[i])
            &&& number(m, normed(x, w, eps)[i]) * z == number(m, x[i]) * real_of(w[i])
        }),
{
    let z = (m.sqrt)(average(x.len(), |j: int| number(m, x[j]) * number(m, x[j])) + real_of(eps));
    lemma_rms(m, x, eps);
    let r = crate::llama::steps::rms_of(x, eps);
    assert(r == crate::kernels::rows::rms_of(x, eps));
    assert(is_number(m, x[i]));
    assert(is_finite(w[i]));
    lemma_finite(m, w[i]);
    let (e, c) = (number(m, x[i]), real_of(w[i]));
    assert(exact(m, normed(x, w, eps)[i]) == Value::Num((e / z) * c)) by {
        reveal_with_fuel(exact, 3);
    }
    assert(((e / z) * c) * z == e * c) by (nonlinear_arith)
        requires
            z > 0real,
    ;
}

proof fn lemma_column(m: Exact, x: Seq<Fx>, w: Seq<u32>, n: int, j: int, i: nat)
    requires
        all_numbers(m, x),
        all_finite(w),
        0 <= j < n,
        i <= x.len(),
        x.len() * n <= w.len(),
    ensures
        exact(m, column_to(x, w, n, j, i)) == Value::Num(
            rsum(i, |t: int| number(m, x[t]) * real_of(w[t * n + j])),
        ),
    decreases i,
{
    lemma_constants();
    if i > 0 {
        lemma_column(m, x, w, n, j, (i - 1) as nat);
        assert(is_number(m, x[i - 1]));
        let p = (i - 1) * n + j;
        assert(0 <= p < w.len()) by (nonlinear_arith)
            requires
                p == (i - 1) * n + j,
                0 <= j < n,
                1 <= i <= x.len(),
                x.len() * n <= w.len(),
        ;
        assert(is_finite(w[p]));
        lemma_finite(m, w[p]);
        reveal_with_fuel(exact, 3);
        let z = real_of(w[p]);
        assert(0real * z == 0real) by (nonlinear_arith);
    }
}

/// The product of a row with a matrix: over the real numbers, place `j` is the
/// sum of the numbers of the row, each times what stands in its line and in
/// column `j`.
pub proof fn law_rows_multiply(m: Exact, x: Seq<Fx>, w: Seq<u32>, n: nat, j: int)
    requires
        all_numbers(m, x),
        all_finite(w),
        0 <= j < n,
        x.len() * n <= w.len(),
    ensures
        exact(m, multiplied(x, w, n)[j]) == Value::Num(
            rsum(x.len(), |t: int| number(m, x[t]) * real_of(w[t * n + j])),
        ),
{
    lemma_column(m, x, w, n as int, j, x.len());
    lemma_rsum_same(
        x.len(),
        |t: int| number(m, x[t]) * real_of(w[t * (n as int) + j]),
        |t: int| number(m, x[t]) * real_of(w[t * n + j]),
    );
}

/// The angle of pair `i` at position `p`.
pub open spec fn turn(m: Exact, d: LlamaDims, p: int, i: int) -> real {
    (p as real) * (m.pow)(real_of(d.base), (0real - 2real * (i as real)) / (d.heads.width as real))
}

/// What the angle of a pair is worth.
proof fn lemma_angle(m: Exact, d: LlamaDims, p: int, i: int)
    requires
        is_finite(d.base),
        0 <= p <= usize::MAX,
        0 <= i < d.heads.width,
    ensures
        exact(m, angle(p as usize, i as usize, d.heads.width, d.base)) == Value::Num(
            turn(m, d, p, i),
        ),
{
    lemma_constants();
    assert(crate::exact::worth(MINUS_TWO) == Value::Num(0real - 2real));
    let x = i as real;
    let y = d.heads.width as real;
    assert((0real - 2real) * x == 0real - 2real * x) by (nonlinear_arith);
    assert(y != 0real);
    lemma_finite(m, d.base);
    let (ei, ew) = (Fx::Count(i as usize), Fx::Count(d.heads.width));
    assert(exact(m, ei) == Value::Num(x) && exact(m, ew) == Value::Num(y));
    let e1 = times(bits(MINUS_TWO), ei);
    assert(exact(m, bits(MINUS_TWO)) == Value::Num(0real - 2real));
    assert(exact(m, e1) == Value::Num(0real - 2real * x));
    let e2 = over(e1, ew);
    assert(exact(m, e2) == Value::Num((0real - 2real * x) / y));
    let e3 = pow_of(bits(d.base), e2);
    assert(exact(m, e3) == Value::Num((m.pow)(real_of(d.base), (0real - 2real * x) / y)));
    let e4 = Fx::Count(p as usize);
    assert(exact(m, e4) == Value::Num(p as real));
    assert(angle(p as usize, i as usize, d.heads.width, d.base) == times(e4, e3));
}

/// Turned rows are as long as before and hold numbers.
pub proof fn lemma_turned(m: Exact, d: LlamaDims, x: Seq<Seq<Fx>>, r: int)
    requires
        is_finite(d.base),
        0 <= r < x.len() <= usize::MAX,
        d.heads.width > 0,
        x[r].len() as int % d.heads.width as int == 0,
        all_numbers(m, x[r]),
    ensures
        turned_rows(x, d)[r].len() == x[r].len(),
        all_numbers(m, turned_rows(x, d)[r]),
{
    let w = d.heads.width as int;
    let h = w / 2;
    let row = x[r];
    let out = turned_rows(x, d)[r];
    let n = row.len() as int / w;
    lemma_fundamental_div_mod(row.len() as int, w);
    assert(w * n == n * w) by (nonlinear_arith);
    assert forall|e: int| 0 <= e < out.len() implies is_number(m, #[trigger] out[e]) by {
        crate::kernels::movement::lemma_split(e, n, w);
        let i = e % w;
        let b = e / w;
        assert((b + 1) * w <= n * w && (b + 1) * w == b * w + w && b * w >= 0) by (nonlinear_arith)
            requires
                0 <= b < n,
                w > 0,
        ;
        assert(is_number(m, row[e]));
        if i < h {
            lemma_angle(m, d, r, i);
            let t = angle(r as usize, i as usize, d.heads.width, d.base);
            assert(is_number(m, row[e + h]));
            assert(is_number(m, sin_of(t)) && is_number(m, cos_of(t)));
            let (e1, e2) = (times(row[e], cos_of(t)), times(row[e + h], sin_of(t)));
            assert(is_number(m, e1) && is_number(m, e2));
            assert(out[e] == minus(e1, e2));
        } else if i < 2 * h {
            lemma_angle(m, d, r, i - h);
            let t = angle(r as usize, (i - h) as usize, d.heads.width, d.base);
            assert(is_number(m, row[e - h]));
            assert(is_number(m, sin_of(t)) && is_number(m, cos_of(t)));
            let (e1, e2) = (times(row[e - h], sin_of(t)), times(row[e], cos_of(t)));
            assert(is_number(m, e1) && is_number(m, e2));
            assert(out[e] == plus(e1, e2));
        } else {
            assert(out[e] == row[e]);
        }
    }
}

/// Positions turn the pairs of a head: number `i` of its first half and number
/// `i` of its second half turn together, by the position times the base to the
/// power of `-2 i` over the width. The pair keeps its length, its product with
/// the pair before is the cosine and the area between the two is the sine of
/// that angle.
pub proof fn law_positions_turn_pairs(
    m: Exact,
    d: LlamaDims,
    x: Seq<Seq<Fx>>,
    p: int,
    head: int,
    i: int,
)
    requires
        forall|a: real|
            (#[trigger] (m.sin)(a)) * (m.sin)(a) + (m.cos)(a) * (m.cos)(a) == 1real,
        is_finite(d.base),
        0 <= p < x.len() <= usize::MAX,
        0 <= head,
        (head + 1) * d.heads.width <= x[p].len(),
        0 <= i < d.heads.width as int / 2,
        all_numbers(m, x[p]),
    ensures
        ({
            let e = head * d.heads.width + i;
            let f = e + d.heads.width as int / 2;
            let out = turned_rows(x, d)[p];
            let (a, b) = (number(m, x[p][e]), number(m, x[p][f]));
            let (a2, b2) = (number(m, out[e]), number(m, out[f]));
            let t = turn(m, d, p, i);
            &&& is_number(m, out[e]) && is_number(m, out[f])
            &&& a2 * a2 + b2 * b2 == a * a + b * b
            &&& a * a2 + b * b2 == (a * a + b * b) * (m.cos)(t)
            &&& a * b2 - b * a2 == (a * a + b * b) * (m.sin)(t)
        }),
{
    let w = d.heads.width as int;
    let h = w / 2;
    let e = head * w + i;
    let f = e + h;
    let row = x[p];
    assert((head + 1) * w == head * w + w && head * w >= 0) by (nonlinear_arith)
        requires
            head >= 0,
            w >= 0,
    ;
    lemma_fundamental_div_mod_converse(e, w, head, i);
    lemma_fundamental_div_mod_converse(f, w, head, i + h);
    lemma_angle(m, d, p, i);
    let t = turn(m, d, p, i);
    let (s, c) = ((m.sin)(t), (m.cos)(t));
    let out = turned_rows(x, d)[p];
    assert(is_number(m, row[e]) && is_number(m, row[f]));
    let (a, b) = (number(m, row[e]), number(m, row[f]));
    assert(out.len() == row.len());
    let ea = angle(p as usize, i as usize, d.heads.width, d.base);
    assert(exact(m, sin_of(ea)) == Value::Num(s) && exact(m, cos_of(ea)) == Value::Num(c));
    assert(exact(m, out[e]) == Value::Num(a * c - b * s)) by {
        reveal_with_fuel(exact, 3);
    }
    assert(exact(m, out[f]) == Value::Num(a * s + b * c)) by {
        reveal_with_fuel(exact, 3);
    }
    lemma_rotation(a, b, s, c);
}

proof fn lemma_rotation(a: real, b: real, s: real, c: real)
    requires
        s * s + c * c == 1real,
    ensures
        (a * c - b * s) * (a * c - b * s) + (a * s + b * c) * (a * s + b * c) == a * a + b * b,
        a * (a * c - b * s) + b * (a * s + b * c) == (a * a + b * b) * c,
        a * (a * s + b * c) - b * (a * c - b * s) == (a * a + b * b) * s,
{
    let (ac, bs, sa, bc) = (a * c, b * s, a * s, b * c);
    assert((ac - bs) * (ac - bs) == ac * ac - 2real * (ac * bs) + bs * bs) by (nonlinear_arith);
    assert((sa + bc) * (sa + bc) == sa * sa + 2real * (sa * bc) + bc * bc) by (nonlinear_arith);
    assert((a * c) * (a * c) == (a * a) * (c * c)) by (nonlinear_arith);
    assert((b * s) * (b * s) == (b * b) * (s * s)) by (nonlinear_arith);
    assert((a * s) * (a * s) == (a * a) * (s * s)) by (nonlinear_arith);
    assert((b * c) * (b * c) == (b * b) * (c * c)) by (nonlinear_arith);
    assert((a * c) * (b * s) == (a * s) * (b * c)) by (nonlinear_arith);
    let (aa, bb, ss, cc) = (a * a, b * b, s * s, c * c);
    assert(aa * cc + aa * ss == aa * (ss + cc)) by (nonlinear_arith);
    assert(bb * ss + bb * cc == bb * (ss + cc)) by (nonlinear_arith);
    assert(aa * 1real == aa && bb * 1real == bb);
    assert(a * (ac - bs) == a * ac - a * bs) by (nonlinear_arith);
    assert(b * (sa + bc) == b * sa + b * bc) by (nonlinear_arith);
    assert(a * (sa + bc) == a * sa + a * bc) by (nonlinear_arith);
    assert(b * (ac - bs) == b * ac - b * bs) by (nonlinear_arith);
    assert(a * (a * c) == (a * a) * c && a * (a * s) == (a * a) * s) by (nonlinear_arith);
    assert(b * (b * c) == (b * b) * c && b * (b * s) == (b * b) * s) by (nonlinear_arith);
    assert(a * (b * s) == b * (a * s) && a * (b * c) == b * (a * c)) by (nonlinear_arith);
    assert((aa + bb) * c == aa * c + bb * c) by (nonlinear_arith);
    assert((aa + bb) * s == aa * s + bb * s) by (nonlinear_arith);
}

/// What a quotient is, by what it is times the divisor.
pub proof fn lemma_quotient(q: real, x: real, y: real)
    requires
        y > 0real,
        q * y == x,
    ensures
        q == x / y,
{
    assert((q * y) / y == q) by (nonlinear_arith)
        requires
            y > 0real,
    ;
}

/// A quotient times its divisor.
pub proof fn lemma_divided(x: real, y: real)
    requires
        y > 0real,
    ensures
        (x / y) * y == x,
{
    assert((x / y) * y == x) by (nonlinear_arith)
        requires
            y > 0real,
    ;
}

/// What a logistic function is worth.
pub proof fn lemma_logistic(m: Exact, e: Fx)
    requires
        exponential(m),
        is_number(m, e),
    ensures
        ({
            let x = number(m, e);
            &&& (m.exp)(x) > 0real
            &&& exact(m, logistic(e)) == Value::Num((m.exp)(x) / ((m.exp)(x) + 1real))
        }),
{
    lemma_constants();
    let x = number(m, e);
    lemma_exp_minus(m, 0real, x);
    lemma_exp_zero(m);
    let a = (m.exp)(0real - x);
    let b = (m.exp)(x);
    let y = 1real + a;
    let q = 1real / y;
    let e1 = neg_of(e);
    assert(exact(m, e1) == Value::Num(0real - x));
    let e2 = exp_of(e1);
    assert(exact(m, e2) == Value::Num(a));
    assert(exact(m, bits(ONE)) == Value::Num(1real));
    let e3 = plus(bits(ONE), e2);
    assert(exact(m, e3) == Value::Num(y));
    assert(exact(m, over(bits(ONE), e3)) == Value::Num(q));
    lemma_divided(1real, y);
    assert(q * (1real + a) == q + q * a) by (nonlinear_arith);
    assert(q * (b + 1real) == q * b + q) by (nonlinear_arith);
    assert((q + q * a) * b == q * b + (q * (a * b))) by (nonlinear_arith);
    assert(1real * b == b);
    assert(q * 1real == q);
    lemma_quotient(q, b, b + 1real);
}

/// Gated numbers come through as the exponential says: over the real numbers,
/// the result at a place, times one more than the exponential of `g` there, is
/// the product of `g` and `u` there times that exponential.
pub proof fn law_gated_numbers(m: Exact, g: Seq<Fx>, u: Seq<Fx>, i: int)
    requires
        exponential(m),
        0 <= i < g.len(),
        u.len() == g.len(),
        all_numbers(m, g),
        all_numbers(m, u),
    ensures
        ({
            let (x, y) = (number(m, g[i]), number(m, u[i]));
            &&& is_number(m, gated(g, u)[i])
            &&& number(m, gated(g, u)[i]) * ((m.exp)(x) + 1real) == (x * y) * (m.exp)(x)
        }),
{
    assert(is_number(m, g[i]) && is_number(m, u[i]));
    lemma_logistic(m, g[i]);
    let (x, y) = (number(m, g[i]), number(m, u[i]));
    let b = (m.exp)(x);
    assert(exact(m, gated(g, u)[i]) == Value::Num((x * (b / (b + 1real))) * y)) by {
        reveal_with_fuel(exact, 3);
    }
    lemma_divided(b, b + 1real);
    let (r, z) = (b / (b + 1real), b + 1real);
    assert(((x * r) * y) * z == (x * y) * (r * z)) by (nonlinear_arith);
}

/// The largest distance between two lists is at least the distance at every
/// place, in either direction, and is the distance at some place.
pub proof fn law_distance_is_largest(m: Exact, a: Seq<u32>, b: Seq<u32>, n: nat)
    requires
        n <= a.len(),
        n <= b.len(),
        all_finite(a),
        all_finite(b),
    ensures
        is_number(m, distance(a, b, n)),
        n == 0 ==> number(m, distance(a, b, n)) == 0real,
        forall|i: int|
            0 <= i < n ==> absolute(real_of(#[trigger] a[i]) - real_of(b[i])) <= number(
                m,
                distance(a, b, n),
            ),
        n > 0 ==> exists|i: int|
            0 <= i < n && absolute(real_of(#[trigger] a[i]) - real_of(b[i])) == number(
                m,
                distance(a, b, n),
            ),
    decreases n,
{
    lemma_constants();
    if n > 0 {
        let k = (n - 1) as nat;
        law_distance_is_largest(m, a, b, k);
        let d = distance(a, b, n);
        assert(is_finite(a[n - 1]) && is_finite(b[n - 1]));
        let z = absolute(real_of(a[n - 1]) - real_of(b[n - 1]));
        let y = number(m, distance(a, b, k));
        assert(exact(m, d) == Value::Num(if z > y { z } else { y })) by {
            reveal_with_fuel(exact, 4);
        }
        if z > y || k == 0 {
            assert(absolute(real_of(a[n - 1]) - real_of(b[n - 1])) == number(m, d));
        } else {
            let i = choose|i: int|
                0 <= i < k && absolute(real_of(#[trigger] a[i]) - real_of(b[i])) == number(
                    m,
                    distance(a, b, k),
                );
            assert(absolute(real_of(a[i]) - real_of(b[i])) == number(m, d));
        }
    }
}

} // verus!
