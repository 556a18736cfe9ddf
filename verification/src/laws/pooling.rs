//! What pooling and its gradients are.

use crate::exact::{
    all_finite, exact, is_finite, is_number, lemma_constants, lemma_finite, lemma_order,
    lemma_rsum_rows, lemma_rsum_same, lemma_rsum_scale, lemma_sum_where, number, real_of, rsum,
    Exact, Value,
};
use crate::float::{bits, sum_of, LOWEST};
use crate::kernels::movement::{lemma_row_major, lemma_split};
use crate::kernels::pool::{
    average, avg_pool2d_grad_outcome, avg_pool2d_outcome, largest, largest_at,
    max_pool2d_grad_outcome, max_pool2d_outcome, one_each, pool_geometry, pool_grad_geometry,
    pool_hits, pool_terms, shares, spreads_to, PoolGeometry,
};
use crate::kernels::reduce::leaf_at;
use crate::kernels::window::{lemma_image_parts, plane_of, row_of, column_of};
use crate::laws::convolution::{inner, lemma_parts, lemma_result_place, lemma_steps, pixel, place_in};
use crate::laws::steps::lemma_divided;
use crate::sym::Outcome;
use crate::tensor::TensorView;
use vstd::prelude::*;

verus! {

/// Where a tap of a pooling window falls.
proof fn lemma_tap(g: PoolGeometry, b: int, c: int, y: int, x: int, ky: int, kx: int)
    requires
        0 <= b,
        0 <= c < g.channels,
        0 <= y < g.vertical.out,
        0 <= x < g.horizontal.out,
        0 <= ky < g.vertical.kernel,
        0 <= kx < g.horizontal.kernel,
    ensures
        ({
            let (v, h) = (g.vertical, g.horizontal);
            let i = place_in(g.channels as int, v.out as int, h.out as int, b, c, y, x);
            let t = ky * h.kernel + kx;
            let iy = y * v.stride + ky - v.pad;
            let ix = x * h.stride + kx - h.pad;
            &&& 0 <= t < g.taps()
            &&& g.hits(i, t) <==> 0 <= iy < v.len && 0 <= ix < h.len
            &&& g.input_at(i, t) == place_in(
                g.channels as int,
                v.len as int,
                h.len as int,
                b,
                c,
                iy,
                ix,
            )
        }),
{
    let (v, h) = (g.vertical, g.horizontal);
    let oc = g.channels as int;
    let p = b * oc + c;
    assert(p >= 0) by (nonlinear_arith)
        requires
            p == b * oc + c,
            b >= 0,
            oc >= 0,
            c >= 0,
    ;
    lemma_parts(v.out as int, h.out as int, p, y, x);
    lemma_row_major(ky, kx, v.kernel as int, h.kernel as int);
    let iy = y * v.stride + ky - v.pad;
    let ix = x * h.stride + kx - h.pad;
    let (a, l) = (v.len as int, h.len as int);
    assert((p * a + iy) * l + ix == p * (a * l) + (iy * l + ix)) by (nonlinear_arith);
}

/// Taps that fall on the image fall on a place of it.
proof fn lemma_tap_place(g: PoolGeometry, i: int, t: int)
    requires
        0 <= i < g.outputs(),
        0 <= t < g.taps(),
        g.hits(i, t),
    ensures
        0 <= g.input_at(i, t) < g.inputs(),
{
    let (v, h) = (g.vertical, g.horizontal);
    lemma_image_parts(g.batch as int, g.channels as int, v.out as int, h.out as int, i);
    lemma_split(t, v.kernel as int, h.kernel as int);
    let p = plane_of(v.out as int, h.out as int, i);
    let y = v.element(row_of(v.out as int, h.out as int, i), t / h.kernel as int);
    let x = h.element(column_of(v.out as int, h.out as int, i), t % h.kernel as int);
    let (a, l) = (v.len as int, h.len as int);
    lemma_row_major(y, x, a, l);
    let n = g.batch * g.channels;
    lemma_row_major(p, y * l + x, n, a * l);
    assert(n * (a * l) == g.batch * (g.channels * (a * l))) by (nonlinear_arith)
        requires
            n == g.batch * g.channels,
    ;
}

/// What the largest number under a window is.
proof fn lemma_largest(g: PoolGeometry, x: Seq<u32>, i: int, n: nat)
    requires
        all_finite(x),
        x.len() == g.inputs(),
        0 <= i < g.outputs(),
        n <= g.taps(),
    ensures
        ({
            let r = largest(g, x, i, n);
            &&& is_finite(r.0)
            &&& forall|t: int|
                0 <= t < n && #[trigger] g.hits(i, t) ==> real_of(x[g.input_at(i, t)]) <= real_of(
                    r.0,
                )
            &&& match r.1 {
                Some(p) => 0 <= p < x.len() && x[p] == r.0 && exists|t: int|
                    0 <= t < n && #[trigger] g.hits(i, t) && g.input_at(i, t) == p,
                None => r.0 == LOWEST,
            }
        }),
    decreases n,
{
    if n > 0 {
        let k = (n - 1) as nat;
        lemma_largest(g, x, i, k);
        let before = largest(g, x, i, k);
        if g.hits(i, n - 1) {
            lemma_tap_place(g, i, n - 1);
            let z = x[g.input_at(i, n - 1)];
            assert(is_finite(z));
            lemma_order(z, before.0);
        } else if before.1 is Some {
            let t = choose|t: int|
                0 <= t < k && #[trigger] g.hits(i, t) && g.input_at(i, t) == before.1->0;
            assert(g.hits(i, t));
        }
        if before.1 is Some {
            let t = choose|t: int|
                0 <= t < k && #[trigger] g.hits(i, t) && g.input_at(i, t) == before.1->0;
            assert(g.hits(i, t));
        }
    }
}

/// A maximum pooling picks the largest number under every place of the window:
/// no number under the window is larger, and it is one of them, unless all of
/// them are the least there is.
pub proof fn law_max_pool_is_largest(
    m: Exact,
    x: TensorView,
    pool: usize,
    stride: usize,
    padding: usize,
    b: int,
    c: int,
    y: int,
    xx: int,
)
    requires
        max_pool2d_outcome(x, pool, stride, padding) matches Outcome::Yields(s, _) && 0 <= y
            < s.shape[2] && 0 <= xx < s.shape[3],
        all_finite(x.singles()),
        x.singles().len() == x.shape[0] * (x.shape[1] * (x.shape[2] * x.shape[3])),
        0 <= b < x.shape[0],
        0 <= c < x.shape[1],
    ensures
        max_pool2d_outcome(x, pool, stride, padding) matches Outcome::Yields(s, _) && ({
            let at = place_in(
                x.shape[1] as int,
                s.shape[2] as int,
                s.shape[3] as int,
                b,
                c,
                y,
                xx,
            );
            &&& s.shape[0] == x.shape[0] && s.shape[1] == x.shape[1]
            &&& is_number(m, s.data[at])
            &&& forall|ky: int, kx: int|
                0 <= ky < pool && 0 <= kx < pool && 0 <= y * stride + ky - padding < x.shape[2]
                    && 0 <= xx * stride + kx - padding < x.shape[3] ==> #[trigger] pixel(
                    x.singles(),
                    x.shape,
                    b,
                    c,
                    y * stride + ky - padding,
                    xx * stride + kx - padding,
                ) <= number(m, s.data[at])
            &&& number(m, s.data[at]) == real_of(LOWEST) || exists|ky: int, kx: int|
                0 <= ky < pool && 0 <= kx < pool && 0 <= y * stride + ky - padding < x.shape[2]
                    && 0 <= xx * stride + kx - padding < x.shape[3] && #[trigger] pixel(
                    x.singles(),
                    x.shape,
                    b,
                    c,
                    y * stride + ky - padding,
                    xx * stride + kx - padding,
                ) == number(m, s.data[at])
        }),
{
    let g = pool_geometry(x.shape, pool, stride, padding)->0;
    let s = max_pool2d_outcome(x, pool, stride, padding)->Yields_0;
    let (v, h) = (g.vertical, g.horizontal);
    let d = x.singles();
    let at = place_in(g.channels as int, v.out as int, h.out as int, b, c, y, xx);
    lemma_result_place(
        g.batch as int,
        g.channels as int,
        v.out as int,
        h.out as int,
        b,
        c,
        y,
        xx,
    );
    let taps = g.taps() as nat;
    assert(g.taps() >= 0) by (nonlinear_arith)
        requires
            g.taps() == v.kernel * h.kernel,
    ;
    lemma_largest(g, d, at, taps);
    let r = largest(g, d, at, taps);
    lemma_finite(m, r.0);
    assert(s.data[at] == bits(r.0));
    assert forall|ky: int, kx: int|
        0 <= ky < pool && 0 <= kx < pool && 0 <= y * stride + ky - padding < x.shape[2] && 0 <= xx
            * stride + kx - padding < x.shape[3] implies #[trigger] pixel(
        d,
        x.shape,
        b,
        c,
        y * stride + ky - padding,
        xx * stride + kx - padding,
    ) <= number(m, s.data[at]) by {
        lemma_tap(g, b, c, y, xx, ky, kx);
        assert(g.hits(at, ky * h.kernel + kx));
    }
    if let Some(p) = r.1 {
        let t = choose|t: int| 0 <= t < taps && #[trigger] g.hits(at, t) && g.input_at(at, t) == p;
        lemma_split(t, v.kernel as int, h.kernel as int);
        let (ky, kx) = (t / h.kernel as int, t % h.kernel as int);
        lemma_tap(g, b, c, y, xx, ky, kx);
        assert(pixel(
            d,
            x.shape,
            b,
            c,
            y * stride + ky - padding,
            xx * stride + kx - padding,
        ) == number(m, s.data[at]));
    }
}

/// The gradient of a maximum pooling goes where the largest numbers stood:
/// where no two numbers are equal, its products with any numbers add up to
/// those of the gradient of the result with the numbers at the places whose
/// numbers the results are.
pub proof fn law_max_pool_gradient(
    m: Exact,
    dy: TensorView,
    x: TensorView,
    pool: usize,
    stride: usize,
    padding: usize,
    pick: spec_fn(int) -> int,
    v: Seq<u32>,
)
    requires
        max_pool2d_outcome(x, pool, stride, padding) matches Outcome::Yields(s, _) && dy.shape
            == s.shape && dy.singles().len() >= s.data.len() && forall|i: int|
            0 <= i < s.data.len() ==> 0 <= #[trigger] pick(i) < x.singles().len() && real_of(
                x.singles()[pick(i)],
            ) == number(m, s.data[i]),
        dy.data is F32,
        all_finite(x.singles()) && all_finite(dy.singles()),
        x.singles().len() == x.shape[0] * (x.shape[1] * (x.shape[2] * x.shape[3])),
        forall|j: int|
            0 <= j < x.singles().len() ==> real_of(#[trigger] x.singles()[j]) != real_of(LOWEST),
        forall|j: int, k: int|
            0 <= j < k < x.singles().len() ==> real_of(#[trigger] x.singles()[j]) != real_of(
                #[trigger] x.singles()[k],
            ),
    ensures
        max_pool2d_grad_outcome(dy, x, pool, stride, padding) matches Outcome::Yields(d, _)
            && d.shape == x.shape && d.data.len() == x.singles().len() && (
        max_pool2d_outcome(x, pool, stride, padding) matches Outcome::Yields(s, _) && inner(
            m,
            d.data.len(),
            d.data,
            v,
        ) == rsum(s.data.len(), |i: int| real_of(dy.singles()[i]) * real_of(v[pick(i)]))),
{
    let g = pool_geometry(x.shape, pool, stride, padding)->0;
    let s = max_pool2d_outcome(x, pool, stride, padding)->Yields_0;
    assert(pool_grad_geometry(x.shape, dy.shape, pool, stride, padding) == g);
    lemma_outputs_sign(g);
    let d = max_pool2d_grad_outcome(dy, x, pool, stride, padding)->Yields_0;
    let (xd, gd) = (x.singles(), dy.singles());
    let n = g.outputs() as nat;
    let taps = g.taps() as nat;
    let all = |i: int| true;
    let terms = leaf_at(gd);
    assert forall|i: int| 0 <= i < n && #[trigger] all(i) implies 0 <= pick(i) < xd.len()
        && is_number(m, terms(i)) && number(m, terms(i)) == real_of(gd[i]) && largest(
        g,
        xd,
        i,
        taps,
    ).1 == Some(pick(i)) by {
        assert(is_finite(gd[i]));
        lemma_largest(g, xd, i, taps);
        let r = largest(g, xd, i, taps);
        assert(s.data[i] == bits(r.0));
        lemma_finite(m, r.0);
        assert(0 <= pick(i) < xd.len());
        if let Some(p) = r.1 {
            if p != pick(i) {
                assert(real_of(xd[p]) != real_of(xd[pick(i)]));
            }
        }
    }
    assert forall|j: int| 0 <= j < d.data.len() implies exact(m, #[trigger] d.data[j])
        == Value::Num(
        rsum(
            n,
            |u: int|
                if all(u) && pick(u) == j {
                    number(m, terms(u))
                } else {
                    0real
                },
        ),
    ) by {
        let goes = largest_at(g, xd, j);
        assert forall|u: int| 0 <= u < n && #[trigger] goes(u) implies is_number(m, terms(u)) by {
            assert(all(u));
        }
        lemma_sum_where(m, n, goes, terms);
        let l = |u: int|
            if goes(u) {
                number(m, terms(u))
            } else {
                0real
            };
        let r = |u: int|
            if all(u) && pick(u) == j {
                number(m, terms(u))
            } else {
                0real
            };
        assert forall|u: int| 0 <= u < n implies #[trigger] l(u) == r(u) by {
            assert(all(u));
        }
        lemma_rsum_same(n, l, r);
    }
    lemma_steps(m, n, d.data.len(), d.data, v, all, pick, terms);
    let l = |u: int|
        if all(u) {
            number(m, terms(u)) * real_of(v[pick(u)])
        } else {
            0real
        };
    let r = |i: int| real_of(dy.singles()[i]) * real_of(v[pick(i)]);
    assert forall|u: int| 0 <= u < n implies #[trigger] l(u) == r(u) by {
        assert(all(u));
    }
    lemma_rsum_same(n, l, r);
}

/// Sizes are not negative.
proof fn lemma_outputs_sign(g: PoolGeometry)
    ensures
        g.outputs() >= 0,
        g.taps() >= 0,
{
    let (v, h) = (g.vertical, g.horizontal);
    let a = v.out * h.out;
    let b = g.channels * a;
    assert(a >= 0) by (nonlinear_arith)
        requires
            a == v.out * h.out,
    ;
    assert(b >= 0) by (nonlinear_arith)
        requires
            b == g.channels * a,
            a >= 0,
    ;
    assert(g.batch * b >= 0) by (nonlinear_arith)
        requires
            b >= 0,
    ;
    assert(g.taps() >= 0) by (nonlinear_arith)
        requires
            g.taps() == v.kernel * h.kernel,
    ;
}

proof fn lemma_ones(m: Exact, n: nat)
    ensures
        exact(m, sum_of(n, one_each())) == Value::Num(n as real),
    decreases n,
{
    lemma_constants();
    if n > 0 {
        lemma_ones(m, (n - 1) as nat);
        reveal_with_fuel(exact, 2);
    }
}

/// What an average under a window is worth, tap by tap.
proof fn lemma_average(m: Exact, g: PoolGeometry, x: Seq<u32>, i: int)
    requires
        all_finite(x),
        x.len() == g.inputs(),
        0 <= i < g.outputs(),
        g.taps() > 0,
    ensures
        exact(m, average(g, x, i)) == Value::Num(
            rsum(
                g.taps() as nat,
                |t: int|
                    if g.hits(i, t) {
                        real_of(x[g.input_at(i, t)])
                    } else {
                        0real
                    },
            ) / (g.taps() as real),
        ),
{
    let n = g.taps() as nat;
    let hit = pool_hits(g, i);
    let terms = pool_terms(g, x, i);
    assert forall|t: int| 0 <= t < n && #[trigger] hit(t) implies is_number(m, terms(t)) && number(
        m,
        terms(t),
    ) == real_of(x[g.input_at(i, t)]) by {
        lemma_tap_place(g, i, t);
        assert(is_finite(x[g.input_at(i, t)]));
    }
    lemma_sum_where(m, n, hit, terms);
    let l = |t: int|
        if hit(t) {
            number(m, terms(t))
        } else {
            0real
        };
    let r = |t: int|
        if g.hits(i, t) {
            real_of(x[g.input_at(i, t)])
        } else {
            0real
        };
    assert forall|t: int| 0 <= t < n implies #[trigger] l(t) == r(t) by {
        assert(hit(t) == g.hits(i, t));
    }
    lemma_rsum_same(n, l, r);
    lemma_ones(m, n);
}

/// An average pooling averages what is under the window: over the real
/// numbers, element `(b, c, y, x)` times the number of places of the window is
/// the sum of the numbers under it, zero outside of the image.
pub proof fn law_avg_pool_averages(
    m: Exact,
    x: TensorView,
    pool: usize,
    stride: usize,
    padding: usize,
    b: int,
    c: int,
    y: int,
    xx: int,
)
    requires
        avg_pool2d_outcome(x, pool, stride, padding) matches Outcome::Yields(s, _) && 0 <= y
            < s.shape[2] && 0 <= xx < s.shape[3],
        all_finite(x.singles()),
        x.singles().len() == x.shape[0] * (x.shape[1] * (x.shape[2] * x.shape[3])),
        pool > 0,
        0 <= b < x.shape[0],
        0 <= c < x.shape[1],
    ensures
        avg_pool2d_outcome(x, pool, stride, padding) matches Outcome::Yields(s, _) && ({
            let at = place_in(
                x.shape[1] as int,
                s.shape[2] as int,
                s.shape[3] as int,
                b,
                c,
                y,
                xx,
            );
            &&& s.shape[0] == x.shape[0] && s.shape[1] == x.shape[1]
            &&& is_number(m, s.data[at])
            &&& number(m, s.data[at]) * ((pool * pool) as real) == rsum(
                pool as nat,
                |ky: int|
                    rsum(
                        pool as nat,
                        |kx: int|
                            pixel(
                                x.singles(),
                                x.shape,
                                b,
                                c,
                                y * stride + ky - padding,
                                xx * stride + kx - padding,
                            ),
                    ),
            )
        }),
{
    let g = pool_geometry(x.shape, pool, stride, padding)->0;
    let (v, h) = (g.vertical, g.horizontal);
    let d = x.singles();
    let at = place_in(g.channels as int, v.out as int, h.out as int, b, c, y, xx);
    lemma_result_place(
        g.batch as int,
        g.channels as int,
        v.out as int,
        h.out as int,
        b,
        c,
        y,
        xx,
    );
    assert(g.taps() > 0) by (nonlinear_arith)
        requires
            g.taps() == pool * pool,
            pool > 0,
    ;
    lemma_average(m, g, d, at);
    let k = pool as nat;
    let f = |t: int|
        if g.hits(at, t) {
            real_of(d[g.input_at(at, t)])
        } else {
            0real
        };
    assert(g.taps() as nat == k * k);
    lemma_rsum_rows(k, k, f);
    let l = |ky: int| rsum(k, |kx: int| f(ky * k + kx));
    let r = |ky: int|
        rsum(
            pool as nat,
            |kx: int|
                pixel(
                    x.singles(),
                    x.shape,
                    b,
                    c,
                    y * stride + ky - padding,
                    xx * stride + kx - padding,
                ),
        );
    assert forall|ky: int| 0 <= ky < k implies #[trigger] l(ky) == r(ky) by {
        let u = |kx: int| f(ky * k + kx);
        let w = |kx: int|
            pixel(
                x.singles(),
                x.shape,
                b,
                c,
                y * stride + ky - padding,
                xx * stride + kx - padding,
            );
        assert forall|kx: int| 0 <= kx < k implies #[trigger] u(kx) == w(kx) by {
            lemma_tap(g, b, c, y, xx, ky, kx);
            assert(ky * k + kx == ky * h.kernel + kx);
        }
        lemma_rsum_same(k, u, w);
    }
    lemma_rsum_same(k, l, r);
    lemma_divided(rsum(g.taps() as nat, f), g.taps() as real);
}

/// Rows with a common factor each.
pub proof fn lemma_weighted_rows(
    n: nat,
    k: nat,
    at: spec_fn(int) -> real,
    d: spec_fn(int) -> real,
    f: spec_fn(int, int) -> real,
)
    requires
        forall|i: int, t: int|
            0 <= i < n && 0 <= t < k ==> at(i * k + t) == d(i) * #[trigger] f(i, t),
    ensures
        rsum(n * k, at) == rsum(n, |i: int| d(i) * rsum(k, |t: int| f(i, t))),
{
    lemma_rsum_rows(n, k, at);
    let l = |i: int| rsum(k, |t: int| at(i * k + t));
    let r = |i: int| d(i) * rsum(k, |t: int| f(i, t));
    assert forall|i: int| 0 <= i < n implies #[trigger] l(i) == r(i) by {
        let c = d(i);
        let u = |t: int| at(i * k + t);
        let fi = |t: int| f(i, t);
        let w = |t: int| c * fi(t);
        assert forall|t: int| 0 <= t < k implies #[trigger] u(t) == w(t) by {
            assert(at(i * k + t) == d(i) * f(i, t));
        }
        lemma_rsum_same(k, u, w);
        lemma_rsum_scale(k, c, fi);
    }
    lemma_rsum_same(n, l, r);
}

/// The gradient of an average pooling turns it around: over the real numbers,
/// its products with any numbers add up to those of the gradient of the result
/// with the pooling of those numbers.
pub proof fn law_avg_pool_gradient(
    m: Exact,
    dy: TensorView,
    x: TensorView,
    v: TensorView,
    pool: usize,
    stride: usize,
    padding: usize,
)
    requires
        avg_pool2d_outcome(v, pool, stride, padding) matches Outcome::Yields(s, _) && dy.shape
            == s.shape && dy.singles().len() >= s.data.len(),
        dy.data is F32,
        v.shape == x.shape,
        x.data.len() == v.singles().len(),
        all_finite(v.singles()) && all_finite(dy.singles()),
        v.singles().len() == v.shape[0] * (v.shape[1] * (v.shape[2] * v.shape[3])),
        pool > 0,
    ensures
        avg_pool2d_grad_outcome(dy, x, pool, stride, padding) matches Outcome::Yields(d, _)
            && d.shape == x.shape && d.data.len() == v.singles().len() && (avg_pool2d_outcome(
            v,
            pool,
            stride,
            padding,
        ) matches Outcome::Yields(s, _) && inner(m, d.data.len(), d.data, v.singles()) == inner(
            m,
            s.data.len(),
            s.data,
            dy.singles(),
        )),
{
    let g = pool_geometry(v.shape, pool, stride, padding)->0;
    let s = avg_pool2d_outcome(v, pool, stride, padding)->Yields_0;
    assert(pool_grad_geometry(x.shape, dy.shape, pool, stride, padding) == g);
    lemma_outputs_sign(g);
    assert(g.taps() > 0) by (nonlinear_arith)
        requires
            g.taps() == pool * pool,
            pool > 0,
    ;
    let d = avg_pool2d_grad_outcome(dy, x, pool, stride, padding)->Yields_0;
    let (vd, gd) = (v.singles(), dy.singles());
    let (n, k) = (g.outputs() as nat, g.taps() as nat);
    let kr = g.taps() as real;
    let all = n * k;
    assert((g.outputs() * g.taps()) as nat == all) by (nonlinear_arith)
        requires
            n == g.outputs(),
            k == g.taps(),
            all == n * k,
    ;
    let hit = |u: int| g.hits(u / g.taps(), u % g.taps());
    let to = |u: int| g.input_at(u / g.taps(), u % g.taps());
    let terms = shares(g, gd);
    assert forall|u: int| 0 <= u < all && #[trigger] hit(u) implies 0 <= to(u) < vd.len()
        && is_number(m, terms(u)) && number(m, terms(u)) == real_of(gd[u / g.taps()]) / kr by {
        lemma_split(u, n as int, k as int);
        lemma_tap_place(g, u / g.taps(), u % g.taps());
        assert(is_finite(gd[u / g.taps()]));
        reveal_with_fuel(exact, 2);
    }
    assert forall|j: int| 0 <= j < d.data.len() implies exact(m, #[trigger] d.data[j])
        == Value::Num(
        rsum(
            all,
            |u: int|
                if hit(u) && to(u) == j {
                    number(m, terms(u))
                } else {
                    0real
                },
        ),
    ) by {
        let goes = spreads_to(g, j);
        assert forall|u: int| 0 <= u < all && #[trigger] goes(u) implies is_number(m, terms(u)) by {
            assert(hit(u));
        }
        lemma_sum_where(m, all, goes, terms);
        lemma_rsum_same(
            all,
            |u: int|
                if goes(u) {
                    number(m, terms(u))
                } else {
                    0real
                },
            |u: int|
                if hit(u) && to(u) == j {
                    number(m, terms(u))
                } else {
                    0real
                },
        );
    }
    lemma_steps(m, all, d.data.len(), d.data, vd, hit, to, terms);
    let at = |u: int|
        if hit(u) {
            number(m, terms(u)) * real_of(vd[to(u)])
        } else {
            0real
        };
    let f = |i: int, t: int|
        if g.hits(i, t) {
            real_of(vd[g.input_at(i, t)])
        } else {
            0real
        };
    let c = |i: int| real_of(gd[i]) / kr;
    assert forall|i: int, t: int| 0 <= i < n && 0 <= t < k implies at(i * k + t) == c(i)
        * #[trigger] f(i, t) by {
        lemma_row_major(i, t, n as int, k as int);
        let u = i * k + t;
        assert(u / g.taps() == i && u % g.taps() == t);
        let z = c(i);
        assert(z * 0real == 0real) by (nonlinear_arith);
        if g.hits(i, t) {
            assert(hit(u));
        }
    }
    lemma_weighted_rows(n, k, at, c, f);
    let l = |i: int| c(i) * rsum(k, |t: int| f(i, t));
    let r = |j: int| number(m, s.data[j]) * real_of(gd[j]);
    assert forall|i: int| 0 <= i < n implies #[trigger] l(i) == r(i) by {
        lemma_average(m, g, vd, i);
        let fi = |t: int|
            if g.hits(i, t) {
                real_of(vd[g.input_at(i, t)])
            } else {
                0real
            };
        lemma_rsum_same(k, |t: int| f(i, t), fi);
        let (a, e) = (rsum(k, fi), real_of(gd[i]));
        lemma_divided(a, kr);
        lemma_divided(e, kr);
        let (p, q) = (a / kr, e / kr);
        assert(q * (p * kr) == (q * kr) * p) by (nonlinear_arith);
        assert(e * p == p * e) by (nonlinear_arith);
    }
    lemma_rsum_same(n, l, r);
}

} // verus!
