//! The steps of a layer on rows of numbers.

use crate::float::{
    bits, computes, computes_all, cos_of, do_cos, do_count, do_exp, do_minus, do_mul_add, do_neg,
    do_over, do_plus, do_pow, do_sin, do_sqrt, do_times, eq, exp_of, minus, mul_add_of, neg_of,
    over, plus, pow_of, sin_of, sqrt_of, times, Float, Fx, ONE, ZERO,
};
use crate::kernels::heads::{if_equal, lemma_if_equal};
use crate::kernels::movement::{lemma_row_major, lemma_split};
use crate::kernels::rows::{products, products_vec, total_seq, total_vec};
use vstd::arithmetic::mul::*;
use vstd::prelude::*;

verus! {

/// The bits of `-2.0`.
pub const MINUS_TWO: u32 = 0xc000_0000;

/// The rows hold values that the rows of expressions may evaluate to.
pub open spec fn rows_compute<F: Float>(f: F, es: Seq<Seq<Fx>>, rows: Seq<Vec<u32>>) -> bool {
    &&& es.len() == rows.len()
    &&& forall|i: int| 0 <= i < es.len() ==> computes_all(f, es[i], (#[trigger] rows[i])@)
}

/// The root of the mean of the squares, moved by `eps`.
pub open spec fn rms_of(x: Seq<Fx>, eps: u32) -> Fx {
    sqrt_of(
        plus(over(total_seq(products(x, x)), Fx::Count(x.len() as usize)), bits(eps)),
    )
}

/// A row, normalized by the root of the mean of its squares and weighted.
pub open spec fn normed(x: Seq<Fx>, w: Seq<u32>, eps: u32) -> Seq<Fx> {
    Seq::new(x.len(), |i: int| times(over(x[i], rms_of(x, eps)), bits(w[i])))
}

/// Normalizes a row by the root of the mean of its squares.
pub(crate) fn rms_norm<F: Float>(f: &F, x: &Vec<u32>, w: &Vec<u32>, eps: u32, Ghost(ex): Ghost<Seq<Fx>>) -> (out:
    Vec<u32>)
    requires
        computes_all(*f, ex, x@),
        w@.len() == x@.len(),
    ensures
        computes_all(*f, normed(ex, w@, eps), out@),
{
    let n: usize = x.len();
    let squares = products_vec(f, x, x, Ghost(ex), Ghost(ex));
    let total: u32 = total_vec(f, &squares, Ghost(products(ex, ex)));
    let count: u32 = do_count(f, n);
    let ghost et = total_seq(products(ex, ex));
    let ghost en = Fx::Count(n);
    let mean: u32 = do_over(f, total, count, Ghost(et), Ghost(en));
    let moved: u32 = do_plus(f, mean, eps, Ghost(over(et, en)), Ghost(bits(eps)));
    let r: u32 = do_sqrt(f, moved, Ghost(plus(over(et, en), bits(eps))));
    let ghost er = rms_of(ex, eps);
    let mut out: Vec<u32> = Vec::new();
    for i in 0..n
        invariant
            n == x@.len() == w@.len(),
            computes_all(*f, ex, x@),
            er == rms_of(ex, eps),
            computes(*f, er, r),
            out@.len() == i,
            forall|j: int| 0 <= j < i ==> computes(*f, normed(ex, w@, eps)[j], #[trigger] out@[j]),
    {
        proof {
            assert(computes(*f, ex[i as int], x@[i as int]));
        }
        let d: u32 = do_over(f, x[i], r, Ghost(ex[i as int]), Ghost(er));
        out.push(do_times(f, d, w[i], Ghost(over(ex[i as int], er)), Ghost(bits(w@[i as int]))));
    }
    out
}

/// Place `j` of the product of the first `i` numbers of a row with a matrix of
/// `n` columns. Zeros of the row are passed over.
pub open spec fn column_to(x: Seq<Fx>, w: Seq<u32>, n: int, j: int, i: nat) -> Fx
    decreases i,
{
    if i == 0 {
        bits(ZERO)
    } else {
        let before = column_to(x, w, n, j, (i - 1) as nat);
        if_equal(
            x[i - 1],
            bits(ZERO),
            before,
            mul_add_of(x[i - 1], bits(w[(i - 1) * n + j]), before),
        )
    }
}

/// The product of a row with a matrix of `n` columns.
pub open spec fn multiplied(x: Seq<Fx>, w: Seq<u32>, n: nat) -> Seq<Fx> {
    Seq::new(n, |j: int| column_to(x, w, n as int, j, x.len()))
}

/// The product of a row with a matrix of `n` columns, given row by row.
pub(crate) fn multiply_row<F: Float>(f: &F, x: &Vec<u32>, w: &Vec<u32>, n: usize, Ghost(ex): Ghost<
    Seq<Fx>,
>) -> (out: Vec<u32>)
    requires
        computes_all(*f, ex, x@),
        x@.len() * n <= w@.len(),
    ensures
        computes_all(*f, multiplied(ex, w@, n as nat), out@),
{
    let k: usize = x.len();
    let size: usize = w.len();
    let mut out: Vec<u32> = Vec::new();
    for j in 0..n
        invariant
            k == x@.len(),
            size == w@.len(),
            computes_all(*f, ex, x@),
            k * n <= size,
            out@.len() == j,
            forall|t: int|
                0 <= t < j ==> computes(*f, multiplied(ex, w@, n as nat)[t], #[trigger] out@[t]),
    {
        let mut acc: u32 = ZERO;
        for i in 0..k
            invariant
                k == x@.len(),
                size == w@.len(),
                computes_all(*f, ex, x@),
                k * n <= size,
                j < n,
                computes(*f, column_to(ex, w@, n as int, j as int, i as nat), acc),
        {
            let ghost before = column_to(ex, w@, n as int, j as int, i as nat);
            let ghost e = ex[i as int];
            proof {
                lemma_row_major(i as int, j as int, k as int, n as int);
                lemma_mul_nonnegative(i as int, n as int);
                assert(computes(*f, e, x@[i as int]));
            }
            let s: u32 = x[i];
            let b: u32 = w[i * n + j];
            if !eq(s, ZERO) {
                acc = do_mul_add(f, s, b, acc, Ghost(e), Ghost(bits(b)), Ghost(before));
            }
            proof {
                lemma_if_equal(
                    *f,
                    e,
                    bits(ZERO),
                    before,
                    mul_add_of(e, bits(b), before),
                    s,
                    ZERO,
                    acc,
                );
            }
        }
        out.push(acc);
    }
    out
}

/// The angle by which pair `i` of a head of width `width` is turned at
/// position `p`.
pub open spec fn angle(p: usize, i: usize, width: usize, base: u32) -> Fx {
    times(
        Fx::Count(p),
        pow_of(
            bits(base),
            over(times(bits(MINUS_TWO), Fx::Count(i)), Fx::Count(width)),
        ),
    )
}

/// The sines of the angles at a position.
pub open spec fn sines(p: usize, width: usize, base: u32) -> Seq<Fx> {
    Seq::new((width / 2) as nat, |i: int| sin_of(angle(p, i as usize, width, base)))
}

/// The cosines of the angles at a position.
pub open spec fn cosines(p: usize, width: usize, base: u32) -> Seq<Fx> {
    Seq::new((width / 2) as nat, |i: int| cos_of(angle(p, i as usize, width, base)))
}

/// Sines and cosines of the angles at a position.
pub fn rope_row<F: Float>(f: &F, p: usize, width: usize, base: u32) -> (r: (Vec<u32>, Vec<u32>))
    ensures
        computes_all(*f, sines(p, width, base), r.0@),
        computes_all(*f, cosines(p, width, base), r.1@),
{
    let h: usize = width / 2;
    let mut s: Vec<u32> = Vec::new();
    let mut c: Vec<u32> = Vec::new();
    for i in 0..h
        invariant
            h == width / 2,
            s@.len() == i,
            c@.len() == i,
            forall|j: int| 0 <= j < i ==> computes(*f, sines(p, width, base)[j], #[trigger] s@[j]),
            forall|j: int|
                0 <= j < i ==> computes(*f, cosines(p, width, base)[j], #[trigger] c@[j]),
    {
        let ci: u32 = do_count(f, i);
        let cw: u32 = do_count(f, width);
        let cp: u32 = do_count(f, p);
        let ghost ti = times(bits(MINUS_TWO), Fx::Count(i));
        let two_i: u32 = do_times(f, MINUS_TWO, ci, Ghost(bits(MINUS_TWO)), Ghost(Fx::Count(i)));
        let share: u32 = do_over(f, two_i, cw, Ghost(ti), Ghost(Fx::Count(width)));
        let ghost es = over(ti, Fx::Count(width));
        let scale: u32 = do_pow(f, base, share, Ghost(bits(base)), Ghost(es));
        let t: u32 = do_times(f, cp, scale, Ghost(Fx::Count(p)), Ghost(pow_of(bits(base), es)));
        let ghost et = angle(p, i, width, base);
        s.push(do_sin(f, t, Ghost(et)));
        c.push(do_cos(f, t, Ghost(et)));
    }
    (s, c)
}

/// Sines and cosines for the positions before `rows`.
pub fn rope_tables<F: Float>(f: &F, rows: usize, width: usize, base: u32) -> (r: (
    Vec<Vec<u32>>,
    Vec<Vec<u32>>,
))
    ensures
        rows_compute(*f, Seq::new(rows as nat, |p: int| sines(p as usize, width, base)), r.0@),
        rows_compute(*f, Seq::new(rows as nat, |p: int| cosines(p as usize, width, base)), r.1@),
{
    let mut s: Vec<Vec<u32>> = Vec::new();
    let mut c: Vec<Vec<u32>> = Vec::new();
    for p in 0..rows
        invariant
            s@.len() == p,
            c@.len() == p,
            forall|q: int|
                0 <= q < p ==> computes_all(
                    *f,
                    sines(q as usize, width, base),
                    (#[trigger] s@[q])@,
                ),
            forall|q: int|
                0 <= q < p ==> computes_all(
                    *f,
                    cosines(q as usize, width, base),
                    (#[trigger] c@[q])@,
                ),
    {
        let (a, b) = rope_row(f, p, width, base);
        s.push(a);
        c.push(b);
    }
    (s, c)
}

/// Place `e` of a row of heads of width `width`, turned by angles with the
/// given sines and cosines. The two halves of a head are turned as pairs.
pub open spec fn turned_at(x: Seq<Fx>, width: int, s: Seq<Fx>, c: Seq<Fx>, e: int) -> Fx {
    let h = width / 2;
    let i = e % width;
    if i < h {
        minus(times(x[e], c[i]), times(x[e + h], s[i]))
    } else if i < 2 * h {
        plus(times(x[e - h], s[i - h]), times(x[e], c[i - h]))
    } else {
        x[e]
    }
}

/// A row of heads, turned.
pub open spec fn turned(x: Seq<Fx>, width: nat, s: Seq<Fx>, c: Seq<Fx>) -> Seq<Fx> {
    Seq::new(x.len(), |e: int| turned_at(x, width as int, s, c, e))
}

/// Turns a row of heads of width `width`.
pub(crate) fn turn<F: Float>(
    f: &F,
    x: &Vec<u32>,
    heads: usize,
    width: usize,
    s: &Vec<u32>,
    c: &Vec<u32>,
    Ghost(ex): Ghost<Seq<Fx>>,
    Ghost(es): Ghost<Seq<Fx>>,
    Ghost(ec): Ghost<Seq<Fx>>,
) -> (out: Vec<u32>)
    requires
        x@.len() == heads * width,
        computes_all(*f, ex, x@),
        computes_all(*f, es, s@),
        computes_all(*f, ec, c@),
        s@.len() == width / 2,
        c@.len() == width / 2,
    ensures
        computes_all(*f, turned(ex, width as nat, es, ec), out@),
{
    let size: usize = x.len();
    let h: usize = width / 2;
    let ghost want = turned(ex, width as nat, es, ec);
    let mut out: Vec<u32> = Vec::new();
    for e in 0..size
        invariant
            size == x@.len() == heads * width,
            h == width / 2,
            want == turned(ex, width as nat, es, ec),
            computes_all(*f, ex, x@),
            computes_all(*f, es, s@),
            computes_all(*f, ec, c@),
            s@.len() == h,
            c@.len() == h,
            out@.len() == e,
            forall|j: int| 0 <= j < e ==> computes(*f, want[j], #[trigger] out@[j]),
    {
        proof {
            lemma_split(e as int, heads as int, width as int);
            let r = e as int / width as int;
            assert(r * width + width <= heads * width) by (nonlinear_arith)
                requires
                    0 <= r < heads,
                    0 < width,
            ;
        }
        let i: usize = e % width;
        let v: u32 = if i < h {
            proof {
                assert(computes(*f, ex[e as int], x@[e as int]));
                assert(computes(*f, ex[e + h], x@[e + h]));
                assert(computes(*f, es[i as int], s@[i as int]));
                assert(computes(*f, ec[i as int], c@[i as int]));
            }
            let a: u32 = do_times(f, x[e], c[i], Ghost(ex[e as int]), Ghost(ec[i as int]));
            let b: u32 = do_times(f, x[e + h], s[i], Ghost(ex[e + h]), Ghost(es[i as int]));
            do_minus(
                f,
                a,
                b,
                Ghost(times(ex[e as int], ec[i as int])),
                Ghost(times(ex[e + h], es[i as int])),
            )
        } else if i - h < h {
            let k: usize = i - h;
            proof {
                assert(computes(*f, ex[e as int], x@[e as int]));
                assert(computes(*f, ex[e - h], x@[e - h]));
                assert(computes(*f, es[k as int], s@[k as int]));
                assert(computes(*f, ec[k as int], c@[k as int]));
            }
            let a: u32 = do_times(f, x[e - h], s[k], Ghost(ex[e - h]), Ghost(es[k as int]));
            let b: u32 = do_times(f, x[e], c[k], Ghost(ex[e as int]), Ghost(ec[k as int]));
            do_plus(
                f,
                a,
                b,
                Ghost(times(ex[e - h], es[k as int])),
                Ghost(times(ex[e as int], ec[k as int])),
            )
        } else {
            proof {
                assert(computes(*f, ex[e as int], x@[e as int]));
            }
            x[e]
        };
        out.push(v);
    }
    out
}

/// The logistic function.
pub open spec fn logistic(x: Fx) -> Fx {
    over(bits(ONE), plus(bits(ONE), exp_of(neg_of(x))))
}

/// A row, each number times its logistic, times the other row.
pub open spec fn gated(g: Seq<Fx>, u: Seq<Fx>) -> Seq<Fx> {
    Seq::new(g.len(), |i: int| times(times(g[i], logistic(g[i])), u[i]))
}

/// A row, each number times its logistic, times the other row.
pub(crate) fn gate_row<F: Float>(
    f: &F,
    g: &Vec<u32>,
    u: &Vec<u32>,
    Ghost(eg): Ghost<Seq<Fx>>,
    Ghost(eu): Ghost<Seq<Fx>>,
) -> (out: Vec<u32>)
    requires
        g@.len() == u@.len(),
        computes_all(*f, eg, g@),
        computes_all(*f, eu, u@),
    ensures
        computes_all(*f, gated(eg, eu), out@),
{
    let mut out: Vec<u32> = Vec::new();
    for i in 0..g.len()
        invariant
            g@.len() == u@.len(),
            computes_all(*f, eg, g@),
            computes_all(*f, eu, u@),
            out@.len() == i,
            forall|j: int| 0 <= j < i ==> computes(*f, gated(eg, eu)[j], #[trigger] out@[j]),
    {
        let ghost e = eg[i as int];
        let ghost d = eu[i as int];
        proof {
            assert(computes(*f, e, g@[i as int]));
            assert(computes(*f, d, u@[i as int]));
        }
        let x: u32 = g[i];
        let n: u32 = do_neg(f, x, Ghost(e));
        let p: u32 = do_exp(f, n, Ghost(neg_of(e)));
        let q: u32 = do_plus(f, ONE, p, Ghost(bits(ONE)), Ghost(exp_of(neg_of(e))));
        let s: u32 = do_over(
            f,
            ONE,
            q,
            Ghost(bits(ONE)),
            Ghost(plus(bits(ONE), exp_of(neg_of(e)))),
        );
        let xs: u32 = do_times(f, x, s, Ghost(e), Ghost(logistic(e)));
        out.push(do_times(f, xs, u[i], Ghost(times(e, logistic(e))), Ghost(d)));
    }
    out
}

/// The sums of two rows, place by place.
pub open spec fn added(a: Seq<Fx>, b: Seq<Fx>) -> Seq<Fx> {
    Seq::new(a.len(), |i: int| plus(a[i], b[i]))
}

/// The sums of two rows, place by place.
pub(crate) fn add_row<F: Float>(
    f: &F,
    a: &Vec<u32>,
    b: &Vec<u32>,
    Ghost(ea): Ghost<Seq<Fx>>,
    Ghost(eb): Ghost<Seq<Fx>>,
) -> (out: Vec<u32>)
    requires
        a@.len() == b@.len(),
        computes_all(*f, ea, a@),
        computes_all(*f, eb, b@),
    ensures
        computes_all(*f, added(ea, eb), out@),
{
    let mut out: Vec<u32> = Vec::new();
    for i in 0..a.len()
        invariant
            a@.len() == b@.len(),
            computes_all(*f, ea, a@),
            computes_all(*f, eb, b@),
            out@.len() == i,
            forall|j: int| 0 <= j < i ==> computes(*f, added(ea, eb)[j], #[trigger] out@[j]),
    {
        proof {
            assert(computes(*f, ea[i as int], a@[i as int]));
            assert(computes(*f, eb[i as int], b@[i as int]));
        }
        out.push(do_plus(f, a[i], b[i], Ghost(ea[i as int]), Ghost(eb[i as int])));
    }
    out
}

} // verus!
