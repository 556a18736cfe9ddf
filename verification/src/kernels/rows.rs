//! Formulas over rows of numbers: sums, largest elements, softmax and
//! normalization.

use crate::float::{
    bits, computes, computes_all, do_count, do_exp, do_larger, do_minus, do_over, do_plus, do_sqrt,
    do_square, do_times, exp_of, larger_of, minus, over, plus, sqrt_of, square_of, times, Float, Fx,
    NEG_INFINITY, NEG_ZERO, ZERO,
};
use vstd::prelude::*;

verus! {

/// The sum of a list, added from the left onto `start`.
pub open spec fn sum_onto(start: u32, es: Seq<Fx>) -> Fx
    decreases es.len(),
{
    if es.len() == 0 {
        bits(start)
    } else {
        plus(sum_onto(start, es.drop_last()), es.last())
    }
}

/// The sum of a list, added up from zero.
pub open spec fn sum_seq(es: Seq<Fx>) -> Fx {
    sum_onto(ZERO, es)
}

/// The total of a list, added up from negative zero, the neutral element of
/// addition.
pub open spec fn total_seq(es: Seq<Fx>) -> Fx {
    sum_onto(NEG_ZERO, es)
}

/// The largest of a list, compared from the left with negative infinity.
pub open spec fn max_seq(es: Seq<Fx>) -> Fx
    decreases es.len(),
{
    if es.len() == 0 {
        bits(NEG_INFINITY)
    } else {
        larger_of(max_seq(es.drop_last()), es.last())
    }
}

/// The products of two lists, place by place.
pub open spec fn products(a: Seq<Fx>, b: Seq<Fx>) -> Seq<Fx> {
    Seq::new(a.len(), |i: int| times(a[i], b[i]))
}

/// The sum of a list of numbers, added up from zero.
pub(crate) fn sum_vec<F: Float>(f: &F, v: &Vec<u32>, Ghost(es): Ghost<Seq<Fx>>) -> (r: u32)
    requires
        computes_all(*f, es, v@),
    ensures
        computes(*f, sum_seq(es), r),
{
    sum_onto_vec(f, ZERO, v, Ghost(es))
}

/// The total of a list of numbers, added up from negative zero.
pub(crate) fn total_vec<F: Float>(f: &F, v: &Vec<u32>, Ghost(es): Ghost<Seq<Fx>>) -> (r: u32)
    requires
        computes_all(*f, es, v@),
    ensures
        computes(*f, total_seq(es), r),
{
    sum_onto_vec(f, NEG_ZERO, v, Ghost(es))
}

/// The sum of a list of numbers, added onto `start`.
pub(crate) fn sum_onto_vec<F: Float>(f: &F, start: u32, v: &Vec<u32>, Ghost(es): Ghost<Seq<Fx>>) -> (r:
    u32)
    requires
        computes_all(*f, es, v@),
    ensures
        computes(*f, sum_onto(start, es), r),
{
    let mut acc: u32 = start;
    proof {
        assert(es.take(0).len() == 0);
    }
    for i in 0..v.len()
        invariant
            computes_all(*f, es, v@),
            computes(*f, sum_onto(start, es.take(i as int)), acc),
    {
        let ghost before = es.take(i as int);
        proof {
            assert(es.take(i + 1).drop_last() =~= before);
            assert(computes(*f, es[i as int], v@[i as int]));
        }
        acc = do_plus(f, acc, v[i], Ghost(sum_onto(start, before)), Ghost(es[i as int]));
    }
    proof {
        assert(es.take(v@.len() as int) =~= es);
    }
    acc
}

/// The largest of a list of numbers.
pub(crate) fn max_vec<F: Float>(f: &F, v: &Vec<u32>, Ghost(es): Ghost<Seq<Fx>>) -> (r: u32)
    requires
        computes_all(*f, es, v@),
    ensures
        computes(*f, max_seq(es), r),
{
    let mut acc: u32 = NEG_INFINITY;
    proof {
        assert(es.take(0).len() == 0);
    }
    for i in 0..v.len()
        invariant
            computes_all(*f, es, v@),
            computes(*f, max_seq(es.take(i as int)), acc),
    {
        let ghost before = es.take(i as int);
        proof {
            assert(es.take(i + 1).drop_last() =~= before);
            assert(computes(*f, es[i as int], v@[i as int]));
        }
        acc = do_larger(f, acc, v[i], Ghost(max_seq(before)), Ghost(es[i as int]));
    }
    proof {
        assert(es.take(v@.len() as int) =~= es);
    }
    acc
}

/// The products of two lists of numbers, place by place.
pub(crate) fn products_vec<F: Float>(
    f: &F,
    a: &Vec<u32>,
    b: &Vec<u32>,
    Ghost(ea): Ghost<Seq<Fx>>,
    Ghost(eb): Ghost<Seq<Fx>>,
) -> (out: Vec<u32>)
    requires
        a@.len() == b@.len(),
        computes_all(*f, ea, a@),
        computes_all(*f, eb, b@),
    ensures
        computes_all(*f, products(ea, eb), out@),
{
    let mut out: Vec<u32> = Vec::new();
    for i in 0..a.len()
        invariant
            a@.len() == b@.len(),
            computes_all(*f, ea, a@),
            computes_all(*f, eb, b@),
            out@.len() == i,
            forall|j: int| 0 <= j < i ==> computes(*f, products(ea, eb)[j], #[trigger] out@[j]),
    {
        proof {
            assert(computes(*f, ea[i as int], a@[i as int]));
            assert(computes(*f, eb[i as int], b@[i as int]));
        }
        out.push(do_times(f, a[i], b[i], Ghost(ea[i as int]), Ghost(eb[i as int])));
    }
    out
}

/// The exponentials of a list after `top` was taken off each number.
pub open spec fn exps(es: Seq<Fx>, top: Fx) -> Seq<Fx> {
    Seq::new(es.len(), |i: int| exp_of(minus(es[i], top)))
}

/// The softmax of a row: each exponential, taken after the largest number was
/// taken off, over the sum of all of them onto `start`.
pub open spec fn softmax_row(start: u32, es: Seq<Fx>) -> Seq<Fx> {
    Seq::new(
        es.len(),
        |i: int| over(exps(es, max_seq(es))[i], sum_onto(start, exps(es, max_seq(es)))),
    )
}

/// The exponentials of a row after its largest number was taken off.
pub(crate) fn exps_vec<F: Float>(f: &F, v: &Vec<u32>, top: u32, Ghost(es): Ghost<Seq<Fx>>, Ghost(
    et,
): Ghost<Fx>) -> (out: Vec<u32>)
    requires
        computes_all(*f, es, v@),
        computes(*f, et, top),
    ensures
        computes_all(*f, exps(es, et), out@),
{
    let mut out: Vec<u32> = Vec::new();
    for i in 0..v.len()
        invariant
            computes_all(*f, es, v@),
            computes(*f, et, top),
            out@.len() == i,
            forall|j: int| 0 <= j < i ==> computes(*f, exps(es, et)[j], #[trigger] out@[j]),
    {
        proof {
            assert(computes(*f, es[i as int], v@[i as int]));
        }
        let d: u32 = do_minus(f, v[i], top, Ghost(es[i as int]), Ghost(et));
        out.push(do_exp(f, d, Ghost(minus(es[i as int], et))));
    }
    out
}

/// The softmax of a row of numbers.
pub(crate) fn softmax_vec<F: Float>(f: &F, start: u32, v: &Vec<u32>, Ghost(es): Ghost<Seq<Fx>>) -> (out:
    Vec<u32>)
    requires
        computes_all(*f, es, v@),
    ensures
        computes_all(*f, softmax_row(start, es), out@),
{
    let top: u32 = max_vec(f, v, Ghost(es));
    let ps = exps_vec(f, v, top, Ghost(es), Ghost(max_seq(es)));
    let ghost eps = exps(es, max_seq(es));
    let sum: u32 = sum_onto_vec(f, start, &ps, Ghost(eps));
    let mut out: Vec<u32> = Vec::new();
    for i in 0..ps.len()
        invariant
            eps == exps(es, max_seq(es)),
            ps@.len() == es.len(),
            computes_all(*f, eps, ps@),
            computes(*f, sum_onto(start, eps), sum),
            out@.len() == i,
            forall|j: int|
                0 <= j < i ==> computes(*f, softmax_row(start, es)[j], #[trigger] out@[j]),
    {
        proof {
            assert(computes(*f, eps[i as int], ps@[i as int]));
        }
        out.push(do_over(f, ps[i], sum, Ghost(eps[i as int]), Ghost(sum_onto(start, eps))));
    }
    out
}

/// The gradient of a softmax row `s` for the gradient `d` of its result.
pub open spec fn softmax_grad_row(s: Seq<Fx>, d: Seq<Fx>) -> Seq<Fx> {
    Seq::new(s.len(), |i: int| times(s[i], minus(d[i], sum_seq(products(d, s)))))
}

/// The gradient of a softmax row of numbers.
pub(crate) fn softmax_grad_vec<F: Float>(
    f: &F,
    s: &Vec<u32>,
    d: &Vec<u32>,
    Ghost(es): Ghost<Seq<Fx>>,
    Ghost(ed): Ghost<Seq<Fx>>,
) -> (out: Vec<u32>)
    requires
        s@.len() == d@.len(),
        computes_all(*f, es, s@),
        computes_all(*f, ed, d@),
    ensures
        computes_all(*f, softmax_grad_row(es, ed), out@),
{
    let ps = products_vec(f, d, s, Ghost(ed), Ghost(es));
    let sum: u32 = sum_vec(f, &ps, Ghost(products(ed, es)));
    let mut out: Vec<u32> = Vec::new();
    for i in 0..s.len()
        invariant
            s@.len() == d@.len(),
            computes_all(*f, es, s@),
            computes_all(*f, ed, d@),
            computes(*f, sum_seq(products(ed, es)), sum),
            out@.len() == i,
            forall|j: int|
                0 <= j < i ==> computes(*f, softmax_grad_row(es, ed)[j], #[trigger] out@[j]),
    {
        let ghost e = sum_seq(products(ed, es));
        proof {
            assert(computes(*f, es[i as int], s@[i as int]));
            assert(computes(*f, ed[i as int], d@[i as int]));
        }
        let m: u32 = do_minus(f, d[i], sum, Ghost(ed[i as int]), Ghost(e));
        out.push(do_times(f, s[i], m, Ghost(es[i as int]), Ghost(minus(ed[i as int], e))));
    }
    out
}

/// The mean of a row.
pub open spec fn mean_of(es: Seq<Fx>) -> Fx {
    over(total_seq(es), Fx::Count(es.len() as usize))
}

/// The squares of the distances from `m`.
pub open spec fn squared_distances(es: Seq<Fx>, m: Fx) -> Seq<Fx> {
    Seq::new(es.len(), |i: int| square_of(minus(es[i], m)))
}

/// The deviation of a row: the root of its variance plus `epsilon`.
pub open spec fn deviation_of(es: Seq<Fx>, epsilon: u32) -> Fx {
    sqrt_of(
        plus(
            over(
                total_seq(squared_distances(es, mean_of(es))),
                Fx::Count(es.len() as usize),
            ),
            bits(epsilon),
        ),
    )
}

/// A row, normalized: distances from the mean over the deviation.
pub open spec fn normalized(es: Seq<Fx>, epsilon: u32) -> Seq<Fx> {
    Seq::new(es.len(), |i: int| over(minus(es[i], mean_of(es)), deviation_of(es, epsilon)))
}

/// Mean and deviation of a row of numbers.
pub(crate) fn moments<F: Float>(f: &F, v: &Vec<u32>, epsilon: u32, Ghost(es): Ghost<Seq<Fx>>) -> (r:
    (u32, u32))
    requires
        computes_all(*f, es, v@),
    ensures
        computes(*f, mean_of(es), r.0),
        computes(*f, deviation_of(es, epsilon), r.1),
{
    let n: usize = v.len();
    let ghost en = Fx::Count(n);
    let count: u32 = do_count(f, n);
    let total: u32 = total_vec(f, v, Ghost(es));
    let mean: u32 = do_over(f, total, count, Ghost(total_seq(es)), Ghost(en));
    let ghost sq = squared_distances(es, mean_of(es));
    let mut squares: Vec<u32> = Vec::new();
    for i in 0..n
        invariant
            n == v@.len(),
            computes_all(*f, es, v@),
            computes(*f, mean_of(es), mean),
            sq == squared_distances(es, mean_of(es)),
            squares@.len() == i,
            forall|j: int| 0 <= j < i ==> computes(*f, sq[j], #[trigger] squares@[j]),
    {
        proof {
            assert(computes(*f, es[i as int], v@[i as int]));
        }
        let d: u32 = do_minus(f, v[i], mean, Ghost(es[i as int]), Ghost(mean_of(es)));
        squares.push(do_square(f, d, Ghost(minus(es[i as int], mean_of(es)))));
    }
    let ssq: u32 = total_vec(f, &squares, Ghost(sq));
    let count2: u32 = do_count(f, n);
    let var: u32 = do_over(f, ssq, count2, Ghost(total_seq(sq)), Ghost(en));
    let shifted: u32 = do_plus(
        f,
        var,
        epsilon,
        Ghost(over(total_seq(sq), en)),
        Ghost(bits(epsilon)),
    );
    let dev: u32 = do_sqrt(f, shifted, Ghost(plus(over(total_seq(sq), en), bits(epsilon))));
    (mean, dev)
}

/// A row of numbers, normalized.
pub(crate) fn normalized_vec<F: Float>(
    f: &F,
    v: &Vec<u32>,
    mean: u32,
    dev: u32,
    epsilon: u32,
    Ghost(es): Ghost<Seq<Fx>>,
) -> (out: Vec<u32>)
    requires
        computes_all(*f, es, v@),
        computes(*f, mean_of(es), mean),
        computes(*f, deviation_of(es, epsilon), dev),
    ensures
        computes_all(*f, normalized(es, epsilon), out@),
{
    let mut out: Vec<u32> = Vec::new();
    for i in 0..v.len()
        invariant
            computes_all(*f, es, v@),
            computes(*f, mean_of(es), mean),
            computes(*f, deviation_of(es, epsilon), dev),
            out@.len() == i,
            forall|j: int|
                0 <= j < i ==> computes(*f, normalized(es, epsilon)[j], #[trigger] out@[j]),
    {
        proof {
            assert(computes(*f, es[i as int], v@[i as int]));
        }
        let d: u32 = do_minus(f, v[i], mean, Ghost(es[i as int]), Ghost(mean_of(es)));
        out.push(
            do_over(
                f,
                d,
                dev,
                Ghost(minus(es[i as int], mean_of(es))),
                Ghost(deviation_of(es, epsilon)),
            ),
        );
    }
    out
}

/// A row after layer normalization: normalized, scaled by `w`, moved by `b`.
pub open spec fn layer_norm_row(x: Seq<Fx>, w: Seq<Fx>, b: Seq<Fx>, epsilon: u32) -> Seq<Fx> {
    Seq::new(x.len(), |i: int| plus(times(normalized(x, epsilon)[i], w[i]), b[i]))
}

/// Layer normalization of a row of numbers.
pub(crate) fn layer_norm_vec<F: Float>(
    f: &F,
    x: &Vec<u32>,
    w: &Vec<u32>,
    b: &Vec<u32>,
    epsilon: u32,
    Ghost(ex): Ghost<Seq<Fx>>,
    Ghost(ew): Ghost<Seq<Fx>>,
    Ghost(eb): Ghost<Seq<Fx>>,
) -> (out: Vec<u32>)
    requires
        x@.len() == w@.len() == b@.len(),
        computes_all(*f, ex, x@),
        computes_all(*f, ew, w@),
        computes_all(*f, eb, b@),
    ensures
        computes_all(*f, layer_norm_row(ex, ew, eb, epsilon), out@),
{
    let (mean, dev) = moments(f, x, epsilon, Ghost(ex));
    let hat = normalized_vec(f, x, mean, dev, epsilon, Ghost(ex));
    let ghost eh = normalized(ex, epsilon);
    let mut out: Vec<u32> = Vec::new();
    for i in 0..x.len()
        invariant
            x@.len() == w@.len() == b@.len() == hat@.len(),
            eh == normalized(ex, epsilon),
            ex.len() == x@.len(),
            computes_all(*f, eh, hat@),
            computes_all(*f, ew, w@),
            computes_all(*f, eb, b@),
            out@.len() == i,
            forall|j: int|
                0 <= j < i ==> computes(
                    *f,
                    layer_norm_row(ex, ew, eb, epsilon)[j],
                    #[trigger] out@[j],
                ),
    {
        proof {
            assert(computes(*f, eh[i as int], hat@[i as int]));
            assert(computes(*f, ew[i as int], w@[i as int]));
            assert(computes(*f, eb[i as int], b@[i as int]));
        }
        let t: u32 = do_times(f, hat[i], w[i], Ghost(eh[i as int]), Ghost(ew[i as int]));
        out.push(
            do_plus(
                f,
                t,
                b[i],
                Ghost(times(eh[i as int], ew[i as int])),
                Ghost(eb[i as int]),
            ),
        );
    }
    out
}

/// The root mean square of a row, with `epsilon` under the root.
pub open spec fn rms_of(x: Seq<Fx>, epsilon: u32) -> Fx {
    sqrt_of(plus(over(total_seq(products(x, x)), Fx::Count(x.len() as usize)), bits(epsilon)))
}

/// A row over its root mean square, scaled by `w`.
pub open spec fn rms_norm_row(x: Seq<Fx>, w: Seq<Fx>, epsilon: u32) -> Seq<Fx> {
    Seq::new(x.len(), |i: int| times(over(x[i], rms_of(x, epsilon)), w[i]))
}

/// Root-mean-square normalization of a row of numbers.
pub(crate) fn rms_norm_vec<F: Float>(
    f: &F,
    x: &Vec<u32>,
    w: &Vec<u32>,
    epsilon: u32,
    Ghost(ex): Ghost<Seq<Fx>>,
    Ghost(ew): Ghost<Seq<Fx>>,
) -> (out: Vec<u32>)
    requires
        x@.len() == w@.len(),
        computes_all(*f, ex, x@),
        computes_all(*f, ew, w@),
    ensures
        computes_all(*f, rms_norm_row(ex, ew, epsilon), out@),
{
    let n: usize = x.len();
    let ghost en = Fx::Count(n);
    let sq = products_vec(f, x, x, Ghost(ex), Ghost(ex));
    let total: u32 = total_vec(f, &sq, Ghost(products(ex, ex)));
    let ghost et = total_seq(products(ex, ex));
    let count: u32 = do_count(f, n);
    let ssq: u32 = do_over(f, total, count, Ghost(et), Ghost(en));
    let moved: u32 = do_plus(f, ssq, epsilon, Ghost(over(et, en)), Ghost(bits(epsilon)));
    let rms: u32 = do_sqrt(f, moved, Ghost(plus(over(et, en), bits(epsilon))));
    let mut out: Vec<u32> = Vec::new();
    for i in 0..n
        invariant
            n == x@.len() == w@.len(),
            computes_all(*f, ex, x@),
            computes_all(*f, ew, w@),
            computes(*f, rms_of(ex, epsilon), rms),
            out@.len() == i,
            forall|j: int|
                0 <= j < i ==> computes(*f, rms_norm_row(ex, ew, epsilon)[j], #[trigger] out@[j]),
    {
        proof {
            assert(computes(*f, ex[i as int], x@[i as int]));
            assert(computes(*f, ew[i as int], w@[i as int]));
        }
        let q: u32 = do_over(f, x[i], rms, Ghost(ex[i as int]), Ghost(rms_of(ex, epsilon)));
        out.push(
            do_times(
                f,
                q,
                w[i],
                Ghost(over(ex[i as int], rms_of(ex, epsilon))),
                Ghost(ew[i as int]),
            ),
        );
    }
    out
}

/// The gradient of layer normalization with respect to the row.
pub open spec fn layer_norm_grad_row(
    x: Seq<Fx>,
    w: Seq<Fx>,
    dy: Seq<Fx>,
    epsilon: u32,
) -> Seq<Fx> {
    let hat = normalized(x, epsilon);
    let dw = products(dy, w);
    let n = Fx::Count(x.len() as usize);
    Seq::new(
        x.len(),
        |i: int|
            over(
                minus(
                    minus(dw[i], over(sum_seq(dw), n)),
                    over(times(hat[i], sum_seq(products(dw, hat))), n),
                ),
                deviation_of(x, epsilon),
            ),
    )
}

/// The gradient of layer normalization with respect to a row of numbers.
pub(crate) fn layer_norm_grad_vec<F: Float>(
    f: &F,
    x: &Vec<u32>,
    w: &Vec<u32>,
    dy: &Vec<u32>,
    epsilon: u32,
    Ghost(ex): Ghost<Seq<Fx>>,
    Ghost(ew): Ghost<Seq<Fx>>,
    Ghost(ed): Ghost<Seq<Fx>>,
) -> (out: Vec<u32>)
    requires
        x@.len() == w@.len() == dy@.len(),
        computes_all(*f, ex, x@),
        computes_all(*f, ew, w@),
        computes_all(*f, ed, dy@),
    ensures
        computes_all(*f, layer_norm_grad_row(ex, ew, ed, epsilon), out@),
{
    let n: usize = x.len();
    let ghost en = Fx::Count(n);
    let (mean, dev) = moments(f, x, epsilon, Ghost(ex));
    let hat = normalized_vec(f, x, mean, dev, epsilon, Ghost(ex));
    let ghost eh = normalized(ex, epsilon);
    let dw = products_vec(f, dy, w, Ghost(ed), Ghost(ew));
    let ghost edw = products(ed, ew);
    let sum: u32 = sum_vec(f, &dw, Ghost(edw));
    let dwh = products_vec(f, &dw, &hat, Ghost(edw), Ghost(eh));
    let ghost edwh = products(edw, eh);
    let sumh: u32 = sum_vec(f, &dwh, Ghost(edwh));
    let count: u32 = do_count(f, n);
    let part: u32 = do_over(f, sum, count, Ghost(sum_seq(edw)), Ghost(en));
    let mut out: Vec<u32> = Vec::new();
    for i in 0..n
        invariant
            n == x@.len() == hat@.len() == dw@.len() == ex.len(),
            ed.len() == n,
            en == Fx::Count(n),
            eh == normalized(ex, epsilon),
            edw == products(ed, ew),
            edwh == products(edw, eh),
            computes_all(*f, eh, hat@),
            computes_all(*f, edw, dw@),
            computes(*f, sum_seq(edwh), sumh),
            computes(*f, en, count),
            computes(*f, over(sum_seq(edw), en), part),
            computes(*f, deviation_of(ex, epsilon), dev),
            out@.len() == i,
            forall|j: int|
                0 <= j < i ==> computes(
                    *f,
                    layer_norm_grad_row(ex, ew, ed, epsilon)[j],
                    #[trigger] out@[j],
                ),
    {
        let ghost h = eh[i as int];
        let ghost d = edw[i as int];
        proof {
            assert(computes(*f, h, hat@[i as int]));
            assert(computes(*f, d, dw@[i as int]));
        }
        let a: u32 = do_minus(f, dw[i], part, Ghost(d), Ghost(over(sum_seq(edw), en)));
        let t: u32 = do_times(f, hat[i], sumh, Ghost(h), Ghost(sum_seq(edwh)));
        let q: u32 = do_over(f, t, count, Ghost(times(h, sum_seq(edwh))), Ghost(en));
        let s: u32 = do_minus(
            f,
            a,
            q,
            Ghost(minus(d, over(sum_seq(edw), en))),
            Ghost(over(times(h, sum_seq(edwh)), en)),
        );
        let v: u32 = do_over(
            f,
            s,
            dev,
            Ghost(
                minus(
                    minus(d, over(sum_seq(edw), en)),
                    over(times(h, sum_seq(edwh)), en),
                ),
            ),
            Ghost(deviation_of(ex, epsilon)),
        );
        out.push(v);
    }
    out
}

} // verus!
