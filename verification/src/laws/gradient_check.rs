//! What a check of gradients measures.

use crate::exact::{
    is_finite, lemma_constants, lemma_magnitude, lemma_order, lemma_size_order, real_of,
};
use crate::float::{
    abs_of, bits, computes, equal, larger, larger_of, magnitude, negated, Float, SIGN, ZERO,
};
use crate::gradcheck::{measured, too_far, GradReport, LEAST, TWO};
use vstd::prelude::*;

verus! {

/// A number without its sign.
pub open spec fn absolute(x: real) -> real {
    if x < 0real {
        0real - x
    } else {
        x
    }
}

/// The largest of three numbers.
pub open spec fn largest(x: real, y: real, z: real) -> real {
    if x >= y && x >= z {
        x
    } else if y >= z {
        y
    } else {
        z
    }
}

/// `d` may be the difference of the gradient and the finite difference.
pub open spec fn differs_by<F: Float>(f: F, a: u32, n: u32, d: u32) -> bool {
    call_ensures(F::minus, (&f, a, n), d)
}

/// The distance is the difference without its sign.
proof fn lemma_distance<F: Float>(f: F, a: u32, p: u32, m: u32, eps: u32, r: GradReport) -> (d: u32)
    requires
        measured(f, a, p, m, eps, r),
    ensures
        differs_by(f, a, r.numerical, d),
        r.diff == magnitude(d),
{
    reveal_with_fuel(computes, 3);
    choose|d: u32| differs_by(f, a, r.numerical, d) && r.diff == magnitude(d)
}

/// The measured distance has no sign, and is zero only if the difference of
/// gradient and finite difference computes to zero.
pub proof fn law_distance_is_zero_at_no_difference<F: Float>(
    f: F,
    a: u32,
    p: u32,
    m: u32,
    eps: u32,
    r: GradReport,
)
    requires
        measured(f, a, p, m, eps, r),
    ensures
        r.diff < SIGN,
        r.diff == ZERO ==> exists|d: u32| #[trigger]
            differs_by(f, a, r.numerical, d) && equal(d, ZERO),
{
    let d = lemma_distance(f, a, p, m, eps, r);
    assert(differs_by(f, a, r.numerical, d));
}

/// The measured distance is symmetric: it is the same for a gradient above
/// and for one equally far below the finite difference.
pub proof fn law_distance_is_symmetric<F: Float>(
    f: F,
    a: u32,
    a2: u32,
    p: u32,
    m: u32,
    eps: u32,
    r: GradReport,
    r2: GradReport,
)
    requires
        measured(f, a, p, m, eps, r),
        measured(f, a2, p, m, eps, r2),
        r.numerical == r2.numerical,
        forall|d: u32, d2: u32| #[trigger]
            differs_by(f, a, r.numerical, d) && #[trigger] differs_by(f, a2, r.numerical, d2)
                ==> d2 == negated(d),
    ensures
        r.diff == r2.diff,
{
    let d = lemma_distance(f, a, p, m, eps, r);
    let d2 = lemma_distance(f, a2, p, m, eps, r2);
    assert(differs_by(f, a, r.numerical, d) && differs_by(f, a2, r.numerical, d2));
}

/// The host rounds nothing at this gradient and these values.
pub open spec fn nothing_rounded<F: Float>(
    f: F,
    a: u32,
    p: u32,
    m: u32,
    eps: u32,
    r: GradReport,
) -> bool {
    &&& forall|d: u32| #[trigger]
        call_ensures(F::minus, (&f, p, m), d) ==> is_finite(d) && real_of(d) == real_of(p)
            - real_of(m)
    &&& forall|d: u32| #[trigger]
        call_ensures(F::minus, (&f, a, r.numerical), d) ==> is_finite(d) && real_of(d) == real_of(a)
            - real_of(r.numerical)
    &&& forall|w: u32| #[trigger]
        call_ensures(F::times, (&f, TWO, eps), w) ==> is_finite(w) && real_of(w) == 2real * real_of(
            eps,
        )
    &&& forall|x: u32, w: u32, z: u32| #[trigger]
        call_ensures(F::over, (&f, x, w), z) && is_finite(x) && is_finite(w) && real_of(w) != 0real
            && (real_of(x) == real_of(p) - real_of(m) || x == r.diff) ==> is_finite(z) && real_of(z)
            * real_of(w) == real_of(x)
}

/// What the distance is compared with.
proof fn lemma_top<F: Float>(f: F, a: u32, n: u32, t: u32)
    requires
        computes(f, larger_of(larger_of(abs_of(bits(a)), abs_of(bits(n))), bits(LEAST)), t),
    ensures
        t == larger(larger(magnitude(a) as u32, magnitude(n) as u32), LEAST),
{
    let e = larger_of(abs_of(bits(a)), abs_of(bits(n)));
    let (xy, l) = choose|xy: u32, l: u32|
        computes(f, e, xy) && computes(f, bits(LEAST), l) && t == #[trigger] larger(xy, l);
    assert(computes(f, e, xy));
    let (x, y) = choose|x: u32, y: u32|
        computes(f, abs_of(bits(a)), x) && computes(f, abs_of(bits(n)), y)
            && xy == #[trigger] larger(x, y);
    assert(computes(f, abs_of(bits(a)), x) && computes(f, abs_of(bits(n)), y));
    reveal_with_fuel(computes, 2);
}

/// Where nothing is rounded the report holds the central difference, the
/// distance of the gradient from it, and that distance over the larger of the
/// two and the least: all without sign, so that a gradient above and one below
/// are told alike.
pub proof fn law_report_measures<F: Float>(
    f: F,
    a: u32,
    p: u32,
    m: u32,
    eps: u32,
    r: GradReport,
)
    requires
        measured(f, a, p, m, eps, r),
        nothing_rounded(f, a, p, m, eps, r),
        is_finite(a) && is_finite(p) && is_finite(m) && is_finite(eps),
        real_of(eps) != 0real,
    ensures
        is_finite(r.numerical) && is_finite(r.diff) && is_finite(r.rel_diff),
        real_of(r.numerical) * (2real * real_of(eps)) == real_of(p) - real_of(m),
        real_of(r.diff) == absolute(real_of(a) - real_of(r.numerical)),
        real_of(r.rel_diff) * largest(
            absolute(real_of(a)),
            absolute(real_of(r.numerical)),
            real_of(LEAST),
        ) == absolute(real_of(a) - real_of(r.numerical)),
        real_of(LEAST) > 0real,
{
    reveal_with_fuel(computes, 4);
    lemma_constants();
    lemma_size_order(0, LEAST as int);
    let n = r.numerical;
    let (t, w) = choose|t: u32, w: u32|
        call_ensures(F::minus, (&f, p, m), t) && call_ensures(F::times, (&f, TWO, eps), w)
            && #[trigger] call_ensures(F::over, (&f, t, w), n);
    let e = real_of(eps);
    assert(2real * e != 0real);
    assert(is_finite(n) && real_of(n) * real_of(w) == real_of(t));
    let d = lemma_distance(f, a, p, m, eps, r);
    lemma_magnitude(d);
    lemma_magnitude(a);
    lemma_magnitude(n);
    let x = magnitude(a) as u32;
    let y = magnitude(n) as u32;
    lemma_order(x, y);
    let xy = larger(x, y);
    lemma_order(xy, LEAST);
    let top = larger(xy, LEAST);
    let et = larger_of(larger_of(abs_of(bits(a)), abs_of(bits(n))), bits(LEAST));
    let (u, v) = choose|u: u32, v: u32|
        computes(f, bits(r.diff), u) && computes(f, et, v) && #[trigger] call_ensures(
            F::over,
            (&f, u, v),
            r.rel_diff,
        );
    lemma_top(f, a, n, v);
    assert(call_ensures(F::over, (&f, r.diff, top), r.rel_diff));
    assert(real_of(top) == largest(absolute(real_of(a)), absolute(real_of(n)), real_of(LEAST)));
}

/// A gradient that differs by more than the tolerance, absolutely and
/// relatively, is too far in either direction, and no other is.
pub proof fn law_far_gradients_are_told<F: Float>(
    f: F,
    a: u32,
    p: u32,
    m: u32,
    eps: u32,
    r: GradReport,
    tol: u32,
)
    requires
        measured(f, a, p, m, eps, r),
        nothing_rounded(f, a, p, m, eps, r),
        is_finite(a) && is_finite(p) && is_finite(m) && is_finite(eps) && is_finite(tol),
        real_of(eps) != 0real,
    ensures
        ({
            let d = absolute(real_of(a) - real_of(r.numerical));
            let top = largest(
                absolute(real_of(a)),
                absolute(real_of(r.numerical)),
                real_of(LEAST),
            );
            too_far(r, tol) <==> d > real_of(tol) && d > real_of(tol) * top
        }),
{
    law_report_measures(f, a, p, m, eps, r);
    lemma_order(r.diff, tol);
    lemma_order(r.rel_diff, tol);
    let q = real_of(r.rel_diff);
    let t = real_of(tol);
    let top = largest(absolute(real_of(a)), absolute(real_of(r.numerical)), real_of(LEAST));
    assert(q > t <==> q * top > t * top) by (nonlinear_arith)
        requires
            top > 0real,
    ;
}

} // verus!
