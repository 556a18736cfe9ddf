//! Checking gradients against finite differences.

use crate::codegen::ast::ScalarText;
use crate::float::{
    abs_of, bits, computes, do_abs, do_larger, do_minus, do_over, do_times, greater, gt, larger_of,
    minus, over, times, Float,
};
use crate::shape::numel;
use crate::tensor::{copy_words, single, Tensor, TensorView};
use crate::text::{bracketed, decimal, push_bracketed, push_decimal};
use vstd::prelude::*;
use vstd::string::*;

verus! {

/// The bits of `2.0`.
pub const TWO: u32 = 0x4000_0000;

/// The bits of `1e-5`, the least that a distance is compared with.
pub const LEAST: u32 = 0x3727_c5ac;

/// How far a gradient is from a finite difference.
#[derive(Debug, Clone, Copy)]
pub struct GradReport {
    pub numerical: u32,
    pub diff: u32,
    pub rel_diff: u32,
}

/// The report may come out for the gradient `a` where the function is `p`
/// above and `m` below, `eps` away.
pub open spec fn measured<F: Float>(f: F, a: u32, p: u32, m: u32, eps: u32, r: GradReport) -> bool {
    &&& computes(
        f,
        over(minus(bits(p), bits(m)), times(bits(TWO), bits(eps))),
        r.numerical,
    )
    &&& computes(f, abs_of(minus(bits(a), bits(r.numerical))), r.diff)
    &&& computes(
        f,
        over(
            bits(r.diff),
            larger_of(larger_of(abs_of(bits(a)), abs_of(bits(r.numerical))), bits(LEAST)),
        ),
        r.rel_diff,
    )
}

/// The gradient is too far away: by the distance and by its share.
pub open spec fn too_far(r: GradReport, tol: u32) -> bool {
    greater(r.diff, tol) && greater(r.rel_diff, tol)
}

/// Measures how far a gradient is from a finite difference.
pub fn measure<F: Float>(f: &F, a: u32, p: u32, m: u32, eps: u32) -> (r: GradReport)
    ensures
        measured(*f, a, p, m, eps, r),
{
    let top: u32 = do_minus(f, p, m, Ghost(bits(p)), Ghost(bits(m)));
    let wide: u32 = do_times(f, TWO, eps, Ghost(bits(TWO)), Ghost(bits(eps)));
    let numerical: u32 = do_over(
        f,
        top,
        wide,
        Ghost(minus(bits(p), bits(m))),
        Ghost(times(bits(TWO), bits(eps))),
    );
    let d: u32 = do_minus(f, a, numerical, Ghost(bits(a)), Ghost(bits(numerical)));
    let diff: u32 = do_abs(f, d, Ghost(minus(bits(a), bits(numerical))));
    let x: u32 = do_abs(f, a, Ghost(bits(a)));
    let y: u32 = do_abs(f, numerical, Ghost(bits(numerical)));
    let xy: u32 = do_larger(f, x, y, Ghost(abs_of(bits(a))), Ghost(abs_of(bits(numerical))));
    let ghost exy = larger_of(abs_of(bits(a)), abs_of(bits(numerical)));
    let den: u32 = do_larger(f, xy, LEAST, Ghost(exy), Ghost(bits(LEAST)));
    let rel_diff: u32 = do_over(
        f,
        diff,
        den,
        Ghost(bits(diff)),
        Ghost(larger_of(exy, bits(LEAST))),
    );
    GradReport { numerical, diff, rel_diff }
}

/// The complaint about a gradient, where the texts of the four numbers are
/// given.
pub open spec fn complaint(
    i: nat,
    j: nat,
    shape: Seq<usize>,
    a: Seq<char>,
    n: Seq<char>,
    d: Seq<char>,
    r: Seq<char>,
) -> Seq<char> {
    "Gradient mismatch at tensor "@ + decimal(i) + ", element "@ + decimal(j) + " / "@ + decimal(
        numel(shape),
    ) + ".\nShape: "@ + bracketed(shape) + "\nAnalytical: "@ + a + "\nNumerical: "@ + n
        + "\nAbsolute diff: "@ + d + "\nRelative diff: "@ + r
}

/// `s` may be the complaint about a gradient.
pub open spec fn complains<T: ScalarText>(
    t: T,
    i: nat,
    j: nat,
    shape: Seq<usize>,
    a: u32,
    r: GradReport,
    s: Seq<char>,
) -> bool {
    exists|xa: String, xn: String, xd: String, xr: String|
        {
            &&& #[trigger] call_ensures(T::display, (&t, a), xa)
            &&& #[trigger] call_ensures(T::display, (&t, r.numerical), xn)
            &&& #[trigger] call_ensures(T::display, (&t, r.diff), xd)
            &&& #[trigger] call_ensures(T::display, (&t, r.rel_diff), xr)
            &&& s == complaint(i, j, shape, xa@, xn@, xd@, xr@)
        }
}

fn complaint_text<T: ScalarText>(t: &T, i: usize, j: usize, x: &Tensor, n: usize, a: u32, r: &GradReport) -> (s:
    String)
    requires
        n == numel(x@.shape),
    ensures
        complains(*t, i as nat, j as nat, x@.shape, a, *r, s@),
{
    let xa = t.display(a);
    let xn = t.display(r.numerical);
    let xd = t.display(r.diff);
    let xr = t.display(r.rel_diff);
    let mut s = String::from_str("Gradient mismatch at tensor ");
    push_decimal(&mut s, i as u64);
    s.append(", element ");
    push_decimal(&mut s, j as u64);
    s.append(" / ");
    push_decimal(&mut s, n as u64);
    s.append(".\nShape: ");
    push_bracketed(&mut s, &x.shape.dims);
    s.append("\nAnalytical: ");
    s.append(xa.as_str());
    s.append("\nNumerical: ");
    s.append(xn.as_str());
    s.append("\nAbsolute diff: ");
    s.append(xd.as_str());
    s.append("\nRelative diff: ");
    s.append(xr.as_str());
    proof {
        assert(call_ensures(T::display, (t, a), xa));
        assert(call_ensures(T::display, (t, r.numerical), xn));
        assert(call_ensures(T::display, (t, r.diff), xd));
        assert(call_ensures(T::display, (t, r.rel_diff), xr));
        assert(s@ =~= complaint(i as nat, j as nat, x@.shape, xa@, xn@, xd@, xr@));
    }
    s
}

/// Single-precision tensors with element `j` of tensor `i` replaced by `v`.
pub open spec fn with_element(xs: Seq<Tensor>, i: int, j: int, v: u32, out: Seq<Tensor>) -> bool {
    &&& out.len() == xs.len()
    &&& forall|k: int|
        0 <= k < xs.len() ==> (#[trigger] out[k])@ == (if k == i {
            single(xs[k]@.singles().update(j, v), xs[k]@.shape)
        } else {
            xs[k]@
        })
}

fn replaced(xs: &Vec<Tensor>, i: usize, j: usize, v: u32) -> (out: Vec<Tensor>)
    requires
        i < xs@.len(),
        plain(xs@),
        j < numel(xs@[i as int]@.shape),
    ensures
        with_element(xs@, i as int, j as int, v, out@),
{
    let mut out: Vec<Tensor> = Vec::new();
    for k in 0..xs.len()
        invariant
            i < xs@.len(),
            plain(xs@),
            j < numel(xs@[i as int]@.shape),
            out@.len() == k,
            forall|q: int|
                0 <= q < k ==> (#[trigger] out@[q])@ == (if q == i {
                    single(xs@[q]@.singles().update(j as int, v), xs@[q]@.shape)
                } else {
                    xs@[q]@
                }),
    {
        proof {
            assert(is_plain(xs@[k as int]@));
        }
        if k == i {
            let mut data = crate::tensor::copy_words(xs[k].data());
            data.set(j, v);
            out.push(Tensor::new(data, xs[k].shape.copy()));
        } else {
            out.push(xs[k].copy());
        }
    }
    out
}

/// A well-formed single-precision tensor.
pub open spec fn is_plain(x: TensorView) -> bool {
    x.wf() && x == single(x.singles(), x.shape)
}

/// All tensors are well formed and of single precision.
pub open spec fn plain(xs: Seq<Tensor>) -> bool {
    forall|i: int| 0 <= i < xs.len() ==> is_plain((#[trigger] xs[i])@)
}

/// What happens at one element.
pub enum Finding {
    /// The gradient is near the finite difference.
    Near,
    /// It is not; the message says so.
    Far(Seq<char>),
    /// The function could not be computed; the message says why.
    Lost(Seq<char>),
}

/// The finding may come out at element `j` of tensor `i`, where `g` is the
/// gradient there.
pub open spec fn finds<F: Float, T: ScalarText, E: Fn(&Vec<Tensor>) -> Result<u32, String>>(
    f: F,
    t: T,
    eval: E,
    xs: Seq<Tensor>,
    i: int,
    j: int,
    g: u32,
    eps: u32,
    tol: u32,
    found: Finding,
) -> bool {
    let x = xs[i]@.singles()[j];
    exists|hi: u32, above: Vec<Tensor>, p: Result<u32, String>|
        {
            &&& #[trigger] call_ensures(F::plus, (&f, x, eps), hi)
            &&& with_element(xs, i, j, hi, above@)
            &&& #[trigger] call_ensures(eval, (&above,), p)
            &&& match p {
                Err(e) => found == Finding::Lost("Failed to run output_plus: "@ + e@),
                Ok(pv) => exists|lo: u32, below: Vec<Tensor>, m: Result<u32, String>|
                    {
                        &&& #[trigger] call_ensures(F::minus, (&f, x, eps), lo)
                        &&& with_element(xs, i, j, lo, below@)
                        &&& #[trigger] call_ensures(eval, (&below,), m)
                        &&& match m {
                            Err(e) => found == Finding::Lost("Failed to run output_minus: "@ + e@),
                            Ok(mv) => exists|r: GradReport| #[trigger]
                                measured(f, g, pv, mv, eps, r) && match found {
                                    Finding::Near => !too_far(r, tol),
                                    Finding::Far(s) => too_far(r, tol) && complains(
                                        t,
                                        i as nat,
                                        j as nat,
                                        xs[i]@.shape,
                                        g,
                                        r,
                                        s,
                                    ),
                                    Finding::Lost(_) => false,
                                },
                        }
                    },
            }
        }
}

/// Checks one element.
fn check_element<F: Float, T: ScalarText, E: Fn(&Vec<Tensor>) -> Result<u32, String>>(
    f: &F,
    t: &T,
    eval: &E,
    xs: &Vec<Tensor>,
    i: usize,
    j: usize,
    n: usize,
    g: u32,
    eps: u32,
    tol: u32,
) -> (r: Result<(), String>)
    requires
        i < xs@.len(),
        plain(xs@),
        j < n,
        n == numel(xs@[i as int]@.shape),
        forall|v: Vec<Tensor>| #[trigger] call_requires(eval, (&v,)),
    ensures
        match r {
            Ok(_) => finds(*f, *t, *eval, xs@, i as int, j as int, g, eps, tol, Finding::Near),
            Err(m) => finds(*f, *t, *eval, xs@, i as int, j as int, g, eps, tol, Finding::Far(m@))
                || finds(*f, *t, *eval, xs@, i as int, j as int, g, eps, tol, Finding::Lost(m@)),
        },
{
    proof {
        assert(is_plain(xs@[i as int]@));
    }
    let x: u32 = xs[i].data()[j];
    let hi: u32 = f.plus(x, eps);
    let above = replaced(xs, i, j, hi);
    let p = eval(&above);
    proof {
        assert(call_ensures(F::plus, (f, x, eps), hi));
        assert(call_ensures(eval, (&above,), p));
    }
    let pv: u32 = match &p {
        Ok(v) => *v,
        Err(e) => {
            let mut s = String::from_str("Failed to run output_plus: ");
            s.append(e.as_str());
            return Err(s);
        },
    };
    let lo: u32 = f.minus(x, eps);
    let below = replaced(xs, i, j, lo);
    let m = eval(&below);
    proof {
        assert(call_ensures(F::minus, (f, x, eps), lo));
        assert(call_ensures(eval, (&below,), m));
    }
    let mv: u32 = match &m {
        Ok(v) => *v,
        Err(e) => {
            let mut s = String::from_str("Failed to run output_minus: ");
            s.append(e.as_str());
            return Err(s);
        },
    };
    let report = measure(f, g, pv, mv, eps);
    if gt(report.diff, tol) && gt(report.rel_diff, tol) {
        Err(complaint_text(t, i, j, &xs[i], n, g, &report))
    } else {
        Ok(())
    }
}

/// Everything up to element `j` of tensor `i` is near.
pub open spec fn near_before<F: Float, T: ScalarText, E: Fn(&Vec<Tensor>) -> Result<u32, String>>(
    f: F,
    t: T,
    eval: E,
    xs: Seq<Tensor>,
    gradients: Seq<Seq<u32>>,
    eps: u32,
    tol: u32,
    i: int,
    j: int,
) -> bool {
    forall|a: int, b: int|
        0 <= a < xs.len() && 0 <= b < numel(xs[a]@.shape) && (a < i || (a == i && b < j))
            ==> #[trigger] finds(f, t, eval, xs, a, b, gradients[a][b], eps, tol, Finding::Near)
}

/// What may come out of comparing the gradients with finite differences: all
/// are near, or the message on the first element that is too far away or at
/// which the function fails.
pub open spec fn compares<F: Float, T: ScalarText, E: Fn(&Vec<Tensor>) -> Result<u32, String>>(
    f: F,
    t: T,
    eval: E,
    xs: Seq<Tensor>,
    gradients: Seq<Seq<u32>>,
    eps: u32,
    tol: u32,
    r: Result<(), String>,
) -> bool {
    match r {
        Ok(_) => near_before(f, t, eval, xs, gradients, eps, tol, xs.len() as int, 0),
        Err(m) => exists|i: int, j: int|
            {
                let g = gradients[i][j];
                &&& 0 <= i < xs.len()
                &&& 0 <= j < numel(xs[i]@.shape)
                &&& #[trigger] near_before(f, t, eval, xs, gradients, eps, tol, i, j)
                &&& (finds(f, t, eval, xs, i, j, g, eps, tol, Finding::Far(m@)) || finds(
                    f,
                    t,
                    eval,
                    xs,
                    i,
                    j,
                    g,
                    eps,
                    tol,
                    Finding::Lost(m@),
                ))
            },
    }
}

/// What the backward pass found for one input.
#[derive(Debug)]
pub enum Gradient {
    /// No gradient.
    Missing,
    /// A gradient that could not be computed, and why.
    Failed(String),
    /// The numbers of the gradient.
    Found(Vec<u32>),
}

/// What is wrong with the gradient of input `i`.
pub open spec fn problem(g: Gradient, i: nat) -> Option<Seq<char>> {
    match g {
        Gradient::Missing => Some("No gradient computed for input tensor "@ + decimal(i)),
        Gradient::Failed(e) => Some("Failed to run analytical gradient: "@ + e@),
        Gradient::Found(_) => None,
    }
}

/// The message says why there are no gradients to compare: the backward pass
/// failed, or one of the inputs, the first of them, has none.
pub open spec fn lacks(found: Result<Vec<Gradient>, String>, m: Seq<char>) -> bool {
    match found {
        Err(e) => m == "Backward pass failed: "@ + e@,
        Ok(all) => exists|i: int|
            {
                &&& 0 <= i < all@.len()
                &&& #[trigger] problem(all@[i], i as nat) == Some(m)
                &&& forall|j: int| 0 <= j < i ==> #[trigger] problem(all@[j], j as nat) is None
            },
    }
}

/// The backward pass found the gradient of every input.
pub open spec fn complete(found: Result<Vec<Gradient>, String>) -> bool {
    found matches Ok(all) && forall|i: int| 0 <= i < all@.len() ==> #[trigger] all@[i] is Found
}

/// The gradients that the backward pass found.
pub open spec fn numbers(found: Result<Vec<Gradient>, String>) -> Seq<Seq<u32>> {
    Seq::new(found.unwrap()@.len(), |i: int| found.unwrap()@[i]->Found_0@)
}

/// The first input without a gradient is what the message is about.
proof fn lemma_lacks(found: Result<Vec<Gradient>, String>, i: int, m: Seq<char>)
    requires
        found is Ok,
        0 <= i < found.unwrap()@.len(),
        problem(found.unwrap()@[i], i as nat) == Some(m),
        forall|j: int| 0 <= j < i ==> #[trigger] found.unwrap()@[j] is Found,
    ensures
        lacks(found, m),
        !complete(found),
{
    let all = found.unwrap();
    assert(!(all@[i] is Found));
    assert forall|j: int| 0 <= j < i implies #[trigger] problem(all@[j], j as nat) is None by {
        assert(found.unwrap()@[j] is Found);
    }
}

/// The gradients of all inputs, or why they are not there.
pub fn gradients_of(found: &Result<Vec<Gradient>, String>) -> (r: Result<Vec<Vec<u32>>, String>)
    ensures
        match r {
            Ok(gs) => complete(*found) && gs@.len() == numbers(*found).len() && forall|i: int|
                0 <= i < gs@.len() ==> (#[trigger] gs@[i])@ == numbers(*found)[i],
            Err(m) => !complete(*found) && lacks(*found, m@),
        },
{
    let all = match found {
        Ok(all) => all,
        Err(e) => {
            let mut m = String::from_str("Backward pass failed: ");
            m.append(e.as_str());
            return Err(m);
        },
    };
    let mut gs: Vec<Vec<u32>> = Vec::new();
    for i in 0..all.len()
        invariant
            *found == Ok::<Vec<Gradient>, String>(*all),
            gs@.len() == i,
            forall|j: int| 0 <= j < i ==> #[trigger] all@[j] is Found,
            forall|j: int| 0 <= j < i ==> (#[trigger] gs@[j])@ == all@[j]->Found_0@,
    {
        match &all[i] {
            Gradient::Missing => {
                let mut m = String::from_str("No gradient computed for input tensor ");
                push_decimal(&mut m, i as u64);
                proof {
                    lemma_lacks(*found, i as int, m@);
                }
                return Err(m);
            },
            Gradient::Failed(e) => {
                let mut m = String::from_str("Failed to run analytical gradient: ");
                m.append(e.as_str());
                proof {
                    lemma_lacks(*found, i as int, m@);
                }
                return Err(m);
            },
            Gradient::Found(g) => {
                gs.push(copy_words(g));
            },
        }
    }
    Ok(gs)
}

/// Compares the gradients that a backward pass found with finite differences
/// of a function of the tensors: element by element, until one is too far away
/// or the function fails.
pub fn gradcheck<F: Float, T: ScalarText, E: Fn(&Vec<Tensor>) -> Result<u32, String>>(
    f: &F,
    t: &T,
    eval: &E,
    inputs: &Vec<Tensor>,
    found: &Result<Vec<Gradient>, String>,
    eps: u32,
    tol: u32,
) -> (r: Result<(), String>)
    requires
        plain(inputs@),
        complete(*found) ==> numbers(*found).len() == inputs@.len() && forall|i: int|
            0 <= i < inputs@.len() ==> (#[trigger] numbers(*found)[i]).len() >= numel(
                inputs@[i]@.shape,
            ),
        forall|v: Vec<Tensor>| #[trigger] call_requires(eval, (&v,)),
    ensures
        if complete(*found) {
            compares(*f, *t, *eval, inputs@, numbers(*found), eps, tol, r)
        } else {
            r matches Err(m) && lacks(*found, m@)
        },
{
    let gradients: Vec<Vec<u32>> = match gradients_of(found) {
        Ok(gs) => gs,
        Err(m) => {
            return Err(m);
        },
    };
    let ghost gs = numbers(*found);
    for i in 0..inputs.len()
        invariant
            plain(inputs@),
            gradients@.len() == gs.len() == inputs@.len(),
            forall|a: int| 0 <= a < gs.len() ==> (#[trigger] gradients@[a])@ == gs[a],
            forall|a: int| 0 <= a < gs.len() ==> (#[trigger] gs[a]).len() >= numel(
                inputs@[a]@.shape,
            ),
            forall|v: Vec<Tensor>| #[trigger] call_requires(eval, (&v,)),
            near_before(*f, *t, *eval, inputs@, gs, eps, tol, i as int, 0),
            complete(*found) && gs == numbers(*found),
    {
        proof {
            assert(is_plain(inputs@[i as int]@));
        }
        let n: usize = inputs[i].data().len();
        for j in 0..n
            invariant
                plain(inputs@),
                i < inputs@.len(),
                n == numel(inputs@[i as int]@.shape),
                gradients@.len() == gs.len() == inputs@.len(),
                forall|a: int| 0 <= a < gs.len() ==> (#[trigger] gradients@[a])@ == gs[a],
                forall|a: int| 0 <= a < gs.len() ==> (#[trigger] gs[a]).len() >= numel(
                    inputs@[a]@.shape,
                ),
                forall|v: Vec<Tensor>| #[trigger] call_requires(eval, (&v,)),
                near_before(*f, *t, *eval, inputs@, gs, eps, tol, i as int, j as int),
                complete(*found) && gs == numbers(*found),
        {
            proof {
                assert(gradients@[i as int]@ == gs[i as int]);
            }
            let g: u32 = gradients[i][j];
            match check_element(f, t, eval, inputs, i, j, n, g, eps, tol) {
                Ok(_) => {},
                Err(m) => {
                    return Err(m);
                },
            }
        }
    }
    Ok(())
}

} // verus!
