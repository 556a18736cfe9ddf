//! Single-precision numbers as bit patterns.
//!
//! A tensor element is held as the 32 bits of an IEEE-754 single. What can be
//! said of such a number from its bits alone (sign, order, being zero or one)
//! is computed here. Rounded arithmetic belongs to the host: it is reached
//! through [`Float`], and [`computes`] says which bit patterns an expression
//! may evaluate to on a given host.

use vstd::prelude::*;

verus! {

/// The bits of `0.0`.
pub const ZERO: u32 = 0x0000_0000;

/// The bits of `1.0`.
pub const ONE: u32 = 0x3f80_0000;

/// Negative zero.
pub const NEG_ZERO: u32 = 0x8000_0000;

/// The bits of negative infinity.
pub const NEG_INFINITY: u32 = 0xff80_0000;

/// The bits of the largest finite number.
pub const HIGHEST: u32 = 0x7f7f_ffff;

/// The bits of the smallest finite number.
pub const LOWEST: u32 = 0xff7f_ffff;

/// The weight of the sign bit.
pub const SIGN: u32 = 0x8000_0000;

/// The bits of positive infinity, the largest magnitude of a number.
pub const INFINITY: u32 = 0x7f80_0000;

/// The bits without the sign.
pub open spec fn magnitude(b: u32) -> int {
    if b >= SIGN {
        b - SIGN
    } else {
        b as int
    }
}

/// Not a number: the magnitude is beyond that of infinity.
pub open spec fn is_nan(b: u32) -> bool {
    magnitude(b) > INFINITY
}

/// A key that orders numbers as their values do; both zeros have key 0.
pub open spec fn order_key(b: u32) -> int {
    if b >= SIGN {
        -magnitude(b)
    } else {
        magnitude(b)
    }
}

/// `a > b` on values.
pub open spec fn greater(a: u32, b: u32) -> bool {
    !is_nan(a) && !is_nan(b) && order_key(a) > order_key(b)
}

/// `a >= b` on values.
pub open spec fn at_least(a: u32, b: u32) -> bool {
    !is_nan(a) && !is_nan(b) && order_key(a) >= order_key(b)
}

/// `a == b` on values.
pub open spec fn equal(a: u32, b: u32) -> bool {
    !is_nan(a) && !is_nan(b) && order_key(a) == order_key(b)
}

/// The number with the opposite sign.
pub open spec fn negated(b: u32) -> u32 {
    if b >= SIGN {
        (b - SIGN) as u32
    } else {
        (b + SIGN) as u32
    }
}

/// The larger number, or the one that is a number if the other is not.
pub open spec fn larger(a: u32, b: u32) -> u32 {
    if is_nan(a) {
        b
    } else if is_nan(b) {
        a
    } else if order_key(a) >= order_key(b) {
        a
    } else {
        b
    }
}

/// The smaller number, or the one that is a number if the other is not.
pub open spec fn smaller(a: u32, b: u32) -> u32 {
    if is_nan(a) {
        b
    } else if is_nan(b) {
        a
    } else if order_key(a) <= order_key(b) {
        a
    } else {
        b
    }
}

/// Positive or negative infinity.
pub open spec fn is_infinite(b: u32) -> bool {
    magnitude(b) == INFINITY
}

/// The number if it is positive, else zero.
pub open spec fn rectified(b: u32) -> u32 {
    if greater(b, ZERO) {
        b
    } else {
        ZERO
    }
}

/// One where the number is at least zero, else zero.
pub open spec fn stepped(b: u32) -> u32 {
    if at_least(b, ZERO) {
        ONE
    } else {
        ZERO
    }
}

fn magnitude_of(b: u32) -> (m: u32)
    ensures
        m == magnitude(b),
{
    if b >= SIGN {
        b - SIGN
    } else {
        b
    }
}

/// Whether the bits are not a number.
pub fn nan(b: u32) -> (r: bool)
    ensures
        r == is_nan(b),
{
    magnitude_of(b) > INFINITY
}

fn order_key_of(b: u32) -> (k: i64)
    ensures
        k == order_key(b),
{
    let m: i64 = magnitude_of(b) as i64;
    if b >= SIGN {
        -m
    } else {
        m
    }
}

/// `a > b` on values.
pub fn gt(a: u32, b: u32) -> (r: bool)
    ensures
        r == greater(a, b),
{
    !nan(a) && !nan(b) && order_key_of(a) > order_key_of(b)
}

/// `a >= b` on values.
pub fn ge(a: u32, b: u32) -> (r: bool)
    ensures
        r == at_least(a, b),
{
    !nan(a) && !nan(b) && order_key_of(a) >= order_key_of(b)
}

/// `a == b` on values.
pub fn eq(a: u32, b: u32) -> (r: bool)
    ensures
        r == equal(a, b),
{
    !nan(a) && !nan(b) && order_key_of(a) == order_key_of(b)
}

/// The number with the opposite sign.
pub fn neg(b: u32) -> (r: u32)
    ensures
        r == negated(b),
{
    if b >= SIGN {
        b - SIGN
    } else {
        b + SIGN
    }
}

/// The larger of two numbers.
pub fn max(a: u32, b: u32) -> (r: u32)
    ensures
        r == larger(a, b),
{
    if nan(a) {
        b
    } else if nan(b) {
        a
    } else if order_key_of(a) >= order_key_of(b) {
        a
    } else {
        b
    }
}

/// The smaller of two numbers.
pub fn min(a: u32, b: u32) -> (r: u32)
    ensures
        r == smaller(a, b),
{
    if nan(a) {
        b
    } else if nan(b) {
        a
    } else if order_key_of(a) <= order_key_of(b) {
        a
    } else {
        b
    }
}

/// Whether the number is infinite.
pub fn infinite(b: u32) -> (r: bool)
    ensures
        r == is_infinite(b),
{
    magnitude_of(b) == INFINITY
}

/// The number if it is positive, else zero.
pub fn relu(b: u32) -> (r: u32)
    ensures
        r == rectified(b),
{
    if gt(b, ZERO) {
        b
    } else {
        ZERO
    }
}

/// One where the number is at least zero, else zero.
pub fn step(b: u32) -> (r: u32)
    ensures
        r == stepped(b),
{
    if ge(b, ZERO) {
        ONE
    } else {
        ZERO
    }
}

/// Negating twice gives the number back, bit for bit.
pub proof fn law_negation_involutive(b: u32)
    ensures
        negated(negated(b)) == b,
        order_key(negated(b)) == -order_key(b),
        is_nan(negated(b)) == is_nan(b),
{
}

/// Rectifying twice is rectifying once, and the result is at least zero.
pub proof fn law_rectify_idempotent(b: u32)
    ensures
        rectified(rectified(b)) == rectified(b),
        at_least(rectified(b), ZERO),
{
}

/// The host's rounded arithmetic on bit patterns.
///
/// The methods make no promise: what an operation returns is described only
/// through the calls that were made.
pub trait Float {
    /// `a + b`.
    fn plus(&self, a: u32, b: u32) -> u32;

    /// `a - b`.
    fn minus(&self, a: u32, b: u32) -> u32;

    /// `a * b`.
    fn times(&self, a: u32, b: u32) -> u32;

    /// `a / b`.
    fn over(&self, a: u32, b: u32) -> u32;

    /// The exponential of `a`.
    fn exp(&self, a: u32) -> u32;

    /// The hyperbolic tangent of `a`.
    fn tanh(&self, a: u32) -> u32;

    /// The square root of `a`.
    fn sqrt(&self, a: u32) -> u32;

    /// `a` to the power of two.
    fn square(&self, a: u32) -> u32;

    /// The number nearest to a count.
    fn from_count(&self, n: usize) -> u32;

    /// The number nearest to a whole number.
    fn from_whole(&self, n: i32) -> u32;

    /// The single-precision number nearest to a double-precision one.
    fn from_double(&self, bits: u64) -> u32;

    /// The row-major product of an `m` by `k` and a `k` by `n` matrix.
    fn dot(&self, m: usize, k: usize, n: usize, a: &Vec<u32>, b: &Vec<u32>) -> Vec<u32>;

    /// The half-precision number nearest to `a`.
    fn to_half(&self, a: u32) -> u16;

    /// The single-precision number equal to a half-precision one.
    fn from_half(&self, h: u16) -> u32;

    /// `a` rounded to the precision of a brain float.
    fn round_brain(&self, a: u32) -> u32;

    /// `a * b + c`, rounded once.
    fn mul_add(&self, a: u32, b: u32, c: u32) -> u32;

    /// `a` to the power of `b`.
    fn pow(&self, a: u32, b: u32) -> u32;

    /// The sine of `a`.
    fn sin(&self, a: u32) -> u32;

    /// The cosine of `a`.
    fn cos(&self, a: u32) -> u32;

    /// The product of a row with a matrix that the host keeps in its own,
    /// quantized form.
    fn stored_product(&self, matrix: usize, x: &Vec<u32>) -> Vec<u32>;
}

/// An arithmetic expression over bit patterns.
pub enum Fx {
    /// A number given by its bits.
    Bits(u32),
    /// A half-precision number, widened.
    FromHalf(u16),
    /// A count, converted.
    Count(usize),
    /// A whole number, converted.
    Whole(i32),
    Plus(Box<Fx>, Box<Fx>),
    Minus(Box<Fx>, Box<Fx>),
    Times(Box<Fx>, Box<Fx>),
    Over(Box<Fx>, Box<Fx>),
    Exp(Box<Fx>),
    Tanh(Box<Fx>),
    Sqrt(Box<Fx>),
    Square(Box<Fx>),
    RoundBrain(Box<Fx>),
    /// The first times the second plus the third, rounded once.
    MulAdd(Box<Fx>, Box<Fx>, Box<Fx>),
    Pow(Box<Fx>, Box<Fx>),
    Sin(Box<Fx>),
    Cos(Box<Fx>),
    Neg(Box<Fx>),
    /// The number without its sign.
    Abs(Box<Fx>),
    Relu(Box<Fx>),
    Step(Box<Fx>),
    /// The larger of two numbers.
    Larger(Box<Fx>, Box<Fx>),
    /// The third number where the first two are equal values, else the fourth.
    IfEqual(Box<Fx>, Box<Fx>, Box<Fx>, Box<Fx>),
    /// The third number where the first exceeds the second, else the fourth.
    IfGreater(Box<Fx>, Box<Fx>, Box<Fx>, Box<Fx>),
    /// The third number where the first is at least the second, else the
    /// fourth.
    IfAtLeast(Box<Fx>, Box<Fx>, Box<Fx>, Box<Fx>),
    /// Entry `at` of the product of a row with a stored matrix.
    Stored { matrix: usize, x: Seq<Fx>, at: int },
    /// Entry `at` of the product of an `m` by `k` and a `k` by `n` matrix.
    Dot { m: usize, k: usize, n: usize, a: Seq<Fx>, b: Seq<Fx>, at: int },
}

/// The host `f` may evaluate the expression `e` to the bits `r`.
pub open spec fn computes<F: Float>(f: F, e: Fx, r: u32) -> bool
    decreases e,
{
    match e {
        Fx::Bits(b) => r == b,
        Fx::FromHalf(h) => call_ensures(F::from_half, (&f, h), r),
        Fx::Count(n) => call_ensures(F::from_count, (&f, n), r),
        Fx::Whole(n) => call_ensures(F::from_whole, (&f, n), r),
        Fx::Plus(a, b) => exists|x: u32, y: u32|
            computes(f, *a, x) && computes(f, *b, y) && #[trigger] call_ensures(
                F::plus,
                (&f, x, y),
                r,
            ),
        Fx::Minus(a, b) => exists|x: u32, y: u32|
            computes(f, *a, x) && computes(f, *b, y) && #[trigger] call_ensures(
                F::minus,
                (&f, x, y),
                r,
            ),
        Fx::Times(a, b) => exists|x: u32, y: u32|
            computes(f, *a, x) && computes(f, *b, y) && #[trigger] call_ensures(
                F::times,
                (&f, x, y),
                r,
            ),
        Fx::Over(a, b) => exists|x: u32, y: u32|
            computes(f, *a, x) && computes(f, *b, y) && #[trigger] call_ensures(
                F::over,
                (&f, x, y),
                r,
            ),
        Fx::Exp(a) => exists|x: u32|
            computes(f, *a, x) && #[trigger] call_ensures(F::exp, (&f, x), r),
        Fx::Tanh(a) => exists|x: u32|
            computes(f, *a, x) && #[trigger] call_ensures(F::tanh, (&f, x), r),
        Fx::Sqrt(a) => exists|x: u32|
            computes(f, *a, x) && #[trigger] call_ensures(F::sqrt, (&f, x), r),
        Fx::Square(a) => exists|x: u32|
            computes(f, *a, x) && #[trigger] call_ensures(F::square, (&f, x), r),
        Fx::RoundBrain(a) => exists|x: u32|
            computes(f, *a, x) && #[trigger] call_ensures(F::round_brain, (&f, x), r),
        Fx::MulAdd(a, b, c) => exists|x: u32, y: u32, z: u32|
            computes(f, *a, x) && computes(f, *b, y) && computes(f, *c, z)
                && #[trigger] call_ensures(F::mul_add, (&f, x, y, z), r),
        Fx::Pow(a, b) => exists|x: u32, y: u32|
            computes(f, *a, x) && computes(f, *b, y) && #[trigger] call_ensures(
                F::pow,
                (&f, x, y),
                r,
            ),
        Fx::Sin(a) => exists|x: u32|
            computes(f, *a, x) && #[trigger] call_ensures(F::sin, (&f, x), r),
        Fx::Cos(a) => exists|x: u32|
            computes(f, *a, x) && #[trigger] call_ensures(F::cos, (&f, x), r),
        Fx::Abs(a) => exists|x: u32| computes(f, *a, x) && r == #[trigger] magnitude(x),
        Fx::Neg(a) => exists|x: u32| computes(f, *a, x) && r == #[trigger] negated(x),
        Fx::Relu(a) => exists|x: u32| computes(f, *a, x) && r == #[trigger] rectified(x),
        Fx::Step(a) => exists|x: u32| computes(f, *a, x) && r == #[trigger] stepped(x),
        Fx::Larger(a, b) => exists|x: u32, y: u32|
            computes(f, *a, x) && computes(f, *b, y) && r == #[trigger] larger(x, y),
        Fx::IfEqual(a, b, t, u) => exists|x: u32, y: u32|
            computes(f, *a, x) && computes(f, *b, y) && (if #[trigger] equal(x, y) {
                computes(f, *t, r)
            } else {
                computes(f, *u, r)
            }),
        Fx::IfGreater(a, b, t, u) => exists|x: u32, y: u32|
            computes(f, *a, x) && computes(f, *b, y) && (if #[trigger] greater(x, y) {
                computes(f, *t, r)
            } else {
                computes(f, *u, r)
            }),
        Fx::IfAtLeast(a, b, t, u) => exists|x: u32, y: u32|
            computes(f, *a, x) && computes(f, *b, y) && (if #[trigger] at_least(x, y) {
                computes(f, *t, r)
            } else {
                computes(f, *u, r)
            }),
        Fx::Stored { matrix, x, at } => exists|v: Vec<u32>, out: Vec<u32>|
            {
                &&& v@.len() == x.len()
                &&& (forall|i: int| 0 <= i < x.len() ==> computes(f, x[i], #[trigger] v@[i]))
                &&& #[trigger] call_ensures(F::stored_product, (&f, matrix, &v), out)
                &&& 0 <= at < out@.len()
                &&& out@[at] == r
            },
        Fx::Dot { m, k, n, a, b, at } => exists|x: Vec<u32>, y: Vec<u32>, out: Vec<u32>|
            {
                &&& x@.len() == a.len()
                &&& y@.len() == b.len()
                &&& (forall|i: int| 0 <= i < a.len() ==> computes(f, a[i], #[trigger] x@[i]))
                &&& (forall|i: int| 0 <= i < b.len() ==> computes(f, b[i], #[trigger] y@[i]))
                &&& #[trigger] call_ensures(F::dot, (&f, m, k, n, &x, &y), out)
                &&& 0 <= at < out@.len()
                &&& out@[at] == r
            },
    }
}

pub open spec fn bits(b: u32) -> Fx {
    Fx::Bits(b)
}

pub open spec fn plus(a: Fx, b: Fx) -> Fx {
    Fx::Plus(Box::new(a), Box::new(b))
}

pub open spec fn minus(a: Fx, b: Fx) -> Fx {
    Fx::Minus(Box::new(a), Box::new(b))
}

pub open spec fn times(a: Fx, b: Fx) -> Fx {
    Fx::Times(Box::new(a), Box::new(b))
}

pub open spec fn over(a: Fx, b: Fx) -> Fx {
    Fx::Over(Box::new(a), Box::new(b))
}

pub open spec fn exp_of(a: Fx) -> Fx {
    Fx::Exp(Box::new(a))
}

pub open spec fn tanh_of(a: Fx) -> Fx {
    Fx::Tanh(Box::new(a))
}

pub open spec fn sqrt_of(a: Fx) -> Fx {
    Fx::Sqrt(Box::new(a))
}

pub open spec fn square_of(a: Fx) -> Fx {
    Fx::Square(Box::new(a))
}

pub open spec fn brain_of(a: Fx) -> Fx {
    Fx::RoundBrain(Box::new(a))
}

pub open spec fn mul_add_of(a: Fx, b: Fx, c: Fx) -> Fx {
    Fx::MulAdd(Box::new(a), Box::new(b), Box::new(c))
}

pub open spec fn pow_of(a: Fx, b: Fx) -> Fx {
    Fx::Pow(Box::new(a), Box::new(b))
}

pub open spec fn sin_of(a: Fx) -> Fx {
    Fx::Sin(Box::new(a))
}

pub open spec fn cos_of(a: Fx) -> Fx {
    Fx::Cos(Box::new(a))
}

pub open spec fn abs_of(a: Fx) -> Fx {
    Fx::Abs(Box::new(a))
}

/// `t` where `a` exceeds `b`, else `u`.
pub open spec fn if_greater(a: Fx, b: Fx, t: Fx, u: Fx) -> Fx {
    Fx::IfGreater(Box::new(a), Box::new(b), Box::new(t), Box::new(u))
}

/// `t` where `a` is at least `b`, else `u`.
pub open spec fn if_at_least(a: Fx, b: Fx, t: Fx, u: Fx) -> Fx {
    Fx::IfAtLeast(Box::new(a), Box::new(b), Box::new(t), Box::new(u))
}

pub open spec fn neg_of(a: Fx) -> Fx {
    Fx::Neg(Box::new(a))
}

pub open spec fn relu_of(a: Fx) -> Fx {
    Fx::Relu(Box::new(a))
}

pub open spec fn step_of(a: Fx) -> Fx {
    Fx::Step(Box::new(a))
}

pub open spec fn larger_of(a: Fx, b: Fx) -> Fx {
    Fx::Larger(Box::new(a), Box::new(b))
}

/// The sum of `term(0)`, ..., `term(n - 1)`, added from the left onto zero.
pub open spec fn sum_of(n: nat, term: spec_fn(int) -> Fx) -> Fx
    decreases n,
{
    if n == 0 {
        bits(ZERO)
    } else {
        plus(sum_of((n - 1) as nat, term), term(n - 1))
    }
}

/// The sum of those of `term(0)`, ..., `term(n - 1)` that are `picked`, added
/// from the left onto `start`.
pub open spec fn sum_where(
    n: nat,
    start: Fx,
    picked: spec_fn(int) -> bool,
    term: spec_fn(int) -> Fx,
) -> Fx
    decreases n,
{
    if n == 0 {
        start
    } else if picked(n - 1) {
        plus(sum_where((n - 1) as nat, start, picked, term), term(n - 1))
    } else {
        sum_where((n - 1) as nat, start, picked, term)
    }
}

/// Every expression of a list evaluates to the number at its place.
pub open spec fn computes_all<F: Float>(f: F, es: Seq<Fx>, rs: Seq<u32>) -> bool {
    &&& es.len() == rs.len()
    &&& forall|i: int| 0 <= i < es.len() ==> computes(f, es[i], #[trigger] rs[i])
}

/// The expressions that are the given numbers.
pub open spec fn leaves(data: Seq<u32>) -> Seq<Fx> {
    Seq::new(data.len(), |i: int| bits(data[i]))
}

/// Numbers evaluate to themselves.
pub proof fn lemma_leaves<F: Float>(f: F, data: Seq<u32>)
    ensures
        computes_all(f, leaves(data), data),
{
}

/// `x + y`.
pub(crate) fn do_plus<F: Float>(f: &F, x: u32, y: u32, Ghost(a): Ghost<Fx>, Ghost(b): Ghost<Fx>) -> (r:
    u32)
    requires
        computes(*f, a, x),
        computes(*f, b, y),
    ensures
        computes(*f, plus(a, b), r),
{
    let r: u32 = f.plus(x, y);
    proof {
        assert(call_ensures(F::plus, (f, x, y), r));
    }
    r
}

/// `x - y`.
pub(crate) fn do_minus<F: Float>(f: &F, x: u32, y: u32, Ghost(a): Ghost<Fx>, Ghost(b): Ghost<Fx>) -> (r:
    u32)
    requires
        computes(*f, a, x),
        computes(*f, b, y),
    ensures
        computes(*f, minus(a, b), r),
{
    let r: u32 = f.minus(x, y);
    proof {
        assert(call_ensures(F::minus, (f, x, y), r));
    }
    r
}

/// `x * y`.
pub(crate) fn do_times<F: Float>(f: &F, x: u32, y: u32, Ghost(a): Ghost<Fx>, Ghost(b): Ghost<Fx>) -> (r:
    u32)
    requires
        computes(*f, a, x),
        computes(*f, b, y),
    ensures
        computes(*f, times(a, b), r),
{
    let r: u32 = f.times(x, y);
    proof {
        assert(call_ensures(F::times, (f, x, y), r));
    }
    r
}

/// `x / y`.
pub(crate) fn do_over<F: Float>(f: &F, x: u32, y: u32, Ghost(a): Ghost<Fx>, Ghost(b): Ghost<Fx>) -> (r:
    u32)
    requires
        computes(*f, a, x),
        computes(*f, b, y),
    ensures
        computes(*f, over(a, b), r),
{
    let r: u32 = f.over(x, y);
    proof {
        assert(call_ensures(F::over, (f, x, y), r));
    }
    r
}

/// The exponential of `x`.
pub(crate) fn do_exp<F: Float>(f: &F, x: u32, Ghost(a): Ghost<Fx>) -> (r: u32)
    requires
        computes(*f, a, x),
    ensures
        computes(*f, exp_of(a), r),
{
    let r: u32 = f.exp(x);
    proof {
        assert(call_ensures(F::exp, (f, x), r));
    }
    r
}

/// The hyperbolic tangent of `x`.
pub(crate) fn do_tanh<F: Float>(f: &F, x: u32, Ghost(a): Ghost<Fx>) -> (r: u32)
    requires
        computes(*f, a, x),
    ensures
        computes(*f, tanh_of(a), r),
{
    let r: u32 = f.tanh(x);
    proof {
        assert(call_ensures(F::tanh, (f, x), r));
    }
    r
}

/// The square root of `x`.
pub(crate) fn do_sqrt<F: Float>(f: &F, x: u32, Ghost(a): Ghost<Fx>) -> (r: u32)
    requires
        computes(*f, a, x),
    ensures
        computes(*f, sqrt_of(a), r),
{
    let r: u32 = f.sqrt(x);
    proof {
        assert(call_ensures(F::sqrt, (f, x), r));
    }
    r
}

/// The square of `x`.
pub(crate) fn do_square<F: Float>(f: &F, x: u32, Ghost(a): Ghost<Fx>) -> (r: u32)
    requires
        computes(*f, a, x),
    ensures
        computes(*f, square_of(a), r),
{
    let r: u32 = f.square(x);
    proof {
        assert(call_ensures(F::square, (f, x), r));
    }
    r
}

/// `x` at the precision of a brain float.
pub(crate) fn do_brain<F: Float>(f: &F, x: u32, Ghost(a): Ghost<Fx>) -> (r: u32)
    requires
        computes(*f, a, x),
    ensures
        computes(*f, brain_of(a), r),
{
    let r: u32 = f.round_brain(x);
    proof {
        assert(call_ensures(F::round_brain, (f, x), r));
    }
    r
}

/// `x * y + z`, rounded once.
pub(crate) fn do_mul_add<F: Float>(
    f: &F,
    x: u32,
    y: u32,
    z: u32,
    Ghost(a): Ghost<Fx>,
    Ghost(b): Ghost<Fx>,
    Ghost(c): Ghost<Fx>,
) -> (r: u32)
    requires
        computes(*f, a, x),
        computes(*f, b, y),
        computes(*f, c, z),
    ensures
        computes(*f, mul_add_of(a, b, c), r),
{
    let r: u32 = f.mul_add(x, y, z);
    proof {
        assert(call_ensures(F::mul_add, (f, x, y, z), r));
    }
    r
}

/// `x` to the power of `y`.
pub(crate) fn do_pow<F: Float>(f: &F, x: u32, y: u32, Ghost(a): Ghost<Fx>, Ghost(b): Ghost<Fx>) -> (r:
    u32)
    requires
        computes(*f, a, x),
        computes(*f, b, y),
    ensures
        computes(*f, pow_of(a, b), r),
{
    let r: u32 = f.pow(x, y);
    proof {
        assert(call_ensures(F::pow, (f, x, y), r));
    }
    r
}

/// The sine of `x`.
pub(crate) fn do_sin<F: Float>(f: &F, x: u32, Ghost(a): Ghost<Fx>) -> (r: u32)
    requires
        computes(*f, a, x),
    ensures
        computes(*f, sin_of(a), r),
{
    let r: u32 = f.sin(x);
    proof {
        assert(call_ensures(F::sin, (f, x), r));
    }
    r
}

/// The cosine of `x`.
pub(crate) fn do_cos<F: Float>(f: &F, x: u32, Ghost(a): Ghost<Fx>) -> (r: u32)
    requires
        computes(*f, a, x),
    ensures
        computes(*f, cos_of(a), r),
{
    let r: u32 = f.cos(x);
    proof {
        assert(call_ensures(F::cos, (f, x), r));
    }
    r
}

/// `x` without its sign.
pub(crate) fn do_abs<F: Float>(f: &F, x: u32, Ghost(a): Ghost<Fx>) -> (r: u32)
    requires
        computes(*f, a, x),
    ensures
        computes(*f, abs_of(a), r),
{
    let r: u32 = magnitude_of(x);
    proof {
        assert(r == magnitude(x));
    }
    r
}

/// What follows from a comparison for `>`.
pub proof fn lemma_if_greater<F: Float>(f: F, a: Fx, b: Fx, t: Fx, u: Fx, x: u32, y: u32, r: u32)
    requires
        computes(f, a, x),
        computes(f, b, y),
        greater(x, y) ==> computes(f, t, r),
        !greater(x, y) ==> computes(f, u, r),
    ensures
        computes(f, if_greater(a, b, t, u), r),
{
    assert(greater(x, y) == greater(x, y));
}

/// What follows from a comparison for `>=`.
pub proof fn lemma_if_at_least<F: Float>(f: F, a: Fx, b: Fx, t: Fx, u: Fx, x: u32, y: u32, r: u32)
    requires
        computes(f, a, x),
        computes(f, b, y),
        at_least(x, y) ==> computes(f, t, r),
        !at_least(x, y) ==> computes(f, u, r),
    ensures
        computes(f, if_at_least(a, b, t, u), r),
{
    assert(at_least(x, y) == at_least(x, y));
}

/// A half-precision number, widened.
pub(crate) fn do_from_half<F: Float>(f: &F, h: u16) -> (r: u32)
    ensures
        computes(*f, Fx::FromHalf(h), r),
{
    let r: u32 = f.from_half(h);
    proof {
        assert(call_ensures(F::from_half, (f, h), r));
    }
    r
}

/// A count, converted.
pub(crate) fn do_count<F: Float>(f: &F, n: usize) -> (r: u32)
    ensures
        computes(*f, Fx::Count(n), r),
{
    let r: u32 = f.from_count(n);
    proof {
        assert(call_ensures(F::from_count, (f, n), r));
    }
    r
}

/// A whole number, converted.
pub(crate) fn do_whole<F: Float>(f: &F, n: i32) -> (r: u32)
    ensures
        computes(*f, Fx::Whole(n), r),
{
    let r: u32 = f.from_whole(n);
    proof {
        assert(call_ensures(F::from_whole, (f, n), r));
    }
    r
}

/// `-x`.
pub(crate) fn do_neg<F: Float>(f: &F, x: u32, Ghost(a): Ghost<Fx>) -> (r: u32)
    requires
        computes(*f, a, x),
    ensures
        computes(*f, neg_of(a), r),
{
    let r: u32 = neg(x);
    proof {
        assert(r == negated(x));
    }
    r
}

/// The larger of `x` and `y`.
pub(crate) fn do_larger<F: Float>(f: &F, x: u32, y: u32, Ghost(a): Ghost<Fx>, Ghost(b): Ghost<Fx>) -> (r:
    u32)
    requires
        computes(*f, a, x),
        computes(*f, b, y),
    ensures
        computes(*f, larger_of(a, b), r),
{
    let r: u32 = max(x, y);
    proof {
        assert(r == larger(x, y));
    }
    r
}

/// The host's arithmetic is exact where IEEE-754 arithmetic is: at zero and
/// one.
pub open spec fn exact_at_zero_and_one<F: Float>(f: F) -> bool {
    &&& forall|x: u32, z: u32|
        sum_is_exact(x, z) ==> #[trigger] call_ensures(F::plus, (&f, x, z), x)
    &&& forall|x: u32, z: u32|
        sum_is_exact(x, z) ==> #[trigger] call_ensures(F::plus, (&f, z, x), x)
    &&& forall|x: u32| !is_nan(x) ==> #[trigger] call_ensures(F::times, (&f, x, ONE), x)
    &&& forall|x: u32| !is_nan(x) ==> #[trigger] call_ensures(F::times, (&f, ONE, x), x)
    &&& forall|x: u32| !is_nan(x) ==> #[trigger] call_ensures(F::over, (&f, x, ONE), x)
    &&& forall|x: u32| product_is_zero(x) ==> #[trigger] call_ensures(F::times, (&f, x, ZERO), ZERO)
    &&& forall|x: u32| product_is_zero(x) ==> #[trigger] call_ensures(F::times, (&f, ZERO, x), ZERO)
    &&& forall|x: u32|
        !is_nan(x) && !is_infinite(x) ==> #[trigger] call_ensures(F::minus, (&f, x, x), ZERO)
    &&& forall|z: u32| equal(z, ZERO) ==> #[trigger] call_ensures(F::exp, (&f, z), ONE)
}

/// `x + z` is `x`, bit for bit: `z` is a zero, and they are not `-0.0` and
/// `0.0`.
pub open spec fn sum_is_exact(x: u32, z: u32) -> bool {
    !is_nan(x) && equal(z, ZERO) && !(x == SIGN && z == ZERO)
}

/// `x` times `0.0` is `0.0`, bit for bit: `x` is finite and not negative.
pub open spec fn product_is_zero(x: u32) -> bool {
    x < SIGN && !is_nan(x) && !is_infinite(x)
}

/// The host computes every expression to one number.
pub open spec fn single_valued<F: Float>(f: F) -> bool {
    forall|e: Fx, x: u32, y: u32|
        #[trigger] computes(f, e, x) && #[trigger] computes(f, e, y) ==> x == y
}

} // verus!
