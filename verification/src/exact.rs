//! Expressions over the real numbers, without rounding.

use crate::float::{
    at_least, bits, equal, greater, is_infinite, is_nan, magnitude, sum_where, Fx, NEG_INFINITY, NEG_ZERO, ONE, SIGN, ZERO,
};
use crate::kernels::rows::{max_seq, sum_onto};
use vstd::arithmetic::power2::*;
use vstd::prelude::*;

verus! {

/// What an expression is worth without rounding.
pub enum Value {
    /// Less than every number.
    Low,
    /// A number.
    Num(real),
    /// Nothing that the laws speak of.
    Undefined,
}

/// The functions that a host rounds, without rounding.
pub struct Exact {
    pub exp: spec_fn(real) -> real,
    pub tanh: spec_fn(real) -> real,
    pub sqrt: spec_fn(real) -> real,
    pub sin: spec_fn(real) -> real,
    pub cos: spec_fn(real) -> real,
    pub pow: spec_fn(real, real) -> real,
    pub half: spec_fn(u16) -> real,
    pub stored: spec_fn(usize, Seq<Value>, int) -> real,
}

/// The number that the bits stand for, without its sign.
pub open spec fn size(m: int) -> real {
    let e = m / 0x80_0000;
    let f = m % 0x80_0000;
    if e == 0 {
        f as real / pow2(149) as real
    } else {
        ((0x80_0000 + f) * pow2(e as nat)) as real / pow2(150) as real
    }
}

/// What the bits stand for.
pub open spec fn worth(b: u32) -> Value {
    if b == NEG_INFINITY {
        Value::Low
    } else if is_nan(b) || is_infinite(b) {
        Value::Undefined
    } else if b >= SIGN {
        Value::Num(0real - size(magnitude(b)))
    } else {
        Value::Num(size(magnitude(b)))
    }
}

/// The sum of `f(0)`, ..., `f(n - 1)`.
pub open spec fn rsum(n: nat, f: spec_fn(int) -> real) -> real
    decreases n,
{
    if n == 0 {
        0real
    } else {
        rsum((n - 1) as nat, f) + f(n - 1)
    }
}

pub open spec fn sum_of_two(a: Value, b: Value) -> Value {
    match (a, b) {
        (Value::Num(x), Value::Num(y)) => Value::Num(x + y),
        _ => Value::Undefined,
    }
}

/// A difference; what is less than every number stays so.
pub open spec fn subtract(a: Value, b: Value) -> Value {
    match (a, b) {
        (Value::Num(x), Value::Num(y)) => Value::Num(x - y),
        (Value::Low, Value::Num(_)) => Value::Low,
        _ => Value::Undefined,
    }
}

pub open spec fn multiply(a: Value, b: Value) -> Value {
    match (a, b) {
        (Value::Num(x), Value::Num(y)) => Value::Num(x * y),
        _ => Value::Undefined,
    }
}

pub open spec fn divide(a: Value, b: Value) -> Value {
    match (a, b) {
        (Value::Num(x), Value::Num(y)) => if y == 0real {
            Value::Undefined
        } else {
            Value::Num(x / y)
        },
        _ => Value::Undefined,
    }
}

/// A function of a number.
pub open spec fn mapped(f: spec_fn(real) -> real, a: Value) -> Value {
    match a {
        Value::Num(x) => Value::Num(f(x)),
        _ => Value::Undefined,
    }
}

/// `a` exceeds `b`.
pub open spec fn exceeds(a: Value, b: Value) -> bool {
    match (a, b) {
        (Value::Num(x), Value::Num(y)) => x > y,
        (Value::Num(_), Value::Low) => true,
        _ => false,
    }
}

/// The larger of two.
pub open spec fn upper(a: Value, b: Value) -> Value {
    if a is Undefined || b is Undefined {
        Value::Undefined
    } else if exceeds(b, a) {
        b
    } else {
        a
    }
}

/// The first `t` products of row and column of an entry of a matrix product,
/// summed.
#[verifier::opaque]
pub open spec fn row_by_column(m: Exact, e: Fx, t: nat) -> real
    decreases e, 0nat, t,
{
    match e {
        Fx::Dot { m: _, k, n, a, b, at } => if t == 0 {
            0real
        } else {
            let i = (at / n as int) * k + (t - 1);
            let j = (t - 1) * n + at % n as int;
            row_by_column(m, e, (t - 1) as nat) + (if 0 <= i < a.len() && 0 <= j < b.len() {
                exact(m, a[i])->Num_0 * exact(m, b[j])->Num_0
            } else {
                0real
            })
        },
        _ => 0real,
    }
}

/// What an expression is worth without rounding.
pub open spec fn exact(m: Exact, e: Fx) -> Value
    decreases e, 1nat, 0nat,
{
    match e {
        Fx::Bits(b) => worth(b),
        Fx::FromHalf(h) => Value::Num((m.half)(h)),
        Fx::Count(n) => Value::Num(n as real),
        Fx::Whole(n) => Value::Num(n as real),
        Fx::Plus(a, b) => sum_of_two(exact(m, *a), exact(m, *b)),
        Fx::Minus(a, b) => subtract(exact(m, *a), exact(m, *b)),
        Fx::Times(a, b) => multiply(exact(m, *a), exact(m, *b)),
        Fx::Over(a, b) => divide(exact(m, *a), exact(m, *b)),
        Fx::Exp(a) => match exact(m, *a) {
            Value::Low => Value::Num(0real),
            v => mapped(m.exp, v),
        },
        Fx::Tanh(a) => mapped(m.tanh, exact(m, *a)),
        Fx::Sqrt(a) => mapped(m.sqrt, exact(m, *a)),
        Fx::Square(a) => multiply(exact(m, *a), exact(m, *a)),
        Fx::RoundBrain(a) => exact(m, *a),
        Fx::MulAdd(a, b, c) => sum_of_two(multiply(exact(m, *a), exact(m, *b)), exact(m, *c)),
        Fx::Pow(a, b) => match (exact(m, *a), exact(m, *b)) {
            (Value::Num(x), Value::Num(y)) => Value::Num((m.pow)(x, y)),
            _ => Value::Undefined,
        },
        Fx::Sin(a) => mapped(m.sin, exact(m, *a)),
        Fx::Cos(a) => mapped(m.cos, exact(m, *a)),
        Fx::Neg(a) => subtract(Value::Num(0real), exact(m, *a)),
        Fx::Abs(a) => match exact(m, *a) {
            Value::Num(x) => Value::Num(if x < 0real { 0real - x } else { x }),
            _ => Value::Undefined,
        },
        Fx::Relu(a) => upper(Value::Num(0real), exact(m, *a)),
        Fx::Step(a) => match exact(m, *a) {
            Value::Num(x) => Value::Num(if x < 0real { 0real } else { 1real }),
            _ => Value::Undefined,
        },
        Fx::Larger(a, b) => upper(exact(m, *a), exact(m, *b)),
        Fx::IfEqual(a, b, t, u) => if exact(m, *a) == exact(m, *b) {
            exact(m, *t)
        } else {
            exact(m, *u)
        },
        Fx::IfGreater(a, b, t, u) => if exceeds(exact(m, *a), exact(m, *b)) {
            exact(m, *t)
        } else {
            exact(m, *u)
        },
        Fx::IfAtLeast(a, b, t, u) => if exceeds(exact(m, *b), exact(m, *a)) {
            exact(m, *u)
        } else {
            exact(m, *t)
        },
        Fx::Stored { matrix, x, at } => Value::Num(
            (m.stored)(
                matrix,
                Seq::new(
                    x.len(),
                    |i: int|
                        if 0 <= i < x.len() {
                            exact(m, x[i])
                        } else {
                            Value::Undefined
                        },
                ),
                at,
            ),
        ),
        Fx::Dot { m: _, k, n: _, a: _, b: _, at: _ } => Value::Num(row_by_column(m, e, k as nat)),
    }
}

/// The expression is worth a number.
pub open spec fn is_number(m: Exact, e: Fx) -> bool {
    exact(m, e) is Num
}

/// The number that an expression is worth.
pub open spec fn number(m: Exact, e: Fx) -> real {
    exact(m, e)->Num_0
}

/// The bits stand for a number that is neither infinite nor missing.
pub open spec fn is_finite(b: u32) -> bool {
    !is_nan(b) && !is_infinite(b)
}

/// All bits of a list stand for numbers.
pub open spec fn all_finite(data: Seq<u32>) -> bool {
    forall|i: int| 0 <= i < data.len() ==> is_finite(#[trigger] data[i])
}

/// The number that the bits stand for.
pub open spec fn real_of(b: u32) -> real {
    worth(b)->Num_0
}

/// All expressions of a list are worth numbers.
pub open spec fn all_numbers(m: Exact, es: Seq<Fx>) -> bool {
    forall|i: int| 0 <= i < es.len() ==> is_number(m, #[trigger] es[i])
}

/// Exponentials are positive and turn sums into products.
pub open spec fn exponential(m: Exact) -> bool {
    &&& forall|a: real| #[trigger] (m.exp)(a) > 0real
    &&& forall|a: real, b: real| #[trigger] (m.exp)(a + b) == (m.exp)(a) * (m.exp)(b)
}

/// Roots of positive numbers are positive, and square to them.
pub open spec fn rooted(m: Exact) -> bool {
    forall|a: real|
        a > 0real ==> #[trigger] (m.sqrt)(a) > 0real && (m.sqrt)(a) * (m.sqrt)(a) == a
}

/// The exponential of a difference, times that of what was taken off.
pub proof fn lemma_exp_minus(m: Exact, a: real, b: real)
    requires
        exponential(m),
    ensures
        (m.exp)(a - b) * (m.exp)(b) == (m.exp)(a),
        (m.exp)(a) > 0real,
        (m.exp)(a - b) > 0real,
{
    let c = a - b;
    assert((m.exp)(c + b) == (m.exp)(c) * (m.exp)(b));
    assert(c + b == a);
}

/// The exponential of zero is one.
pub proof fn lemma_exp_zero(m: Exact)
    requires
        exponential(m),
    ensures
        (m.exp)(0real) == 1real,
{
    let x = (m.exp)(0real);
    assert((m.exp)(0real + 0real) == x * x);
    assert(x == 1real) by (nonlinear_arith)
        requires
            x == x * x,
            x > 0real,
    ;
}

/// The numbers that some bit patterns stand for.
pub proof fn lemma_constants()
    ensures
        worth(ZERO) == Value::Num(0real),
        worth(NEG_ZERO) == Value::Num(0real),
        worth(ONE) == Value::Num(1real),
        worth(0x4000_0000) == Value::Num(2real),
        worth(NEG_INFINITY) == Value::Low,
{
    let p = pow2(149) as real;
    lemma_pow2_pos(149);
    lemma_pow2_pos(150);
    assert(0real / p == 0real) by (nonlinear_arith)
        requires
            p > 0real,
    ;
    assert(pow2(23) == 0x80_0000) by {
        lemma2_to64();
    }
    lemma_pow2_adds(23, 127);
    lemma_pow2_adds(23, 128);
    lemma_pow2_adds(1, 150);
    lemma2_to64();
    let q = pow2(150) as real;
    assert(q / q == 1real) by (nonlinear_arith)
        requires
            q > 0real,
    ;
    assert((0x80_0000 * pow2(127)) as real == q);
    assert((0x80_0000 * pow2(128)) as real == q + q);
    assert((q + q) / q == 2real) by (nonlinear_arith)
        requires
            q > 0real,
    ;
}

/// Sums of the same terms are the same.
pub proof fn lemma_rsum_same(n: nat, f: spec_fn(int) -> real, g: spec_fn(int) -> real)
    requires
        forall|i: int| 0 <= i < n ==> #[trigger] f(i) == g(i),
    ensures
        rsum(n, f) == rsum(n, g),
    decreases n,
{
    if n > 0 {
        lemma_rsum_same((n - 1) as nat, f, g);
        assert(f(n - 1) == g(n - 1));
    }
}

/// The sum of sums, term by term.
pub proof fn lemma_rsum_plus(n: nat, f: spec_fn(int) -> real, g: spec_fn(int) -> real)
    ensures
        rsum(n, |i: int| f(i) + g(i)) == rsum(n, f) + rsum(n, g),
    decreases n,
{
    if n > 0 {
        lemma_rsum_plus((n - 1) as nat, f, g);
    }
}

/// A common factor stands before the sum.
pub proof fn lemma_rsum_scale(n: nat, c: real, f: spec_fn(int) -> real)
    ensures
        rsum(n, |i: int| c * f(i)) == c * rsum(n, f),
    decreases n,
{
    if n > 0 {
        lemma_rsum_scale((n - 1) as nat, c, f);
        let a = rsum((n - 1) as nat, f);
        let b = f(n - 1);
        assert(c * (a + b) == c * a + c * b) by (nonlinear_arith);
    } else {
        assert(c * 0real == 0real) by (nonlinear_arith);
    }
}

/// The sum of a combination is the combination of the sums.
pub proof fn lemma_rsum_linear(
    n: nat,
    t: spec_fn(int) -> real,
    a: real,
    f: spec_fn(int) -> real,
    b: real,
    g: spec_fn(int) -> real,
    c: real,
    h: spec_fn(int) -> real,
)
    requires
        forall|i: int| 0 <= i < n ==> #[trigger] t(i) == a * f(i) + b * g(i) + c * h(i),
    ensures
        rsum(n, t) == a * rsum(n, f) + b * rsum(n, g) + c * rsum(n, h),
    decreases n,
{
    if n > 0 {
        let k = (n - 1) as nat;
        lemma_rsum_linear(k, t, a, f, b, g, c, h);
        assert(t(n - 1) == a * f(n - 1) + b * g(n - 1) + c * h(n - 1));
        let (f0, g0, h0) = (rsum(k, f), rsum(k, g), rsum(k, h));
        let (f1, g1, h1) = (f(n - 1), g(n - 1), h(n - 1));
        assert(a * (f0 + f1) == a * f0 + a * f1) by (nonlinear_arith);
        assert(b * (g0 + g1) == b * g0 + b * g1) by (nonlinear_arith);
        assert(c * (h0 + h1) == c * h0 + c * h1) by (nonlinear_arith);
    } else {
        assert(a * 0real + b * 0real + c * 0real == 0real) by (nonlinear_arith);
    }
}

/// The sum of numbers that are not negative.
pub proof fn lemma_rsum_least(n: nat, f: spec_fn(int) -> real)
    requires
        forall|i: int| 0 <= i < n ==> #[trigger] f(i) >= 0real,
    ensures
        rsum(n, f) >= 0real,
    decreases n,
{
    if n > 0 {
        lemma_rsum_least((n - 1) as nat, f);
        assert(f(n - 1) >= 0real);
    }
}

/// The sum of zeros.
pub proof fn lemma_rsum_zero(n: nat, f: spec_fn(int) -> real)
    requires
        forall|i: int| 0 <= i < n ==> #[trigger] f(i) == 0real,
    ensures
        rsum(n, f) == 0real,
    decreases n,
{
    if n > 0 {
        lemma_rsum_zero((n - 1) as nat, f);
        assert(f(n - 1) == 0real);
    }
}

/// A sum with one term that is not zero.
pub proof fn lemma_rsum_single(n: nat, f: spec_fn(int) -> real, j: int)
    requires
        0 <= j < n,
        forall|i: int| 0 <= i < n && i != j ==> #[trigger] f(i) == 0real,
    ensures
        rsum(n, f) == f(j),
    decreases n,
{
    if j == n - 1 {
        lemma_rsum_zero((n - 1) as nat, f);
    } else {
        lemma_rsum_single((n - 1) as nat, f, j);
        assert(f(n - 1) == 0real);
    }
}

/// The sum of positive numbers is positive.
pub proof fn lemma_rsum_positive(n: nat, f: spec_fn(int) -> real)
    requires
        forall|i: int| 0 <= i < n ==> #[trigger] f(i) > 0real,
    ensures
        n > 0 ==> rsum(n, f) > 0real,
        rsum(n, f) >= 0real,
    decreases n,
{
    if n > 0 {
        lemma_rsum_positive((n - 1) as nat, f);
        assert(f(n - 1) > 0real);
    }
}

/// A sum in two parts.
pub proof fn lemma_rsum_split(n: nat, k: nat, f: spec_fn(int) -> real)
    ensures
        rsum(n + k, f) == rsum(n, f) + rsum(k, |i: int| f(n + i)),
    decreases k,
{
    if k > 0 {
        lemma_rsum_split(n, (k - 1) as nat, f);
        assert((n + k - 1) as nat == n + (k - 1) as nat);
    }
}

/// A sum over rows and columns, row by row.
pub proof fn lemma_rsum_rows(n: nat, k: nat, f: spec_fn(int) -> real)
    ensures
        rsum(n * k, f) == rsum(n, |i: int| rsum(k, |j: int| f(i * k + j))),
    decreases n,
{
    let g = |i: int| rsum(k, |j: int| f(i * k + j));
    if n > 0 {
        let l = (n - 1) as nat;
        lemma_rsum_rows(l, k, f);
        assert(n * k == l * k + k) by (nonlinear_arith)
            requires
                n == l + 1,
        ;
        lemma_rsum_split(l * k, k, f);
        lemma_rsum_same(k, |i: int| f((l * k) as int + i), |j: int| f((n - 1) * k + j));
    } else {
        assert(0 * k == 0) by (nonlinear_arith);
    }
}

/// The order of two sums does not matter.
pub proof fn lemma_rsum_swap(n: nat, k: nat, f: spec_fn(int, int) -> real)
    ensures
        rsum(n, |i: int| rsum(k, |j: int| f(i, j))) == rsum(k, |j: int| rsum(n, |i: int| f(i, j))),
    decreases n,
{
    if n > 0 {
        let l = (n - 1) as nat;
        lemma_rsum_swap(l, k, f);
        let a = |j: int| rsum(l, |i: int| f(i, j));
        let b = |j: int| f(n - 1, j);
        lemma_rsum_plus(k, a, b);
        lemma_rsum_same(k, |j: int| a(j) + b(j), |j: int| rsum(n, |i: int| f(i, j)));
        let g = |i: int| rsum(k, |j: int| f(i, j));
        lemma_rsum_same(l, g, |i: int| rsum(k, |j: int| f(i, j)));
        assert(rsum(n, g) == rsum(l, g) + g(n - 1));
        lemma_rsum_same(k, b, |j: int| f(n - 1, j));
    } else {
        lemma_rsum_zero(k, |j: int| rsum(0, |i: int| f(i, j)));
    }
}

/// Bits that stand for numbers are worth them.
pub proof fn lemma_finite(m: Exact, b: u32)
    requires
        is_finite(b),
    ensures
        is_number(m, bits(b)),
        number(m, bits(b)) == real_of(b),
        worth(b) == Value::Num(real_of(b)),
{
}

/// What a sum is worth.
pub proof fn lemma_sum_onto(m: Exact, start: u32, es: Seq<Fx>)
    requires
        start == ZERO || start == NEG_ZERO,
        all_numbers(m, es),
    ensures
        exact(m, sum_onto(start, es)) == Value::Num(rsum(es.len(), |i: int| number(m, es[i]))),
    decreases es.len(),
{
    lemma_constants();
    if es.len() > 0 {
        let short = es.drop_last();
        assert(all_numbers(m, short)) by {
            assert forall|i: int| 0 <= i < short.len() implies is_number(m, #[trigger] short[i]) by {
                assert(short[i] == es[i]);
            }
        }
        lemma_sum_onto(m, start, short);
        lemma_rsum_same(short.len(), |i: int| number(m, short[i]), |i: int| number(m, es[i]));
        assert(is_number(m, es[es.len() - 1]));
    }
}

/// What a sum of picked terms is worth.
pub proof fn lemma_sum_where(
    m: Exact,
    n: nat,
    picked: spec_fn(int) -> bool,
    term: spec_fn(int) -> Fx,
)
    requires
        forall|i: int| 0 <= i < n && #[trigger] picked(i) ==> is_number(m, term(i)),
    ensures
        exact(m, sum_where(n, bits(ZERO), picked, term)) == Value::Num(
            rsum(
                n,
                |i: int|
                    if picked(i) {
                        number(m, term(i))
                    } else {
                        0real
                    },
            ),
        ),
    decreases n,
{
    lemma_constants();
    if n > 0 {
        lemma_sum_where(m, (n - 1) as nat, picked, term);
        assert(picked(n - 1) ==> is_number(m, term(n - 1)));
    }
}

/// What the largest of a list is worth: at least every element, and one of
/// them.
pub proof fn lemma_max(m: Exact, es: Seq<Fx>)
    requires
        es.len() > 0,
        all_numbers(m, es),
    ensures
        is_number(m, max_seq(es)),
        forall|i: int| 0 <= i < es.len() ==> number(m, #[trigger] es[i]) <= number(m, max_seq(es)),
        exists|i: int| 0 <= i < es.len() && number(m, #[trigger] es[i]) == number(m, max_seq(es)),
    decreases es.len(),
{
    lemma_constants();
    let short = es.drop_last();
    let last = es.len() - 1;
    assert(is_number(m, es[last]));
    if short.len() > 0 {
        assert forall|i: int| 0 <= i < short.len() implies is_number(m, #[trigger] short[i]) by {
            assert(short[i] == es[i]);
        }
        lemma_max(m, short);
        assert forall|i: int| 0 <= i < es.len() implies number(m, #[trigger] es[i]) <= number(
            m,
            max_seq(es),
        ) by {
            if i < last {
                assert(short[i] == es[i]);
            }
        }
        let j = choose|i: int|
            0 <= i < short.len() && number(m, #[trigger] short[i]) == number(m, max_seq(short));
        assert(es[j] == short[j]);
        if number(m, es[last]) == number(m, max_seq(es)) {
        } else {
            assert(number(m, es[j]) == number(m, max_seq(es)));
        }
    } else {
        assert(max_seq(short) == bits(NEG_INFINITY));
        assert(number(m, es[last]) == number(m, max_seq(es)));
    }
}

/// The size of a number as a multiple of the same small number.
pub open spec fn units(m: int) -> int {
    if m / 0x80_0000 == 0 {
        2 * (m % 0x80_0000)
    } else {
        (0x80_0000 + m % 0x80_0000) * pow2((m / 0x80_0000) as nat)
    }
}

/// Sizes are multiples of the same small number.
pub proof fn lemma_units(m: int)
    requires
        0 <= m,
    ensures
        size(m) == units(m) as real / pow2(150) as real,
        pow2(150) > 0,
        units(m) >= 0,
        m > 0 ==> units(m) > 0,
{
    lemma_pow2_pos(149);
    lemma_pow2_pos(150);
    lemma_pow2_adds(1, 149);
    lemma2_to64();
    let e = m / 0x80_0000;
    let f = m % 0x80_0000;
    lemma_pow2_pos(e as nat);
    if e == 0 {
        let x = f as real;
        let p = pow2(149) as real;
        assert((2 * f) as real == 2real * x);
        assert(pow2(150) as real == 2real * p);
        assert(x / p == (2real * x) / (2real * p)) by (nonlinear_arith)
            requires
                p > 0real,
        ;
    } else {
        let k = pow2(e as nat);
        assert((0x80_0000 + f) * k > 0) by (nonlinear_arith)
            requires
                f >= 0,
                k > 0,
        ;
    }
}

/// Larger magnitudes are larger numbers.
pub proof fn lemma_size_order(a: int, b: int)
    requires
        0 <= a < b,
    ensures
        size(a) < size(b),
        size(a) >= 0real,
{
    lemma_units(a);
    lemma_units(b);
    let (e1, f1) = (a / 0x80_0000, a % 0x80_0000);
    let (e2, f2) = (b / 0x80_0000, b % 0x80_0000);
    lemma_pow2_pos(e1 as nat);
    lemma_pow2_pos(e2 as nat);
    let k1 = pow2(e1 as nat) as int;
    let k2 = pow2(e2 as nat) as int;
    assert(e1 <= e2);
    assert(units(a) < units(b)) by {
        if e1 == e2 {
            assert(f1 < f2);
            assert((0x80_0000 + f1) * k1 < (0x80_0000 + f2) * k1) by (nonlinear_arith)
                requires
                    f1 < f2,
                    k1 > 0,
            ;
        } else {
            lemma_pow2_adds((e2 - e1) as nat, e1 as nat);
            lemma_pow2_adds((e2 - e1 - 1) as nat, 1);
            lemma_pow2_pos((e2 - e1 - 1) as nat);
            lemma2_to64();
            let d = pow2((e2 - e1) as nat) as int;
            assert(d >= 2);
            assert(k2 >= 2 * k1) by (nonlinear_arith)
                requires
                    k2 == d * k1,
                    d >= 2,
                    k1 > 0,
            ;
            assert((0x80_0000 + f2) * k2 >= 0x80_0000 * k2) by (nonlinear_arith)
                requires
                    f2 >= 0,
                    k2 > 0,
            ;
            assert((0x80_0000 + f1) * k1 < 0x100_0000 * k1) by (nonlinear_arith)
                requires
                    f1 < 0x80_0000,
                    k1 > 0,
            ;
            if e1 == 0 {
                assert(k1 == 1);
            }
        }
    }
    let (x, y, p) = (units(a) as real, units(b) as real, pow2(150) as real);
    assert(x / p < y / p && x / p >= 0real) by (nonlinear_arith)
        requires
            0real <= x < y,
            p > 0real,
    ;
}

/// The order of the bits is the order of the numbers.
pub proof fn lemma_order(a: u32, b: u32)
    requires
        is_finite(a),
        is_finite(b),
    ensures
        greater(a, b) <==> real_of(a) > real_of(b),
        at_least(a, b) <==> real_of(a) >= real_of(b),
        equal(a, b) <==> real_of(a) == real_of(b),
{
    lemma_constants();
    let (x, y) = (magnitude(a), magnitude(b));
    if x < y {
        lemma_size_order(x, y);
    } else if y < x {
        lemma_size_order(y, x);
    }
    if x > 0 {
        lemma_size_order(0, x);
    }
    if y > 0 {
        lemma_size_order(0, y);
    }
}

/// The bits without the sign stand for the number without its sign.
pub proof fn lemma_magnitude(a: u32)
    requires
        is_finite(a),
    ensures
        is_finite(magnitude(a) as u32),
        real_of(magnitude(a) as u32) == (if real_of(a) < 0real {
            0real - real_of(a)
        } else {
            real_of(a)
        }),
{
    lemma_constants();
    let x = magnitude(a);
    if x > 0 {
        lemma_size_order(0, x);
    }
}

/// Terms that are added up where they go to, each total times what stands
/// there, are the terms times what stands where they go to.
pub proof fn lemma_scatter(
    n: nat,
    places: nat,
    goes: spec_fn(int) -> bool,
    to: spec_fn(int) -> int,
    a: spec_fn(int) -> real,
    v: spec_fn(int) -> real,
)
    requires
        forall|u: int| 0 <= u < n && #[trigger] goes(u) ==> 0 <= to(u) < places,
    ensures
        rsum(
            places,
            |j: int|
                rsum(
                    n,
                    |u: int|
                        if goes(u) && to(u) == j {
                            a(u)
                        } else {
                            0real
                        },
                ) * v(j),
        ) == rsum(
            n,
            |u: int|
                if goes(u) {
                    a(u) * v(to(u))
                } else {
                    0real
                },
        ),
    decreases n,
{
    let t = |j: int|
        rsum(
            n,
            |u: int|
                if goes(u) && to(u) == j {
                    a(u)
                } else {
                    0real
                },
        ) * v(j);
    if n > 0 {
        let k = (n - 1) as nat;
        lemma_scatter(k, places, goes, to, a, v);
        let before = |j: int|
            rsum(
                k,
                |u: int|
                    if goes(u) && to(u) == j {
                        a(u)
                    } else {
                        0real
                    },
            ) * v(j);
        let last = |j: int|
            if goes(n - 1) && to(n - 1) == j {
                a(n - 1) * v(j)
            } else {
                0real
            };
        assert forall|j: int| 0 <= j < places implies #[trigger] t(j) == before(j) + last(j) by {
            let f = |u: int|
                if goes(u) && to(u) == j {
                    a(u)
                } else {
                    0real
                };
            let (x, y, z) = (rsum(k, f), f(n - 1), v(j));
            assert((x + y) * z == x * z + y * z) by (nonlinear_arith);
            assert(0real * z == 0real) by (nonlinear_arith);
            assert(rsum(n, f) == x + y);
        }
        lemma_rsum_same(places, t, |j: int| before(j) + last(j));
        lemma_rsum_plus(places, before, last);
        if goes(n - 1) {
            lemma_rsum_single(places, last, to(n - 1));
        } else {
            lemma_rsum_zero(places, last);
        }
    } else {
        assert forall|j: int| 0 <= j < places implies #[trigger] t(j) == 0real by {
            let z = v(j);
            assert(0real * z == 0real) by (nonlinear_arith);
        }
        lemma_rsum_zero(places, t);
    }
}

/// A sum over planes, rows and columns.
pub proof fn lemma_rsum_planes(
    a: nat,
    b: nat,
    c: nat,
    f: spec_fn(int) -> real,
    g: spec_fn(int, int, int) -> real,
)
    requires
        forall|i: int, j: int, k: int|
            0 <= i < a && 0 <= j < b && 0 <= k < c ==> f(i * (b * c) + (j * c + k))
                == #[trigger] g(i, j, k),
    ensures
        rsum(a * (b * c), f) == rsum(
            a,
            |i: int| rsum(b, |j: int| rsum(c, |k: int| g(i, j, k))),
        ),
{
    let bc = b * c;
    lemma_rsum_rows(a, bc, f);
    let l = |i: int| rsum(bc, |j: int| f(i * bc + j));
    let r = |i: int| rsum(b, |j: int| rsum(c, |k: int| g(i, j, k)));
    assert forall|i: int| 0 <= i < a implies #[trigger] l(i) == r(i) by {
        let fi = |j: int| f(i * bc + j);
        lemma_rsum_rows(b, c, fi);
        let lj = |j: int| rsum(c, |k: int| fi(j * c + k));
        let rj = |j: int| rsum(c, |k: int| g(i, j, k));
        assert forall|j: int| 0 <= j < b implies #[trigger] lj(j) == rj(j) by {
            let u = |k: int| fi(j * c + k);
            let v = |k: int| g(i, j, k);
            assert forall|k: int| 0 <= k < c implies #[trigger] u(k) == v(k) by {
                assert(f(i * (b * c) + (j * c + k)) == g(i, j, k));
            }
            lemma_rsum_same(c, u, v);
        }
        lemma_rsum_same(b, lj, rj);
    }
    lemma_rsum_same(a, l, r);
}

} // verus!
