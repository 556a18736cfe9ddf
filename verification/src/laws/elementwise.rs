//! What is done to numbers one by one.

use crate::exact::{
    all_finite, exact, exponential, is_finite, is_number, lemma_finite, number, real_of, rooted,
    Exact, Value,
};
use crate::float::bits;
use crate::kernels::elementwise::{
    binary_of, binary_outcome, unary_of, unary_outcome, Binary, Unary,
};
use crate::laws::steps::{lemma_divided, lemma_logistic};
use crate::llama::steps::logistic;
use crate::sym::Outcome;
use crate::tensor::TensorView;
use vstd::prelude::*;

verus! {

/// What an element of a binary operation is worth.
proof fn lemma_binary(m: Exact, k: Binary, x: TensorView, y: TensorView, i: int)
    requires
        binary_outcome(k, x, y) is Yields,
        all_finite(x.singles()) && all_finite(y.singles()),
        0 <= i < x.singles().len(),
    ensures
        binary_outcome(k, x, y) matches Outcome::Yields(s, _) && s.shape == x.shape
            && s.data.len() == x.singles().len() && s.data[i] == binary_of(
            k,
            bits(x.singles()[i]),
            bits(y.singles()[i]),
        ),
        exact(m, bits(x.singles()[i])) == Value::Num(real_of(x.singles()[i])),
        exact(m, bits(y.singles()[i])) == Value::Num(real_of(y.singles()[i])),
{
    assert(is_finite(x.singles()[i]) && is_finite(y.singles()[i]));
    lemma_finite(m, x.singles()[i]);
    lemma_finite(m, y.singles()[i]);
}

/// A difference undoes a sum: over the real numbers, what is taken off is what
/// is missing, and a sum less its right operand is its left one.
pub proof fn law_difference_undoes_sum(m: Exact, x: TensorView, y: TensorView, i: int)
    requires
        binary_outcome(Binary::Add, x, y) is Yields,
        binary_outcome(Binary::Sub, x, y) is Yields,
        all_finite(x.singles()) && all_finite(y.singles()),
        0 <= i < x.singles().len(),
    ensures
        binary_outcome(Binary::Add, x, y) matches Outcome::Yields(s, _) && is_number(m, s.data[i])
            && number(m, s.data[i]) - real_of(y.singles()[i]) == real_of(x.singles()[i]),
        binary_outcome(Binary::Sub, x, y) matches Outcome::Yields(s, _) && is_number(m, s.data[i])
            && number(m, s.data[i]) + real_of(y.singles()[i]) == real_of(x.singles()[i]),
{
    lemma_binary(m, Binary::Add, x, y, i);
    lemma_binary(m, Binary::Sub, x, y, i);
    reveal_with_fuel(exact, 2);
}

/// A quotient undoes a product: over the real numbers, a quotient times the
/// divisor is the dividend, and a product is as many times its right operand
/// as its left one says.
pub proof fn law_quotient_undoes_product(m: Exact, x: TensorView, y: TensorView, i: int)
    requires
        binary_outcome(Binary::Mul, x, y) is Yields,
        binary_outcome(Binary::Div, x, y) is Yields,
        all_finite(x.singles()) && all_finite(y.singles()),
        0 <= i < x.singles().len(),
        real_of(y.singles()[i]) > 0real,
    ensures
        binary_outcome(Binary::Mul, x, y) matches Outcome::Yields(s, _) && is_number(m, s.data[i])
            && number(m, s.data[i]) / real_of(y.singles()[i]) == real_of(x.singles()[i]),
        binary_outcome(Binary::Div, x, y) matches Outcome::Yields(s, _) && is_number(m, s.data[i])
            && number(m, s.data[i]) * real_of(y.singles()[i]) == real_of(x.singles()[i]),
{
    lemma_binary(m, Binary::Mul, x, y, i);
    lemma_binary(m, Binary::Div, x, y, i);
    reveal_with_fuel(exact, 2);
    let (a, b) = (real_of(x.singles()[i]), real_of(y.singles()[i]));
    lemma_divided(a, b);
    crate::laws::steps::lemma_quotient(a, a * b, b);
}

/// What an element of a unary operation is worth.
proof fn lemma_unary(m: Exact, k: Unary, x: TensorView, i: int)
    requires
        unary_outcome(k, x) is Yields,
        all_finite(x.singles()),
        0 <= i < x.singles().len(),
    ensures
        unary_outcome(k, x) matches Outcome::Yields(s, _) && s.shape == x.shape && s.data.len()
            == x.singles().len() && s.data[i] == unary_of(k, bits(x.singles()[i])),
        exact(m, bits(x.singles()[i])) == Value::Num(real_of(x.singles()[i])),
{
    assert(is_finite(x.singles()[i]));
    lemma_finite(m, x.singles()[i]);
}

/// A negative and its number cancel.
pub proof fn law_negative_cancels(m: Exact, x: TensorView, i: int)
    requires
        unary_outcome(Unary::Neg, x) is Yields,
        all_finite(x.singles()),
        0 <= i < x.singles().len(),
    ensures
        unary_outcome(Unary::Neg, x) matches Outcome::Yields(s, _) && is_number(m, s.data[i])
            && number(m, s.data[i]) + real_of(x.singles()[i]) == 0real,
{
    lemma_unary(m, Unary::Neg, x, i);
    reveal_with_fuel(exact, 2);
}

/// A rectified number is never negative, never less than the number, and zero
/// or the number itself; the step says which: a number is its rectified value
/// where the step is one.
pub proof fn law_rectified_keeps_positive(m: Exact, x: TensorView, i: int)
    requires
        unary_outcome(Unary::Relu, x) is Yields,
        unary_outcome(Unary::Step, x) is Yields,
        all_finite(x.singles()),
        0 <= i < x.singles().len(),
    ensures
        unary_outcome(Unary::Relu, x) matches Outcome::Yields(s, _) && is_number(m, s.data[i])
            && ({
            let (r, a) = (number(m, s.data[i]), real_of(x.singles()[i]));
            &&& r >= 0real && r >= a
            &&& r == 0real || r == a
        }),
        unary_outcome(Unary::Step, x) matches Outcome::Yields(s, _) && is_number(m, s.data[i])
            && ({
            let (t, a) = (number(m, s.data[i]), real_of(x.singles()[i]));
            &&& t == 1real <==> a >= 0real
            &&& t == 0real <==> a < 0real
        }),
{
    lemma_unary(m, Unary::Relu, x, i);
    lemma_unary(m, Unary::Step, x, i);
    reveal_with_fuel(exact, 2);
}

/// A sigmoid is a share: over the real numbers, times one more than the
/// exponential of the number it is that exponential.
pub proof fn law_sigmoid_shares(m: Exact, x: TensorView, i: int)
    requires
        exponential(m),
        unary_outcome(Unary::Sigmoid, x) is Yields,
        all_finite(x.singles()),
        0 <= i < x.singles().len(),
    ensures
        unary_outcome(Unary::Sigmoid, x) matches Outcome::Yields(s, _) && is_number(m, s.data[i])
            && ({
            let (r, a) = (number(m, s.data[i]), real_of(x.singles()[i]));
            r * ((m.exp)(a) + 1real) == (m.exp)(a)
        }),
{
    lemma_unary(m, Unary::Sigmoid, x, i);
    let e = bits(x.singles()[i]);
    assert(unary_of(Unary::Sigmoid, e) == logistic(e));
    lemma_logistic(m, e);
    let b = (m.exp)(real_of(x.singles()[i]));
    lemma_divided(b, b + 1real);
}

/// Roots square to their numbers, and exponentials and tangents are those of
/// the numbers.
pub proof fn law_functions_apply(m: Exact, x: TensorView, i: int)
    requires
        rooted(m),
        unary_outcome(Unary::Sqrt, x) is Yields,
        unary_outcome(Unary::Exp, x) is Yields,
        unary_outcome(Unary::Tanh, x) is Yields,
        all_finite(x.singles()),
        0 <= i < x.singles().len(),
    ensures
        unary_outcome(Unary::Sqrt, x) matches Outcome::Yields(s, _) && (real_of(x.singles()[i])
            > 0real ==> is_number(m, s.data[i]) && number(m, s.data[i]) > 0real && number(
            m,
            s.data[i],
        ) * number(m, s.data[i]) == real_of(x.singles()[i])),
        unary_outcome(Unary::Exp, x) matches Outcome::Yields(s, _) && exact(m, s.data[i])
            == Value::Num((m.exp)(real_of(x.singles()[i]))),
        unary_outcome(Unary::Tanh, x) matches Outcome::Yields(s, _) && exact(m, s.data[i])
            == Value::Num((m.tanh)(real_of(x.singles()[i]))),
{
    lemma_unary(m, Unary::Sqrt, x, i);
    lemma_unary(m, Unary::Exp, x, i);
    lemma_unary(m, Unary::Tanh, x, i);
    reveal_with_fuel(exact, 2);
}

} // verus!
