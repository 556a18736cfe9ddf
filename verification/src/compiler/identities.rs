//! When the identities of simplification hold on a host.
//!
//! Rounded arithmetic keeps them on most numbers, not on all: `-0.0 + 0.0` is
//! `0.0`, and nothing is like a number that is not one.

use crate::backend::dispatch::elementwise_op_outcome;
use crate::eval::may_give;
use crate::float::{
    bits, computes, equal, exact_at_zero_and_one, is_infinite, is_nan, minus, negated, over, plus,
    product_is_zero, sum_is_exact, times, Float, ONE, ZERO,
};
use crate::kernels::elementwise::{map_binary, map_unary, Binary, Unary};
use crate::op::OpOf;
use crate::tensor::single;
use vstd::prelude::*;

verus! {

/// Numbers evaluate to themselves.
proof fn lemma_pair<F: Float>(f: F, x: u32, y: u32)
    ensures
        computes(f, bits(x), x),
        computes(f, bits(y), y),
{
}

/// A sum with zeros is the other operand.
pub proof fn law_adding_zeros<F: Float>(f: F, x: Seq<u32>, z: Seq<u32>, shape: Seq<usize>)
    requires
        exact_at_zero_and_one(f),
        single(x, shape).wf(),
        x.len() == z.len(),
        forall|i: int| 0 <= i < x.len() ==> sum_is_exact(x[i], #[trigger] z[i]),
    ensures
        may_give(f, OpOf::Add, seq![single(x, shape), single(z, shape)], single(x, shape)),
        may_give(f, OpOf::Add, seq![single(z, shape), single(x, shape)], single(x, shape)),
{
    reveal(elementwise_op_outcome);
    let a = map_binary(Binary::Add, x, z);
    let b = map_binary(Binary::Add, z, x);
    assert forall|i: int| 0 <= i < a.len() implies computes(f, a[i], #[trigger] x[i]) by {
        assert(sum_is_exact(x[i], z[i]));
        lemma_pair(f, x[i], z[i]);
        assert(call_ensures(F::plus, (&f, x[i], z[i]), x[i]));
    }
    assert forall|i: int| 0 <= i < b.len() implies computes(f, b[i], #[trigger] x[i]) by {
        assert(sum_is_exact(x[i], z[i]));
        lemma_pair(f, z[i], x[i]);
        assert(call_ensures(F::plus, (&f, z[i], x[i]), x[i]));
    }
}

/// A product with ones is the other operand.
pub proof fn law_multiplying_by_ones<F: Float>(f: F, x: Seq<u32>, shape: Seq<usize>)
    requires
        exact_at_zero_and_one(f),
        single(x, shape).wf(),
        forall|i: int| 0 <= i < x.len() ==> !is_nan(#[trigger] x[i]),
    ensures
        ({
            let ones = single(Seq::new(x.len(), |i: int| ONE), shape);
            &&& may_give(f, OpOf::Mul, seq![single(x, shape), ones], single(x, shape))
            &&& may_give(f, OpOf::Mul, seq![ones, single(x, shape)], single(x, shape))
        }),
{
    reveal(elementwise_op_outcome);
    let o = Seq::new(x.len(), |i: int| ONE);
    let a = map_binary(Binary::Mul, x, o);
    let b = map_binary(Binary::Mul, o, x);
    assert forall|i: int| 0 <= i < a.len() implies computes(f, a[i], #[trigger] x[i]) by {
        lemma_pair(f, x[i], ONE);
        assert(call_ensures(F::times, (&f, x[i], ONE), x[i]));
    }
    assert forall|i: int| 0 <= i < b.len() implies computes(f, b[i], #[trigger] x[i]) by {
        lemma_pair(f, ONE, x[i]);
        assert(call_ensures(F::times, (&f, ONE, x[i]), x[i]));
    }
}

/// A quotient by ones is the dividend.
pub proof fn law_dividing_by_ones<F: Float>(f: F, x: Seq<u32>, shape: Seq<usize>)
    requires
        exact_at_zero_and_one(f),
        single(x, shape).wf(),
        forall|i: int| 0 <= i < x.len() ==> !is_nan(#[trigger] x[i]),
    ensures
        may_give(
            f,
            OpOf::Div,
            seq![single(x, shape), single(Seq::new(x.len(), |i: int| ONE), shape)],
            single(x, shape),
        ),
{
    reveal(elementwise_op_outcome);
    let o = Seq::new(x.len(), |i: int| ONE);
    let a = map_binary(Binary::Div, x, o);
    assert forall|i: int| 0 <= i < a.len() implies computes(f, a[i], #[trigger] x[i]) by {
        lemma_pair(f, x[i], ONE);
        assert(call_ensures(F::over, (&f, x[i], ONE), x[i]));
    }
}

/// A product with zeros is zeros, where the other operand is finite and not
/// negative.
pub proof fn law_multiplying_by_zeros<F: Float>(f: F, x: Seq<u32>, shape: Seq<usize>)
    requires
        exact_at_zero_and_one(f),
        single(x, shape).wf(),
        forall|i: int| 0 <= i < x.len() ==> product_is_zero(#[trigger] x[i]),
    ensures
        ({
            let zeros = single(Seq::new(x.len(), |i: int| ZERO), shape);
            &&& may_give(f, OpOf::Mul, seq![single(x, shape), zeros], zeros)
            &&& may_give(f, OpOf::Mul, seq![zeros, single(x, shape)], zeros)
        }),
{
    reveal(elementwise_op_outcome);
    let z = Seq::new(x.len(), |i: int| ZERO);
    let a = map_binary(Binary::Mul, x, z);
    let b = map_binary(Binary::Mul, z, x);
    assert forall|i: int| 0 <= i < a.len() implies computes(f, a[i], #[trigger] z[i]) by {
        assert(product_is_zero(x[i]));
        lemma_pair(f, x[i], ZERO);
        assert(call_ensures(F::times, (&f, x[i], ZERO), ZERO));
    }
    assert forall|i: int| 0 <= i < b.len() implies computes(f, b[i], #[trigger] z[i]) by {
        assert(product_is_zero(x[i]));
        lemma_pair(f, ZERO, x[i]);
        assert(call_ensures(F::times, (&f, ZERO, x[i]), ZERO));
    }
}

/// A finite tensor less itself is zeros.
pub proof fn law_subtracting_itself<F: Float>(f: F, x: Seq<u32>, shape: Seq<usize>)
    requires
        exact_at_zero_and_one(f),
        single(x, shape).wf(),
        forall|i: int| 0 <= i < x.len() ==> !is_nan(#[trigger] x[i]) && !is_infinite(x[i]),
    ensures
        may_give(
            f,
            OpOf::Sub,
            seq![single(x, shape), single(x, shape)],
            single(Seq::new(x.len(), |i: int| ZERO), shape),
        ),
{
    reveal(elementwise_op_outcome);
    let z = Seq::new(x.len(), |i: int| ZERO);
    let a = map_binary(Binary::Sub, x, x);
    assert forall|i: int| 0 <= i < a.len() implies computes(f, a[i], #[trigger] z[i]) by {
        assert(!is_nan(x[i]));
        lemma_pair(f, x[i], x[i]);
        assert(call_ensures(F::minus, (&f, x[i], x[i]), ZERO));
    }
}

/// Negating twice gives a tensor back, on every host.
pub proof fn law_negating_twice<F: Float>(f: F, x: Seq<u32>, shape: Seq<usize>)
    requires
        single(x, shape).wf(),
    ensures
        ({
            let negative = single(Seq::new(x.len(), |i: int| negated(x[i])), shape);
            &&& may_give(f, OpOf::Neg, seq![single(x, shape)], negative)
            &&& may_give(f, OpOf::Neg, seq![negative], single(x, shape))
        }),
{
    reveal(elementwise_op_outcome);
    let m = Seq::new(x.len(), |i: int| negated(x[i]));
    let a = map_unary(Unary::Neg, x);
    let b = map_unary(Unary::Neg, m);
    assert forall|i: int| 0 <= i < a.len() implies computes(f, a[i], #[trigger] m[i]) by {
        assert(computes(f, bits(x[i]), x[i]));
    }
    assert forall|i: int| 0 <= i < b.len() implies computes(f, b[i], #[trigger] x[i]) by {
        crate::float::law_negation_involutive(x[i]);
        assert(computes(f, bits(m[i]), m[i]));
        assert(x[i] == negated(m[i]));
    }
}

/// The exponentials of zeros are ones.
pub proof fn law_exponentials_of_zeros<F: Float>(f: F, z: Seq<u32>, shape: Seq<usize>)
    requires
        exact_at_zero_and_one(f),
        single(z, shape).wf(),
        forall|i: int| 0 <= i < z.len() ==> equal(#[trigger] z[i], ZERO),
    ensures
        may_give(
            f,
            OpOf::Exp,
            seq![single(z, shape)],
            single(Seq::new(z.len(), |i: int| ONE), shape),
        ),
{
    reveal(elementwise_op_outcome);
    let o = Seq::new(z.len(), |i: int| ONE);
    let a = map_unary(Unary::Exp, z);
    assert forall|i: int| 0 <= i < a.len() implies computes(f, a[i], #[trigger] o[i]) by {
        assert(computes(f, bits(z[i]), z[i]));
        assert(call_ensures(F::exp, (&f, z[i]), ONE));
    }
}

} // verus!
