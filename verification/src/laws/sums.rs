//! What sums along axes are.

use crate::exact::{
    all_finite, exact, is_finite, is_number, lemma_finite, lemma_rsum_same, lemma_rsum_single,
    lemma_rsum_zero, lemma_scatter, lemma_sum_onto, lemma_sum_where, number, real_of, rsum, Exact,
    Value,
};
use crate::float::{leaves, NEG_ZERO};
use crate::kernels::reduce::{leaf_at, sum_all_outcome, sum_dim_outcome, summed_into};
use crate::shape::{
    coords, in_range, law_coords_of_ravel, law_ravel_of_coords, lemma_coords_in_range,
    lemma_ravel_bound, ravel,
};
use crate::sym::Outcome;
use crate::tensor::TensorView;
use vstd::prelude::*;

verus! {

/// The sum of all elements: over the real numbers, all of them added up.
pub proof fn law_sum_adds_all(m: Exact, x: TensorView)
    requires
        x.data is F32,
        all_finite(x.singles()),
    ensures
        sum_all_outcome(x) matches Outcome::Yields(s, _) && s.shape == seq![1usize] && exact(
            m,
            s.data[0],
        ) == Value::Num(rsum(x.singles().len(), |i: int| real_of(x.singles()[i]))),
{
    let d = x.singles();
    let es = leaves(d);
    assert forall|i: int| 0 <= i < es.len() implies is_number(m, #[trigger] es[i]) && number(
        m,
        es[i],
    ) == real_of(d[i]) by {
        assert(is_finite(d[i]));
        lemma_finite(m, d[i]);
    }
    lemma_sum_onto(m, NEG_ZERO, es);
    lemma_rsum_same(d.len(), |i: int| number(m, es[i]), |i: int| real_of(x.singles()[i]));
}

/// A sum along one axis: over the real numbers, the place with coordinates `c`
/// holds the sum of the elements with these coordinates, all places along the
/// axis added up.
pub proof fn law_sum_along_axis(m: Exact, x: TensorView, axis: usize, c: Seq<nat>)
    requires
        sum_dim_outcome(x, axis) is Yields,
        x.wf(),
        all_finite(x.singles()),
        in_range(x.shape.update(axis as int, 1), c),
    ensures
        sum_dim_outcome(x, axis) matches Outcome::Yields(s, _) && s.shape == x.shape.update(
            axis as int,
            1,
        ) && exact(m, s.data[ravel(s.shape, c) as int]) == Value::Num(
            rsum(
                x.shape[axis as int] as nat,
                |t: int|
                    real_of(x.singles()[ravel(x.shape, c.update(axis as int, t as nat)) as int]),
            ),
        ),
{
    let a = axis as int;
    let d = x.singles();
    let n = d.len();
    let out = x.shape.update(a, 1);
    let j = ravel(out, c) as int;
    lemma_ravel_bound(out, c);
    let into = summed_into(x.shape, a, j);
    let terms = leaf_at(d);
    assert forall|i: int| 0 <= i < n && #[trigger] into(i) implies is_number(m, terms(i)) by {
        assert(is_finite(d[i]));
        lemma_finite(m, d[i]);
    }
    lemma_sum_where(m, n, into, terms);
    let k = x.shape[a] as nat;
    let src = |t: int| ravel(x.shape, c.update(a, t as nat)) as int;
    let all = |t: int| true;
    let one = |t: int| 1real;
    let y = |i: int| real_of(d[i]);
    assert(c[a] < out[a]);
    assert forall|t: int| 0 <= t < k && #[trigger] all(t) implies 0 <= src(t) < n && into(src(t))
        && coords(x.shape, src(t) as nat) == c.update(a, t as nat) by {
        let e = c.update(a, t as nat);
        assert forall|q: int| 0 <= q < x.shape.len() implies #[trigger] e[q] < x.shape[q] by {
            assert(c[q] < out[q]);
        }
        lemma_ravel_bound(x.shape, e);
        law_coords_of_ravel(x.shape, e);
        assert(e.update(a, 0) =~= c);
    }
    lemma_scatter(k, n, all, src, one, y);
    let l = |i: int|
        rsum(
            k,
            |t: int|
                if all(t) && src(t) == i {
                    one(t)
                } else {
                    0real
                },
        ) * y(i);
    let r = |i: int|
        if into(i) {
            number(m, terms(i))
        } else {
            0real
        };
    assert forall|i: int| 0 <= i < n implies #[trigger] l(i) == r(i) by {
        let f = |t: int|
            if all(t) && src(t) == i {
                one(t)
            } else {
                0real
            };
        assert(is_finite(d[i]));
        lemma_finite(m, d[i]);
        let z = y(i);
        assert(0real * z == 0real && 1real * z == z) by (nonlinear_arith);
        if into(i) {
            let e = coords(x.shape, i as nat);
            lemma_coords_in_range(x.shape, i as nat);
            law_ravel_of_coords(x.shape, i as nat);
            let t = e[a] as int;
            assert(e[a] < x.shape[a]);
            let e0 = e.update(a, 0);
            assert forall|q: int| 0 <= q < out.len() implies #[trigger] e0[q] < out[q] by {
                assert(e[q] < x.shape[q]);
            }
            law_coords_of_ravel(out, e0);
            law_coords_of_ravel(out, c);
            assert(e0 == c);
            assert(c.update(a, t as nat) =~= e);
            assert(src(t) == i);
            assert forall|u: int| 0 <= u < k && u != t implies #[trigger] f(u) == 0real by {
                if src(u) == i {
                    assert(all(u));
                    assert(coords(x.shape, src(u) as nat)[a] == u);
                }
            }
            lemma_rsum_single(k, f, t);
        } else {
            assert forall|u: int| 0 <= u < k implies #[trigger] f(u) == 0real by {
                if src(u) == i {
                    assert(all(u));
                    assert(into(src(u)));
                }
            }
            lemma_rsum_zero(k, f);
        }
    }
    lemma_rsum_same(n, l, r);
    let g = |t: int|
        if all(t) {
            one(t) * y(src(t))
        } else {
            0real
        };
    let h = |t: int|
        real_of(x.singles()[ravel(x.shape, c.update(axis as int, t as nat)) as int]);
    assert forall|t: int| 0 <= t < k implies #[trigger] g(t) == h(t) by {
        let z = y(src(t));
        assert(1real * z == z) by (nonlinear_arith);
    }
    lemma_rsum_same(k, g, h);
}

} // verus!
