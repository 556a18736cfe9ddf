//! Attention with several heads is attention of every head.

use crate::exact::{
    all_finite, all_numbers, exact, exponential, is_finite, is_number, lemma_constants, lemma_max,
    lemma_rsum_positive, lemma_rsum_same, lemma_rsum_scale, lemma_sum_onto, number, real_of, rsum,
    Exact, Value,
};
use crate::float::{Fx, NEG_ZERO, ZERO};
use crate::kernels::heads::{
    causal_attention_outcome, masked_average_to, masked_sum_to, multi_head_attention_outcome,
    weighed, HeadGeometry,
};
use crate::kernels::movement::{lemma_numel_3, lemma_row_major};
use crate::kernels::rows::{exps, max_seq, products, softmax_row, sum_seq};
use crate::laws::attention::{lemma_average, lemma_dot, softmax_average};
use crate::sym::Outcome;
use crate::tensor::TensorView;
use vstd::arithmetic::div_mod::*;
use vstd::prelude::*;

verus! {

/// What a softmax is worth: the exponentials, taken at the largest number,
/// over their sum.
pub proof fn lemma_softmax_row(m: Exact, start: u32, es: Seq<Fx>)
    requires
        exponential(m),
        start == ZERO || start == NEG_ZERO,
        es.len() > 0,
        all_numbers(m, es),
    ensures
        ({
            let top = number(m, max_seq(es));
            let total = rsum(es.len(), |j: int| (m.exp)(number(m, es[j]) - top));
            &&& total > 0real
            &&& forall|i: int|
                0 <= i < es.len() ==> exact(m, #[trigger] softmax_row(start, es)[i]) == Value::Num(
                    (m.exp)(number(m, es[i]) - top) / total,
                )
        }),
{
    lemma_max(m, es);
    let top = number(m, max_seq(es));
    let ps = exps(es, max_seq(es));
    assert forall|j: int| 0 <= j < ps.len() implies is_number(m, #[trigger] ps[j]) && number(
        m,
        ps[j],
    ) == (m.exp)(number(m, es[j]) - top) by {
        reveal_with_fuel(exact, 3);
        assert(is_number(m, es[j]));
    }
    lemma_sum_onto(m, start, ps);
    let f = |j: int| (m.exp)(number(m, es[j]) - top);
    lemma_rsum_same(es.len(), |j: int| number(m, ps[j]), f);
    lemma_rsum_positive(es.len(), f);
    let total = rsum(es.len(), f);
    assert forall|i: int| 0 <= i < es.len() implies exact(m, #[trigger] softmax_row(start, es)[i])
        == Value::Num((m.exp)(number(m, es[i]) - top) / total) by {
        assert(is_number(m, ps[i]));
    }
}

/// Values that are averaged with a softmax.
pub proof fn lemma_softmax_average(m: Exact, start: u32, es: Seq<Fx>, vs: Seq<Fx>, out: Fx)
    requires
        exponential(m),
        start == ZERO || start == NEG_ZERO,
        es.len() > 0,
        vs.len() == es.len(),
        all_numbers(m, es),
        all_numbers(m, vs),
        exact(m, out) == Value::Num(
            rsum(
                es.len(),
                |j: int| number(m, softmax_row(start, es)[j]) * number(m, vs[j]),
            ),
        ),
    ensures
        softmax_average(m, es.len(), |j: int| number(m, es[j]), |j: int| number(m, vs[j]), out),
{
    lemma_softmax_row(m, start, es);
    let n = es.len();
    let top = number(m, max_seq(es));
    let s = |j: int| number(m, es[j]);
    let v = |j: int| number(m, vs[j]);
    let f = |j: int| (m.exp)(s(j) - top);
    let g = |j: int| (m.exp)(s(j) - top) * v(j);
    lemma_rsum_same(n, |j: int| (m.exp)(number(m, es[j]) - top), f);
    let total = rsum(n, f);
    let h = |j: int| number(m, softmax_row(start, es)[j]) * number(m, vs[j]);
    let th = |j: int| total * h(j);
    lemma_rsum_scale(n, total, h);
    assert forall|j: int| 0 <= j < n implies #[trigger] th(j) == g(j) by {
        let a = f(j);
        let y = v(j);
        assert(exact(m, softmax_row(start, es)[j]) == Value::Num(a / total));
        assert(total * ((a / total) * y) == a * y) by (nonlinear_arith)
            requires
                total > 0real,
        ;
    }
    lemma_rsum_same(n, th, g);
    let x = number(m, out);
    assert(total * x == x * total) by (nonlinear_arith);
    lemma_average(m, n, s, v, top, out);
}

/// A score: a number, or masked.
pub open spec fn is_score(m: Exact, e: Fx) -> bool {
    exact(m, e) is Num || exact(m, e) == Value::Low
}

/// The largest score is a number where one of them is.
pub proof fn lemma_top(m: Exact, es: Seq<Fx>)
    requires
        forall|j: int| 0 <= j < es.len() ==> is_score(m, #[trigger] es[j]),
    ensures
        is_score(m, max_seq(es)),
        forall|j: int|
            0 <= j < es.len() && exact(m, #[trigger] es[j]) is Num ==> exact(m, max_seq(es)) is Num,
    decreases es.len(),
{
    lemma_constants();
    if es.len() > 0 {
        let short = es.drop_last();
        assert forall|j: int| 0 <= j < short.len() implies is_score(m, #[trigger] short[j]) by {
            assert(short[j] == es[j]);
        }
        lemma_top(m, short);
        assert(is_score(m, es[es.len() - 1]));
        assert forall|j: int|
            0 <= j < es.len() && exact(m, #[trigger] es[j]) is Num implies exact(
            m,
            max_seq(es),
        ) is Num by {
            if j < short.len() {
                assert(short[j] == es[j]);
            }
        }
    }
}

/// Scores that are numbers up to a place and masked behind it.
pub open spec fn seen_up_to(m: Exact, es: Seq<Fx>, keep: int) -> bool {
    forall|j: int|
        0 <= j < es.len() ==> (if j < keep {
            is_number(m, #[trigger] es[j])
        } else {
            exact(m, es[j]) == Value::Low
        })
}

proof fn lemma_masked_sum(m: Exact, es: Seq<Fx>, keep: int, n: nat)
    requires
        0 < keep <= es.len(),
        n <= es.len(),
        seen_up_to(m, es, keep),
        is_number(m, max_seq(es)),
    ensures
        exact(m, masked_sum_to(es, n)) == Value::Num(
            rsum(
                if n < keep {
                    n
                } else {
                    keep as nat
                },
                |j: int| (m.exp)(number(m, es[j]) - number(m, max_seq(es))),
            ),
        ),
    decreases n,
{
    reveal_with_fuel(exact, 4);
    lemma_constants();
    if n > 0 {
        lemma_masked_sum(m, es, keep, (n - 1) as nat);
        if n - 1 < keep {
            assert(is_number(m, es[n - 1]));
        } else {
            assert(exact(m, es[n - 1]) == Value::Low);
        }
    }
}

proof fn lemma_masked_average(
    m: Exact,
    es: Seq<Fx>,
    keep: int,
    sum: Fx,
    vs: Seq<Fx>,
    n: nat,
)
    requires
        0 < keep <= es.len(),
        n <= es.len(),
        vs.len() == es.len(),
        all_numbers(m, vs),
        seen_up_to(m, es, keep),
        is_number(m, max_seq(es)),
        is_number(m, sum),
        number(m, sum) > 0real,
    ensures
        exact(m, masked_average_to(weighed(es), sum, vs, n)) == Value::Num(
            rsum(
                if n < keep {
                    n
                } else {
                    keep as nat
                },
                |j: int|
                    ((m.exp)(number(m, es[j]) - number(m, max_seq(es))) / number(m, sum)) * number(
                        m,
                        vs[j],
                    ),
            ),
        ),
    decreases n,
{
    reveal_with_fuel(exact, 5);
    lemma_constants();
    if n > 0 {
        lemma_masked_average(m, es, keep, sum, vs, (n - 1) as nat);
        assert(is_number(m, vs[n - 1]));
        if n - 1 < keep {
            assert(is_number(m, es[n - 1]));
            assert(exact(m, weighed(es)[n - 1]) == Value::Num(
                (m.exp)(number(m, es[n - 1]) - number(m, max_seq(es))),
            ));
        } else {
            assert(exact(m, es[n - 1]) == Value::Low);
            assert(exact(m, weighed(es)[n - 1]) == Value::Low);
        }
    }
}

/// A sum of shares is the sum of the weighted values over the sum of the
/// weights.
pub proof fn lemma_shares(
    n: nat,
    f: spec_fn(int) -> real,
    v: spec_fn(int) -> real,
    total: real,
)
    requires
        total > 0real,
    ensures
        rsum(n, |j: int| (f(j) / total) * v(j)) * total == rsum(n, |j: int| f(j) * v(j)),
{
    let h = |j: int| (f(j) / total) * v(j);
    let th = |j: int| total * h(j);
    lemma_rsum_scale(n, total, h);
    assert forall|j: int| 0 <= j < n implies #[trigger] th(j) == f(j) * v(j) by {
        let a = f(j);
        let y = v(j);
        assert(total * ((a / total) * y) == a * y) by (nonlinear_arith)
            requires
                total > 0real,
        ;
    }
    lemma_rsum_same(n, th, |j: int| f(j) * v(j));
    let x = rsum(n, h);
    assert(total * x == x * total) by (nonlinear_arith);
}

proof fn lemma_causal_average(m: Exact, es: Seq<Fx>, keep: int, vs: Seq<Fx>, out: Fx)
    requires
        exponential(m),
        0 < keep <= es.len(),
        vs.len() == es.len(),
        all_numbers(m, vs),
        seen_up_to(m, es, keep),
        out == masked_average_to(weighed(es), masked_sum_to(es, es.len()), vs, es.len()),
    ensures
        softmax_average(
            m,
            keep as nat,
            |j: int| number(m, es[j]),
            |j: int| number(m, vs[j]),
            out,
        ),
{
    assert forall|j: int| 0 <= j < es.len() implies is_score(m, #[trigger] es[j]) by {}
    lemma_top(m, es);
    assert(is_number(m, es[0]));
    let top = number(m, max_seq(es));
    let sum = masked_sum_to(es, es.len());
    lemma_masked_sum(m, es, keep, es.len());
    let s = |j: int| number(m, es[j]);
    let v = |j: int| number(m, vs[j]);
    let f = |j: int| (m.exp)(s(j) - top);
    lemma_rsum_same(
        keep as nat,
        |j: int| (m.exp)(number(m, es[j]) - number(m, max_seq(es))),
        f,
    );
    lemma_rsum_positive(keep as nat, f);
    let total = rsum(keep as nat, f);
    lemma_masked_average(m, es, keep, sum, vs, es.len());
    lemma_shares(keep as nat, f, v, total);
    lemma_rsum_same(
        keep as nat,
        |j: int|
            ((m.exp)(number(m, es[j]) - number(m, max_seq(es))) / number(m, sum)) * number(
                m,
                vs[j],
            ),
        |j: int| (f(j) / total) * v(j),
    );
    lemma_rsum_same(keep as nat, |j: int| f(j) * v(j), |j: int| (m.exp)(s(j) - top) * v(j));
    lemma_rsum_same(keep as nat, f, |j: int| (m.exp)(s(j) - top));
    lemma_average(m, keep as nat, s, v, top, out);
}

/// The score of a row with another, and the value there.
proof fn lemma_head_row(
    m: Exact,
    g: HeadGeometry,
    q: Seq<u32>,
    k: Seq<u32>,
    v: Seq<u32>,
    b: int,
    i: int,
    h: int,
    t: int,
    j: int,
)
    requires
        g.fits(),
        all_finite(q) && all_finite(k) && all_finite(v),
        is_finite(g.scale),
        q.len() >= g.count() && k.len() >= g.count() && v.len() >= g.count(),
        0 <= b < g.batch,
        0 <= i < g.seq_len,
        0 <= h < g.heads,
        0 <= t < g.head(),
        0 <= j < g.seq_len,
    ensures
        exact(m, g.scores(q, k, b * g.seq_len + i, h)[j]) == if g.causal && j > i {
            Value::Low
        } else {
            Value::Num(
                real_of(g.scale) * rsum(
                    g.head() as nat,
                    |u: int|
                        real_of(q[(b * g.seq_len + i) * g.width + h * g.head() + u]) * real_of(
                            k[(b * g.seq_len + j) * g.width + h * g.head() + u],
                        ),
                ),
            )
        },
        exact(m, g.values(v, b * g.seq_len + i, h, t)[j]) == Value::Num(
            real_of(v[(b * g.seq_len + j) * g.width + h * g.head() + t]),
        ),
{
    reveal_with_fuel(exact, 2);
    lemma_constants();
    let len = g.seq_len as int;
    let w = g.width as int;
    let hd = g.head();
    let rows = g.batch * g.seq_len;
    let r = b * len + i;
    lemma_row_major(b, i, g.batch as int, len);
    lemma_fundamental_div_mod_converse(r, len, b, i);
    lemma_fundamental_div_mod(w, g.heads as int);
    lemma_mod_bound(w, g.heads as int);
    assert(h * hd + hd <= w && 0 <= h * hd) by (nonlinear_arith)
        requires
            0 <= h < g.heads,
            g.heads * hd <= w,
            hd >= 0,
    ;
    assert(g.batch * (g.seq_len * g.width) == rows * w) by (nonlinear_arith)
        requires
            rows == g.batch * g.seq_len,
            w == g.width,
    ;
    lemma_row_major(b, j, g.batch as int, len);
    let o = b * len + j;
    assert(o * w + w <= rows * w && r * w + w <= rows * w && 0 <= o * w && 0 <= r * w)
        by (nonlinear_arith)
        requires
            0 <= o < rows,
            0 <= r < rows,
            w >= 0,
    ;
    assert(g.sibling(r, j) == o);
    lemma_dot(m, q, r * w + h * hd, k, o * w + h * hd, hd);
    let dot = rsum(
        hd as nat,
        |u: int| real_of(q[r * w + h * hd + u]) * real_of(k[o * w + h * hd + u]),
    );
    let c = real_of(g.scale);
    assert(dot * c == c * dot) by (nonlinear_arith);
    assert(is_finite(v[o * w + h * hd + t]));
}

/// An average is the same over equal scores and values.
pub proof fn lemma_same_average(
    m: Exact,
    n: nat,
    s: spec_fn(int) -> real,
    v: spec_fn(int) -> real,
    s2: spec_fn(int) -> real,
    v2: spec_fn(int) -> real,
    out: Fx,
)
    requires
        softmax_average(m, n, s, v, out),
        forall|j: int| 0 <= j < n ==> #[trigger] s(j) == s2(j),
        forall|j: int| 0 <= j < n ==> #[trigger] v(j) == v2(j),
    ensures
        softmax_average(m, n, s2, v2, out),
{
    lemma_rsum_same(n, |j: int| (m.exp)(s(j)), |j: int| (m.exp)(s2(j)));
    lemma_rsum_same(n, |j: int| (m.exp)(s(j)) * v(j), |j: int| (m.exp)(s2(j)) * v2(j));
}

/// An average of values with the softmax of their scores.
pub proof fn lemma_weighed_sum(m: Exact, es: Seq<Fx>, vs: Seq<Fx>)
    requires
        exponential(m),
        es.len() > 0,
        vs.len() == es.len(),
        all_numbers(m, es),
        all_numbers(m, vs),
    ensures
        softmax_average(
            m,
            es.len(),
            |j: int| number(m, es[j]),
            |j: int| number(m, vs[j]),
            sum_seq(products(softmax_row(ZERO, es), vs)),
        ),
{
    lemma_softmax_row(m, ZERO, es);
    let ps = products(softmax_row(ZERO, es), vs);
    assert forall|j: int| 0 <= j < ps.len() implies is_number(m, #[trigger] ps[j]) && number(
        m,
        ps[j],
    ) == number(m, softmax_row(ZERO, es)[j]) * number(m, vs[j]) by {
        assert(exact(m, softmax_row(ZERO, es)[j]) is Num);
        assert(is_number(m, vs[j]));
    }
    lemma_sum_onto(m, ZERO, ps);
    lemma_rsum_same(
        es.len(),
        |j: int| number(m, ps[j]),
        |j: int| number(m, softmax_row(ZERO, es)[j]) * number(m, vs[j]),
    );
    lemma_softmax_average(m, ZERO, es, vs, sum_seq(ps));
}

/// What one element of an attention with several heads is worth.
proof fn lemma_head_value(
    m: Exact,
    g: HeadGeometry,
    q: Seq<u32>,
    k: Seq<u32>,
    v: Seq<u32>,
    b: int,
    i: int,
    h: int,
    t: int,
)
    requires
        exponential(m),
        g.fits(),
        all_finite(q) && all_finite(k) && all_finite(v),
        is_finite(g.scale),
        q.len() >= g.count() && k.len() >= g.count() && v.len() >= g.count(),
        0 <= b < g.batch,
        0 <= i < g.seq_len,
        0 <= h < g.heads,
        0 <= t < g.head(),
    ensures
        softmax_average(
            m,
            if g.causal {
                (i + 1) as nat
            } else {
                g.seq_len as nat
            },
            |j: int|
                real_of(g.scale) * rsum(
                    g.head() as nat,
                    |u: int|
                        real_of(q[(b * g.seq_len + i) * g.width + h * g.head() + u]) * real_of(
                            k[(b * g.seq_len + j) * g.width + h * g.head() + u],
                        ),
                ),
            |j: int| real_of(v[(b * g.seq_len + j) * g.width + h * g.head() + t]),
            g.value(q, k, v, b * g.seq_len + i, h, t),
        ),
{
    let len = g.seq_len as int;
    let w = g.width as int;
    let hd = g.head();
    let r = b * len + i;
    let es = g.scores(q, k, r, h);
    let vs = g.values(v, r, h, t);
    let keep = if g.causal {
        i + 1
    } else {
        len
    };
    let sc = |j: int|
        real_of(g.scale) * rsum(
            hd as nat,
            |u: int| real_of(q[r * w + h * hd + u]) * real_of(k[(b * len + j) * w + h * hd + u]),
        );
    let vc = |j: int| real_of(v[(b * len + j) * w + h * hd + t]);
    let f = |j: int| number(m, es[j]);
    let y = |j: int| number(m, vs[j]);
    assert forall|j: int| 0 <= j < keep implies is_number(m, #[trigger] es[j]) && f(j) == sc(
        j,
    ) by {
        lemma_head_row(m, g, q, k, v, b, i, h, t, j);
    }
    assert forall|j: int| keep <= j < len implies exact(m, #[trigger] es[j]) == Value::Low by {
        lemma_head_row(m, g, q, k, v, b, i, h, t, j);
    }
    assert forall|j: int| 0 <= j < len implies is_number(m, #[trigger] vs[j]) && y(j) == vc(
        j,
    ) by {
        lemma_head_row(m, g, q, k, v, b, i, h, t, j);
    }
    let out = g.value(q, k, v, r, h, t);
    if g.causal {
        lemma_causal_average(m, es, keep, vs, out);
    } else {
        lemma_weighed_sum(m, es, vs);
    }
    assert forall|j: int| 0 <= j < keep implies #[trigger] f(j) == sc(j) by {
        assert(is_number(m, es[j]));
    }
    assert forall|j: int| 0 <= j < keep implies #[trigger] y(j) == vc(j) by {
        assert(is_number(m, vs[j]));
    }
    lemma_same_average(m, keep as nat, f, y, sc, vc, out);
}

/// The attention of every head is attention: over the real numbers, every
/// element of the result is the average of the values at its place, weighted
/// by the exponentials of the scores of the same head in all rows of the
/// sequence, or in those up to its own where later ones are masked.
pub proof fn law_heads_average(
    m: Exact,
    q: TensorView,
    k: TensorView,
    v: TensorView,
    scale: u32,
    heads: usize,
    causal: bool,
    b: int,
    i: int,
    h: int,
    t: int,
)
    requires
        exponential(m),
        q.shape.len() == 3 && k.shape.len() == 3 && v.shape.len() == 3,
        q.wf() && k.wf() && v.wf(),
        q.data is F32 && k.data is F32 && v.data is F32,
        k.singles().len() >= q.singles().len(),
        v.singles().len() >= q.singles().len(),
        all_finite(q.singles()) && all_finite(k.singles()) && all_finite(v.singles()),
        is_finite(scale),
        0 <= b < q.shape[0],
        0 <= i < q.shape[1],
        0 <= h < heads,
        0 <= t < q.shape[2] as int / heads as int,
    ensures
        ({
            let len = q.shape[1] as int;
            let d = q.shape[2] as int;
            let hd = d / heads as int;
            let o = if causal {
                causal_attention_outcome(q, k, v, scale, heads)
            } else {
                multi_head_attention_outcome(q, k, v, scale, heads)
            };
            o matches Outcome::Yields(s, _) && s.shape == q.shape && softmax_average(
                m,
                if causal {
                    (i + 1) as nat
                } else {
                    len as nat
                },
                |j: int|
                    real_of(scale) * rsum(
                        hd as nat,
                        |u: int|
                            real_of(q.singles()[(b * len + i) * d + h * hd + u]) * real_of(
                                k.singles()[(b * len + j) * d + h * hd + u],
                            ),
                    ),
                |j: int| real_of(v.singles()[(b * len + j) * d + h * hd + t]),
                s.data[(b * len + i) * d + h * hd + t],
            )
        }),
{
    let g = HeadGeometry {
        batch: q.shape[0],
        seq_len: q.shape[1],
        width: q.shape[2],
        heads,
        scale,
        causal,
    };
    let len = q.shape[1] as int;
    let d = q.shape[2] as int;
    let hd = g.head();
    let rows = g.batch * g.seq_len;
    let r = b * len + i;
    assert(q.shape =~= seq![g.batch, g.seq_len, g.width]);
    lemma_numel_3(g.batch, g.seq_len, g.width);
    lemma_row_major(b, i, g.batch as int, len);
    lemma_fundamental_div_mod(d, heads as int);
    lemma_mod_bound(d, heads as int);
    assert(h * hd + hd <= heads * hd <= d && 0 <= h * hd) by (nonlinear_arith)
        requires
            0 <= h < heads,
            heads * hd <= d,
            hd >= 0,
    ;
    let e = h * hd + t;
    assert(g.batch * (g.seq_len * g.width) == rows * d) by (nonlinear_arith)
        requires
            rows == g.batch * g.seq_len,
            d == g.width,
    ;
    assert(rows <= rows * d) by (nonlinear_arith)
        requires
            rows >= 0,
            d > 0,
    ;
    assert(g.fits());
    crate::kernels::heads::lemma_reach(g);
    lemma_row_major(r, e, rows, d);
    lemma_fundamental_div_mod_converse(r * d + e, d, r, e);
    lemma_fundamental_div_mod_converse(e, hd, h, t);
    lemma_head_value(m, g, q.singles(), k.singles(), v.singles(), b, i, h, t);
}

} // verus!
