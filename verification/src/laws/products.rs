//! Matrix products, transposes and the attention made of them.

use crate::blas::{
    batch_products, batched_matmul_outcome, dot_exprs, entry, gemm_terms, matmul_outcome, Gemm,
};
use crate::exact::{
    all_finite, all_numbers, exact, exponential, is_finite, is_number, lemma_constants,
    lemma_finite, lemma_order, lemma_rsum_same, lemma_sum_onto, number, real_of, row_by_column,
    rsum, Exact, Value,
};
use crate::float::{bits, leaves, Fx, NEG_ZERO, ZERO};
use crate::kernels::attention::{
    attended, attention_blocks, attention_forward_outcome, attention_weights, flipped, fx_row,
    scaled, soft_row_of, AttentionPart,
};
use crate::kernels::movement::{
    batched_transpose_outcome, lemma_row_major, transpose_outcome,
};
use crate::kernels::reduce::row;
use crate::kernels::rows::{softmax_row, sum_seq};
use crate::laws::attention::softmax_average;
use crate::laws::heads::{lemma_same_average, lemma_softmax_average, lemma_softmax_row};
use crate::laws::rows::lemma_row;
use crate::sym::Outcome;
use crate::tensor::TensorView;
use vstd::prelude::*;

verus! {

/// What an entry of a product is worth: the sum of the products of its row
/// with its column.
pub proof fn lemma_entry(
    e: Exact,
    m: usize,
    k: usize,
    n: usize,
    a: Seq<Fx>,
    b: Seq<Fx>,
    i: int,
    j: int,
)
    requires
        all_numbers(e, a),
        all_numbers(e, b),
        a.len() >= m * k,
        b.len() >= k * n,
        0 <= i < m,
        0 <= j < n,
    ensures
        0 <= i * n + j < m * n,
        exact(e, dot_exprs(m, k, n, a, b)[i * n + j]) == Value::Num(
            rsum(k as nat, |t: int| number(e, a[i * k + t]) * number(e, b[t * n + j])),
        ),
{
    lemma_row_major(i, j, m as int, n as int);
    reveal_with_fuel(row_by_column, 2);
    reveal_with_fuel(exact, 2);
    lemma_entry_to(e, m, k, n, a, b, i, j, k as nat);
    let dot = Fx::Dot { m, k, n, a, b, at: i * n + j };
    assert(exact(e, dot) == Value::Num(row_by_column(e, dot, k as nat)));
}

proof fn lemma_entry_to(
    e: Exact,
    m: usize,
    k: usize,
    n: usize,
    a: Seq<Fx>,
    b: Seq<Fx>,
    i: int,
    j: int,
    t: nat,
)
    requires
        all_numbers(e, a),
        all_numbers(e, b),
        a.len() >= m * k,
        b.len() >= k * n,
        0 <= i < m,
        0 <= j < n,
        t <= k,
    ensures
        row_by_column(e, Fx::Dot { m, k, n, a, b, at: i * n + j }, t) == rsum(
            t,
            |t: int| number(e, a[i * k + t]) * number(e, b[t * n + j]),
        ),
    decreases t,
{
    reveal_with_fuel(row_by_column, 2);
    if t > 0 {
        lemma_entry_to(e, m, k, n, a, b, i, j, (t - 1) as nat);
        lemma_row_major(i, j, m as int, n as int);
        lemma_row_major(i, t - 1, m as int, k as int);
        lemma_row_major(t - 1, j, k as int, n as int);
        assert(is_number(e, a[i * k + (t - 1)]) && is_number(e, b[(t - 1) * n + j]));
    }
}

/// Numbers as expressions are worth them.
pub proof fn lemma_leaves_worth(m: Exact, d: Seq<u32>)
    requires
        all_finite(d),
    ensures
        all_numbers(m, leaves(d)),
        forall|i: int| 0 <= i < d.len() ==> number(m, #[trigger] leaves(d)[i]) == real_of(d[i]),
{
    let es = leaves(d);
    assert forall|i: int| 0 <= i < es.len() implies is_number(m, #[trigger] es[i]) && number(
        m,
        es[i],
    ) == real_of(d[i]) by {
        assert(is_finite(d[i]));
        lemma_finite(m, d[i]);
    }
}

/// A matrix product: over the real numbers, the entry in row `i` and column
/// `j` is the sum of the products of row `i` on the left with column `j` on
/// the right.
pub proof fn law_matrix_product(m: Exact, x: TensorView, y: TensorView, i: int, j: int)
    requires
        matmul_outcome(x, y) is Yields,
        x.wf() && y.wf(),
        all_finite(x.singles()) && all_finite(y.singles()),
        0 <= i < x.shape[0],
        0 <= j < y.shape[1],
    ensures
        matmul_outcome(x, y) matches Outcome::Yields(s, _) && s.shape == seq![
            x.shape[0],
            y.shape[1],
        ] && exact(m, s.data[i * y.shape[1] + j]) == Value::Num(
            rsum(
                x.shape[1] as nat,
                |t: int|
                    real_of(x.singles()[i * x.shape[1] + t]) * real_of(
                        y.singles()[t * y.shape[1] + j],
                    ),
            ),
        ),
{
    let (mm, k, n) = (x.shape[0], x.shape[1], y.shape[1]);
    let (a, b) = (x.singles(), y.singles());
    crate::kernels::movement::lemma_numel_2(mm, k);
    crate::kernels::movement::lemma_numel_2(k, n);
    assert(x.shape =~= seq![mm, k]);
    assert(y.shape =~= seq![k, n]);
    lemma_leaves_worth(m, a);
    lemma_leaves_worth(m, b);
    lemma_entry(m, mm, k, n, leaves(a), leaves(b), i, j);
    let l = |t: int| number(m, leaves(a)[i * k + t]) * number(m, leaves(b)[t * n + j]);
    let r = |t: int| real_of(a[i * k + t]) * real_of(b[t * n + j]);
    assert forall|t: int| 0 <= t < k implies #[trigger] l(t) == r(t) by {
        lemma_row_major(i, t, mm as int, k as int);
        lemma_row_major(t, j, k as int, n as int);
    }
    lemma_rsum_same(k as nat, l, r);
}

/// The products of a batch are the products of its matrices, pair by pair.
pub proof fn law_batched_product(
    m: Exact,
    x: TensorView,
    y: TensorView,
    b: int,
    i: int,
    j: int,
)
    requires
        batched_matmul_outcome(x, y) is Yields,
        x.data is F32 && y.data is F32,
        x.singles().len() == x.shape[0] * (x.shape[1] * x.shape[2]),
        y.shape[1] == x.shape[2],
        all_finite(x.singles()) && all_finite(y.singles()),
        0 <= b < x.shape[0],
        0 <= i < x.shape[1],
        0 <= j < y.shape[2],
        0 < x.shape[2],
    ensures
        batched_matmul_outcome(x, y) matches Outcome::Yields(s, _) && s.shape == seq![
            x.shape[0],
            x.shape[1],
            y.shape[2],
        ] && exact(m, s.data[b * (x.shape[1] * y.shape[2]) + (i * y.shape[2] + j)]) == Value::Num(
            rsum(
                x.shape[2] as nat,
                |t: int|
                    real_of(x.singles()[b * (x.shape[1] * x.shape[2]) + (i * x.shape[2] + t)])
                        * real_of(
                        y.singles()[b * (x.shape[2] * y.shape[2]) + (t * y.shape[2] + j)],
                    ),
            ),
        ),
{
    let (mm, k, n) = (x.shape[1], x.shape[2], y.shape[2]);
    let (p, q) = (x.singles(), y.singles());
    let (mk, kn, mn) = (mm * k, k * n, mm * n);
    lemma_row_major(i, j, mm as int, n as int);
    lemma_row_major(i, 0, mm as int, k as int);
    lemma_row_major(0, j, k as int, n as int);
    let at = i * n + j;
    assert((b + 1) * mk <= x.shape[0] * mk) by (nonlinear_arith)
        requires
            0 <= b < x.shape[0],
            mk > 0,
    ;
    assert((b + 1) * kn <= x.shape[0] * kn) by (nonlinear_arith)
        requires
            0 <= b < x.shape[0],
            kn > 0,
    ;
    assert((b + 1) * mn <= x.shape[0] * mn) by (nonlinear_arith)
        requires
            0 <= b < x.shape[0],
            mn > 0,
    ;
    crate::laws::rows::lemma_place(
        (x.shape[0] * mn) as nat,
        mn,
        batch_products(p, q, mm, k, n),
        b,
        at,
    );
    lemma_row(m, p, mk, b);
    lemma_row(m, q, kn, b);
    let (ea, eb) = (leaves(row(p, mk, b)), leaves(row(q, kn, b)));
    lemma_entry(m, mm, k, n, ea, eb, i, j);
    let l = |t: int| number(m, ea[i * k + t]) * number(m, eb[t * n + j]);
    let r = |t: int|
        real_of(x.singles()[b * (x.shape[1] * x.shape[2]) + (i * x.shape[2] + t)]) * real_of(
            y.singles()[b * (x.shape[2] * y.shape[2]) + (t * y.shape[2] + j)],
        );
    assert forall|t: int| 0 <= t < k implies #[trigger] l(t) == r(t) by {
        lemma_row_major(i, t, mm as int, k as int);
        lemma_row_major(t, j, k as int, n as int);
    }
    lemma_rsum_same(k as nat, l, r);
}

/// A general matrix product: over the real numbers, the entry in row `i` and
/// column `j` is `alpha` times the sum of the products of row and column, plus
/// `beta` times what stood there; a transposed operand is read by columns.
pub proof fn law_general_product(
    m: Exact,
    g: Gemm,
    a: Seq<Fx>,
    b: Seq<Fx>,
    c: Seq<Fx>,
    i: int,
    j: int,
)
    requires
        g.fits(a.len() as int, b.len() as int, c.len() as int),
        all_numbers(m, a) && all_numbers(m, b) && all_numbers(m, c),
        is_finite(g.alpha) && is_finite(g.beta),
        0 <= i < g.m,
        0 <= j < g.n,
    ensures
        g.at(i, j) == i * g.ldc + j,
        exact(m, g.value(a, b, c, i, j)) == Value::Num(
            real_of(g.alpha) * rsum(
                g.k as nat,
                |t: int|
                    number(
                        m,
                        a[if g.trans_a {
                            t * g.lda + i
                        } else {
                            i * g.lda + t
                        }],
                    ) * number(
                        m,
                        b[if g.trans_b {
                            j * g.ldb + t
                        } else {
                            t * g.ldb + j
                        }],
                    ),
            ) + real_of(g.beta) * number(m, c[i * g.ldc + j]),
        ),
{
    lemma_constants();
    let ts = gemm_terms(g.trans_a, g.trans_b, g.k as nat, a, g.lda as int, b, g.ldb as int, i, j);
    let r = |t: int|
        number(
            m,
            a[if g.trans_a {
                t * g.lda + i
            } else {
                i * g.lda + t
            }],
        ) * number(
            m,
            b[if g.trans_b {
                j * g.ldb + t
            } else {
                t * g.ldb + j
            }],
        );
    assert forall|t: int| 0 <= t < ts.len() implies is_number(m, #[trigger] ts[t]) && number(
        m,
        ts[t],
    ) == r(t) by {
        let ia = entry(g.trans_a, g.lda as int, i, t);
        let ib = entry(g.trans_b, g.ldb as int, t, j);
        assert(0 <= ia < a.len());
        assert(0 <= ib < b.len());
        assert(is_number(m, a[ia]) && is_number(m, b[ib]));
        reveal_with_fuel(exact, 2);
    }
    lemma_sum_onto(m, ZERO, ts);
    lemma_rsum_same(g.k as nat, |t: int| number(m, ts[t]), r);
    assert(0 <= entry(false, g.ldc as int, i, j) < c.len());
    assert(is_number(m, c[i * g.ldc + j]));
    lemma_finite(m, g.alpha);
    lemma_finite(m, g.beta);
    lemma_order(g.beta, ZERO);
    let z = number(m, c[i * g.ldc + j]);
    assert(0real * z == 0real) by (nonlinear_arith);
    assert(exact(m, sum_seq(ts)) == Value::Num(rsum(g.k as nat, r)));
    reveal_with_fuel(exact, 3);
}

/// The element in row `r` and column `c` stands in row `c` and column `r` of
/// the transpose.
pub proof fn law_transpose_swaps(x: TensorView, r: int, c: int)
    requires
        transpose_outcome(x) is Yields,
        0 <= r < x.shape[0],
        0 <= c < x.shape[1],
    ensures
        transpose_outcome(x) matches Outcome::Yields(s, _) && s.shape == seq![
            x.shape[1],
            x.shape[0],
        ] && s.data[c * x.shape[0] + r] == bits(x.singles()[r * x.shape[1] + c]),
{
    let (m, n) = (x.shape[0] as int, x.shape[1] as int);
    lemma_row_major(c, r, n, m);
    assert(n * m == m * n) by (nonlinear_arith);
}

/// A batch of matrices is transposed matrix by matrix.
pub proof fn law_batched_transpose_swaps(x: TensorView, b: int, r: int, c: int)
    requires
        batched_transpose_outcome(x) is Yields,
        0 <= b < x.shape[0],
        0 <= r < x.shape[1],
        0 <= c < x.shape[2],
    ensures
        batched_transpose_outcome(x) matches Outcome::Yields(s, _) && s.shape == seq![
            x.shape[0],
            x.shape[2],
            x.shape[1],
        ] && s.data[b * (x.shape[1] * x.shape[2]) + (c * x.shape[1] + r)] == bits(
            x.singles()[b * (x.shape[1] * x.shape[2]) + (r * x.shape[2] + c)],
        ),
{
    let (m, n) = (x.shape[1] as int, x.shape[2] as int);
    lemma_row_major(c, r, n, m);
    assert(n * m == m * n) by (nonlinear_arith);
    lemma_row_major(b, c * m + r, x.shape[0] as int, m * n);
}

/// What the score of a row with another is worth.
pub proof fn lemma_scores(
    m: Exact,
    q: Seq<Fx>,
    k: Seq<Fx>,
    s: usize,
    d: usize,
    scale: u32,
    r: int,
    j: int,
)
    requires
        all_numbers(m, q) && all_numbers(m, k),
        q.len() == s * d,
        k.len() == s * d,
        is_finite(scale),
        0 <= r < s,
        0 <= j < s,
    ensures
        fx_row(
            scaled(dot_exprs(s, d, s, q, flipped(k, s as int, d as int)), scale),
            s as int,
            r,
        ).len() == s,
        exact(
            m,
            fx_row(
                scaled(dot_exprs(s, d, s, q, flipped(k, s as int, d as int)), scale),
                s as int,
                r,
            )[j],
        ) == Value::Num(
            real_of(scale) * rsum(
                d as nat,
                |u: int| number(m, q[r * d + u]) * number(m, k[j * d + u]),
            ),
        ),
{
    let kt = flipped(k, s as int, d as int);
    assert forall|i: int| 0 <= i < kt.len() implies is_number(m, #[trigger] kt[i]) by {
        assert(d * s == s * d) by (nonlinear_arith);
        crate::kernels::movement::lemma_split(i, d as int, s as int);
        lemma_row_major(i % s as int, i / s as int, s as int, d as int);
        assert(is_number(m, k[(i % s as int) * d + i / s as int]));
    }
    assert(d * s == s * d) by (nonlinear_arith);
    lemma_entry(m, s, d, s, q, kt, r, j);
    let es = dot_exprs(s, d, s, q, kt);
    let l = |t: int| number(m, q[r * d + t]) * number(m, kt[t * s + j]);
    let rr = |u: int| number(m, q[r * d + u]) * number(m, k[j * d + u]);
    assert forall|t: int| 0 <= t < d implies #[trigger] l(t) == rr(t) by {
        lemma_row_major(t, j, d as int, s as int);
    }
    lemma_rsum_same(d as nat, l, rr);
    lemma_row_major(r, j, s as int, s as int);
    lemma_row_major(r, s - 1, s as int, s as int);
    lemma_row_major(r, 0, s as int, s as int);
    lemma_finite(m, scale);
    let (x, y) = (rsum(d as nat, rr), real_of(scale));
    assert(x * y == y * x) by (nonlinear_arith);
    assert(exact(m, scaled(es, scale)[r * s + j]) == Value::Num(x * y)) by {
        reveal_with_fuel(exact, 2);
    }
}

/// What an attention of one sequence is worth.
pub proof fn lemma_attended(
    m: Exact,
    q: Seq<Fx>,
    k: Seq<Fx>,
    v: Seq<Fx>,
    s: usize,
    d: usize,
    scale: u32,
    r: int,
    e: int,
)
    requires
        exponential(m),
        all_numbers(m, q) && all_numbers(m, k) && all_numbers(m, v),
        q.len() == s * d,
        k.len() == s * d,
        v.len() == s * d,
        is_finite(scale),
        0 <= r < s,
        0 <= e < d,
    ensures
        softmax_average(
            m,
            s as nat,
            |j: int|
                real_of(scale) * rsum(
                    d as nat,
                    |u: int| number(m, q[r * d + u]) * number(m, k[j * d + u]),
                ),
            |j: int| number(m, v[j * d + e]),
            attended(q, k, v, s, d, scale)[r * d + e],
        ),
{
    let all = scaled(dot_exprs(s, d, s, q, flipped(k, s as int, d as int)), scale);
    let es = fx_row(all, s as int, r);
    let sc = |j: int|
        real_of(scale) * rsum(
            d as nat,
            |u: int| number(m, q[r * d + u]) * number(m, k[j * d + u]),
        );
    lemma_scores(m, q, k, s, d, scale, r, 0);
    assert forall|j: int| 0 <= j < es.len() implies is_number(m, #[trigger] es[j]) && number(
        m,
        es[j],
    ) == sc(j) by {
        lemma_scores(m, q, k, s, d, scale, r, j);
    }
    let vs = Seq::new(s as nat, |j: int| v[j * d + e]);
    assert forall|j: int| 0 <= j < vs.len() implies is_number(m, #[trigger] vs[j]) by {
        lemma_row_major(j, e, s as int, d as int);
        assert(is_number(m, v[j * d + e]));
    }
    let w = attention_weights(q, k, s, d, scale);
    assert forall|i: int| 0 <= i < w.len() implies is_number(m, #[trigger] w[i]) by {
        lemma_weight(m, q, k, s, d, scale, i);
    }
    lemma_softmax_row(m, NEG_ZERO, es);
    lemma_entry(m, s, s, d, w, v, r, e);
    let l = |t: int| number(m, w[r * s + t]) * number(m, v[t * d + e]);
    let rr = |j: int| number(m, softmax_row(NEG_ZERO, es)[j]) * number(m, vs[j]);
    assert forall|t: int| 0 <= t < s implies #[trigger] l(t) == rr(t) by {
        lemma_row_major(r, t, s as int, s as int);
        assert(w[r * s + t] == soft_row_of(all, s as int)(r)[t]);
    }
    lemma_rsum_same(s as nat, l, rr);
    let out = attended(q, k, v, s, d, scale)[r * d + e];
    lemma_softmax_average(m, NEG_ZERO, es, vs, out);
    lemma_same_average(
        m,
        s as nat,
        |j: int| number(m, es[j]),
        |j: int| number(m, vs[j]),
        sc,
        |j: int| number(m, v[j * d + e]),
        out,
    );
}

/// Weights of an attention are numbers.
pub proof fn lemma_weight(
    m: Exact,
    q: Seq<Fx>,
    k: Seq<Fx>,
    s: usize,
    d: usize,
    scale: u32,
    i: int,
)
    requires
        exponential(m),
        all_numbers(m, q) && all_numbers(m, k),
        q.len() == s * d,
        k.len() == s * d,
        is_finite(scale),
        0 <= i < s * s,
    ensures
        is_number(m, attention_weights(q, k, s, d, scale)[i]),
{
    crate::kernels::movement::lemma_split(i, s as int, s as int);
    let all = scaled(dot_exprs(s, d, s, q, flipped(k, s as int, d as int)), scale);
    let r = i / s as int;
    let es = fx_row(all, s as int, r);
    lemma_scores(m, q, k, s, d, scale, r, 0);
    assert forall|j: int| 0 <= j < es.len() implies is_number(m, #[trigger] es[j]) by {
        lemma_scores(m, q, k, s, d, scale, r, j);
    }
    lemma_softmax_row(m, NEG_ZERO, es);
    assert(exact(m, softmax_row(NEG_ZERO, es)[i % s as int]) is Num);
}

/// Attention averages: over the real numbers, every element of the result is
/// the average of the values at its place in all rows of its sequence,
/// weighted by the exponentials of the scaled products of its query with the
/// keys of those rows.
pub proof fn law_attention_averages(
    m: Exact,
    q: TensorView,
    k: TensorView,
    v: TensorView,
    scale: u32,
    b: int,
    i: int,
    e: int,
)
    requires
        exponential(m),
        attention_forward_outcome(q, k, v, scale) is Yields,
        all_finite(q.singles()) && all_finite(k.singles()) && all_finite(v.singles()),
        is_finite(scale),
        0 <= b < q.shape[0],
        0 <= i < q.shape[1],
        0 <= e < q.shape[2],
    ensures
        ({
            let (s, d) = (q.shape[1] as int, q.shape[2] as int);
            attention_forward_outcome(q, k, v, scale) matches Outcome::Yields(o, _) && o.shape
                == q.shape && softmax_average(
                m,
                s as nat,
                |j: int|
                    real_of(scale) * rsum(
                        d as nat,
                        |u: int|
                            real_of(q.singles()[b * (s * d) + (i * d + u)]) * real_of(
                                k.singles()[b * (s * d) + (j * d + u)],
                            ),
                    ),
                |j: int| real_of(v.singles()[b * (s * d) + (j * d + e)]),
                o.data[b * (s * d) + (i * d + e)],
            )
        }),
{
    let (s, d) = (q.shape[1], q.shape[2]);
    let sd = s * d;
    let (qd, kd, vd) = (q.singles(), k.singles(), v.singles());
    lemma_row_major(i, e, s as int, d as int);
    let n = q.shape[0] * sd;
    assert((b + 1) * sd <= n) by (nonlinear_arith)
        requires
            0 <= b < q.shape[0],
            sd > 0,
            n == q.shape[0] * sd,
    ;
    lemma_row(m, qd, sd, b);
    lemma_row(m, kd, sd, b);
    lemma_row(m, vd, sd, b);
    let of = attention_blocks(AttentionPart::Forward, qd, qd, kd, vd, s, d, scale);
    crate::laws::rows::lemma_place(n as nat, sd, of, b, i * d + e);
    let (eq, ek, ev) = (leaves(row(qd, sd, b)), leaves(row(kd, sd, b)), leaves(row(vd, sd, b)));
    lemma_attended(m, eq, ek, ev, s, d, scale, i, e);
    let out = attended(eq, ek, ev, s, d, scale)[i * d + e];
    let f = |j: int|
        real_of(scale) * rsum(
            d as nat,
            |u: int| number(m, eq[i * d + u]) * number(m, ek[j * d + u]),
        );
    let g = |j: int|
        real_of(scale) * rsum(
            d as nat,
            |u: int|
                real_of(q.singles()[b * (s * d) + (i * d + u)]) * real_of(
                    k.singles()[b * (s * d) + (j * d + u)],
                ),
        );
    assert forall|j: int| 0 <= j < s implies #[trigger] f(j) == g(j) by {
        let l = |u: int| number(m, eq[i * d + u]) * number(m, ek[j * d + u]);
        let r = |u: int|
            real_of(q.singles()[b * (s * d) + (i * d + u)]) * real_of(
                k.singles()[b * (s * d) + (j * d + u)],
            );
        assert forall|u: int| 0 <= u < d implies #[trigger] l(u) == r(u) by {
            lemma_row_major(i, u, s as int, d as int);
            lemma_row_major(j, u, s as int, d as int);
        }
        lemma_rsum_same(d as nat, l, r);
    }
    let y = |j: int| number(m, ev[j * d + e]);
    let z = |j: int| real_of(v.singles()[b * (s * d) + (j * d + e)]);
    assert forall|j: int| 0 <= j < s implies #[trigger] y(j) == z(j) by {
        lemma_row_major(j, e, s as int, d as int);
    }
    lemma_same_average(m, s as nat, f, y, g, z, out);
}

} // verus!
