//! The gradients of an attention.

use crate::blas::dot_exprs;
use crate::exact::{
    all_finite, all_numbers, exact, exponential, is_finite, is_number, lemma_exp_minus,
    lemma_finite, lemma_rsum_same, lemma_rsum_scale, lemma_sum_onto, number, real_of, rsum, Exact,
    Value,
};
use crate::float::{bits, leaves, minus, times, Fx, NEG_ZERO, ZERO};
use crate::kernels::attention::{
    attention_block, attention_blocks, attention_outcome, attention_weights, flipped, fx_row,
    scaled, score_grad, soft_grad_rows, soft_row_of, AttentionPart,
};
use crate::kernels::movement::{lemma_row_major, lemma_split};
use crate::kernels::reduce::row;
use crate::kernels::rows::{max_seq, products, softmax_grad_row, softmax_row, sum_seq};
use crate::laws::heads::lemma_softmax_row;
use crate::laws::products::lemma_entry;
use crate::laws::rows::{lemma_place, lemma_row};
use crate::sym::Outcome;
use crate::tensor::TensorView;
use vstd::prelude::*;

verus! {

/// The product of row `r` of one matrix with row `j` of another, `d` wide.
pub open spec fn dot(
    d: int,
    a: spec_fn(int) -> real,
    b: spec_fn(int) -> real,
    r: int,
    j: int,
) -> real {
    rsum(d as nat, |u: int| a(r * d + u) * b(j * d + u))
}

/// `p` holds, row by row, the softmax of the scaled products of queries and
/// keys.
pub open spec fn softmaxed(
    m: Exact,
    s: int,
    d: int,
    scale: real,
    q: spec_fn(int) -> real,
    k: spec_fn(int) -> real,
    p: spec_fn(int, int) -> real,
) -> bool {
    forall|r: int, j: int|
        0 <= r < s && 0 <= j < s ==> #[trigger] p(r, j) * rsum(
            s as nat,
            |l: int| (m.exp)(scale * dot(d, q, k, r, l)),
        ) == (m.exp)(scale * dot(d, q, k, r, j))
}

/// How the result moves with the score of row `r` for row `j`.
pub open spec fn pull(
    s: int,
    d: int,
    scale: real,
    g: spec_fn(int) -> real,
    v: spec_fn(int) -> real,
    p: spec_fn(int, int) -> real,
    r: int,
    j: int,
) -> real {
    (p(r, j) * (dot(d, g, v, r, j) - rsum(s as nat, |l: int| dot(d, g, v, r, l) * p(r, l)))) * scale
}

/// The expressions are worth these numbers.
pub open spec fn worth_all(m: Exact, es: Seq<Fx>, f: spec_fn(int) -> real) -> bool {
    forall|i: int| 0 <= i < es.len() ==> exact(m, #[trigger] es[i]) == Value::Num(f(i))
}

proof fn lemma_numbers(m: Exact, es: Seq<Fx>, f: spec_fn(int) -> real)
    requires
        worth_all(m, es, f),
    ensures
        all_numbers(m, es),
{
    assert forall|i: int| 0 <= i < es.len() implies is_number(m, #[trigger] es[i]) by {}
}

/// An entry of a product, by the numbers of its operands.
proof fn lemma_entry_worth(
    e: Exact,
    m: usize,
    k: usize,
    n: usize,
    a: Seq<Fx>,
    b: Seq<Fx>,
    fa: spec_fn(int) -> real,
    fb: spec_fn(int) -> real,
    i: int,
    j: int,
)
    requires
        worth_all(e, a, fa),
        worth_all(e, b, fb),
        a.len() == m * k,
        b.len() == k * n,
        0 <= i < m,
        0 <= j < n,
    ensures
        0 <= i * n + j < m * n,
        exact(e, dot_exprs(m, k, n, a, b)[i * n + j]) == Value::Num(
            rsum(k as nat, |t: int| fa(i * k + t) * fb(t * n + j)),
        ),
{
    lemma_numbers(e, a, fa);
    lemma_numbers(e, b, fb);
    lemma_entry(e, m, k, n, a, b, i, j);
    let l = |t: int| number(e, a[i * k + t]) * number(e, b[t * n + j]);
    let r = |t: int| fa(i * k + t) * fb(t * n + j);
    assert forall|t: int| 0 <= t < k implies #[trigger] l(t) == r(t) by {
        lemma_row_major(i, t, m as int, k as int);
        lemma_row_major(t, j, k as int, n as int);
        assert(exact(e, a[i * k + t]) == Value::Num(fa(i * k + t)));
        assert(exact(e, b[t * n + j]) == Value::Num(fb(t * n + j)));
    }
    lemma_rsum_same(k as nat, l, r);
}

/// The numbers of a transposed matrix.
proof fn lemma_flipped(m: Exact, es: Seq<Fx>, f: spec_fn(int) -> real, s: int, d: int)
    requires
        worth_all(m, es, f),
        es.len() == s * d,
        0 <= s,
        0 <= d,
    ensures
        flipped(es, s, d).len() == s * d,
        worth_all(m, flipped(es, s, d), |i: int| f((i % s) * d + i / s)),
{
    let kt = flipped(es, s, d);
    let g = |i: int| f((i % s) * d + i / s);
    assert(d * s == s * d) by (nonlinear_arith);
    assert(s * d >= 0) by (nonlinear_arith)
        requires
            0 <= s,
            0 <= d,
    ;
    assert forall|i: int| 0 <= i < kt.len() implies exact(m, #[trigger] kt[i]) == Value::Num(
        g(i),
    ) by {
        lemma_split(i, d, s);
        lemma_row_major(i % s, i / s, s, d);
        assert(exact(m, es[(i % s) * d + i / s]) == Value::Num(f((i % s) * d + i / s)));
    }
}

/// The products of the rows of two matrices.
proof fn lemma_cross(
    m: Exact,
    a: Seq<Fx>,
    b: Seq<Fx>,
    fa: spec_fn(int) -> real,
    fb: spec_fn(int) -> real,
    s: usize,
    d: usize,
    r: int,
    j: int,
)
    requires
        worth_all(m, a, fa),
        worth_all(m, b, fb),
        a.len() == s * d,
        b.len() == s * d,
        0 <= r < s,
        0 <= j < s,
    ensures
        0 <= r * s + j < s * s,
        exact(m, dot_exprs(s, d, s, a, flipped(b, s as int, d as int))[r * s + j]) == Value::Num(
            dot(d as int, fa, fb, r, j),
        ),
{
    let bt = flipped(b, s as int, d as int);
    let g = |i: int| fb((i % s as int) * d + i / s as int);
    lemma_flipped(m, b, fb, s as int, d as int);
    assert(d * s == s * d) by (nonlinear_arith);
    lemma_entry_worth(m, s, d, s, a, bt, fa, g, r, j);
    let l = |t: int| fa(r * d + t) * g(t * s + j);
    let rr = |u: int| fa(r * (d as int) + u) * fb(j * (d as int) + u);
    assert forall|t: int| 0 <= t < d implies #[trigger] l(t) == rr(t) by {
        lemma_row_major(t, j, d as int, s as int);
    }
    lemma_rsum_same(d as nat, l, rr);
}

/// The weights of an attention are the softmax of its scores.
proof fn lemma_weights(
    m: Exact,
    q: Seq<Fx>,
    k: Seq<Fx>,
    s: usize,
    d: usize,
    scale: u32,
    fq: spec_fn(int) -> real,
    fk: spec_fn(int) -> real,
    p: spec_fn(int, int) -> real,
    r: int,
    j: int,
)
    requires
        exponential(m),
        worth_all(m, q, fq),
        worth_all(m, k, fk),
        q.len() == s * d,
        k.len() == s * d,
        is_finite(scale),
        softmaxed(m, s as int, d as int, real_of(scale), fq, fk, p),
        0 <= r < s,
        0 <= j < s,
    ensures
        0 <= r * s + j < s * s,
        exact(m, attention_weights(q, k, s, d, scale)[r * s + j]) == Value::Num(p(r, j)),
{
    let n = s as nat;
    let all = scaled(dot_exprs(s, d, s, q, flipped(k, s as int, d as int)), scale);
    let es = fx_row(all, s as int, r);
    let sc = |l: int| real_of(scale) * dot(d as int, fq, fk, r, l);
    lemma_row_major(r, 0, s as int, s as int);
    lemma_row_major(r, s - 1, s as int, s as int);
    lemma_row_major(r, j, s as int, s as int);
    assert(es.len() == s);
    assert forall|l: int| 0 <= l < es.len() implies is_number(m, #[trigger] es[l]) && number(
        m,
        es[l],
    ) == sc(l) by {
        lemma_cross(m, q, k, fq, fk, s, d, r, l);
        lemma_finite(m, scale);
        let (x, y) = (dot(d as int, fq, fk, r, l), real_of(scale));
        assert(x * y == y * x) by (nonlinear_arith);
        assert(es[l] == times(
            dot_exprs(s, d, s, q, flipped(k, s as int, d as int))[r * s + l],
            bits(scale),
        ));
        reveal_with_fuel(exact, 2);
    }
    lemma_softmax_row(m, NEG_ZERO, es);
    let top = number(m, max_seq(es));
    let f = |l: int| (m.exp)(number(m, es[l]) - top);
    let total = rsum(n, f);
    let g = |l: int| (m.exp)(real_of(scale) * dot(d as int, fq, fk, r, l));
    let c = (m.exp)(top);
    let cf = |l: int| c * f(l);
    assert forall|l: int| 0 <= l < n implies #[trigger] g(l) == cf(l) by {
        assert(number(m, es[l]) == sc(l));
        lemma_exp_minus(m, number(m, es[l]), top);
        let x = f(l);
        assert(x * c == c * x) by (nonlinear_arith);
    }
    lemma_rsum_same(n, g, cf);
    lemma_rsum_scale(n, c, f);
    assert(g(j) == cf(j));
    lemma_exp_minus(m, number(m, es[j]), top);
    let (w, x, y) = (p(r, j), f(j), total);
    assert(w * rsum(n, |l: int| (m.exp)(real_of(scale) * dot(d as int, fq, fk, r, l))) == (m.exp)(
        real_of(scale) * dot(d as int, fq, fk, r, j),
    ));
    assert(w * (c * y) == c * x);
    assert(c > 0real) by {
        lemma_exp_minus(m, top, top);
    }
    assert(w * y == x) by {
        assert(w * (c * y) == c * (w * y)) by (nonlinear_arith);
        let (a, b) = (w * y, x);
        assert(a == b) by (nonlinear_arith)
            requires
                c * a == c * b,
                c > 0real,
        ;
    }
    crate::laws::steps::lemma_quotient(w, x, y);
    assert(attention_weights(q, k, s, d, scale)[r * s + j] == soft_row_of(all, s as int)(r)[j]);
    assert(exact(m, softmax_row(NEG_ZERO, es)[j]) == Value::Num(x / y));
}

/// How the scores pull.
proof fn lemma_pull(
    m: Exact,
    dy: Seq<Fx>,
    q: Seq<Fx>,
    k: Seq<Fx>,
    v: Seq<Fx>,
    s: usize,
    d: usize,
    scale: u32,
    fg: spec_fn(int) -> real,
    fq: spec_fn(int) -> real,
    fk: spec_fn(int) -> real,
    fv: spec_fn(int) -> real,
    p: spec_fn(int, int) -> real,
    r: int,
    j: int,
)
    requires
        exponential(m),
        worth_all(m, dy, fg),
        worth_all(m, q, fq),
        worth_all(m, k, fk),
        worth_all(m, v, fv),
        dy.len() == s * d,
        q.len() == s * d,
        k.len() == s * d,
        v.len() == s * d,
        is_finite(scale),
        softmaxed(m, s as int, d as int, real_of(scale), fq, fk, p),
        0 <= r < s,
        0 <= j < s,
    ensures
        0 <= r * s + j < s * s,
        score_grad(dy, q, k, v, s, d, scale).len() == s * s,
        exact(m, score_grad(dy, q, k, v, s, d, scale)[r * s + j]) == Value::Num(
            pull(s as int, d as int, real_of(scale), fg, fv, p, r, j),
        ),
{
    let n = s as nat;
    let si = s as int;
    let w = attention_weights(q, k, s, d, scale);
    let dp = dot_exprs(s, d, s, dy, flipped(v, s as int, d as int));
    lemma_row_major(r, 0, si, si);
    lemma_row_major(r, si - 1, si, si);
    lemma_row_major(r, j, si, si);
    assert(si * si >= 0) by (nonlinear_arith);
    let ws = fx_row(w, si, r);
    let ds = fx_row(dp, si, r);
    let ps = products(ds, ws);
    let g = |l: int| dot(d as int, fg, fv, r, l) * p(r, l);
    assert forall|l: int| 0 <= l < n implies exact(m, #[trigger] ws[l]) == Value::Num(p(r, l))
        && exact(m, ds[l]) == Value::Num(dot(d as int, fg, fv, r, l)) by {
        lemma_weights(m, q, k, s, d, scale, fq, fk, p, r, l);
        lemma_cross(m, dy, v, fg, fv, s, d, r, l);
    }
    assert forall|l: int| 0 <= l < ps.len() implies is_number(m, #[trigger] ps[l]) && number(
        m,
        ps[l],
    ) == g(l) by {
        assert(exact(m, ws[l]) == Value::Num(p(r, l)));
        assert(ps[l] == times(ds[l], ws[l]));
    }
    lemma_sum_onto(m, ZERO, ps);
    lemma_rsum_same(n, |l: int| number(m, ps[l]), g);
    let t = rsum(n, g);
    assert(exact(m, sum_seq(ps)) == Value::Num(t));
    assert(exact(m, ws[j]) == Value::Num(p(r, j)));
    let e1 = minus(ds[j], sum_seq(ps));
    assert(exact(m, e1) == Value::Num(dot(d as int, fg, fv, r, j) - t));
    let e2 = times(ws[j], e1);
    assert(exact(m, e2) == Value::Num(p(r, j) * (dot(d as int, fg, fv, r, j) - t)));
    assert(soft_grad_rows(w, dp, si)[r * si + j] == softmax_grad_row(ws, ds)[j]);
    lemma_finite(m, scale);
    let e3 = times(e2, bits(scale));
    assert(exact(m, e3) == Value::Num(
        (p(r, j) * (dot(d as int, fg, fv, r, j) - t)) * real_of(scale),
    ));
    assert(score_grad(dy, q, k, v, s, d, scale)[r * s + j] == e3);
    lemma_rsum_same(n, g, |l: int| dot(d as int, fg, fv, r, l) * p(r, l));
}

/// What a gradient of one sequence is worth.
proof fn lemma_block(
    m: Exact,
    part: AttentionPart,
    dy: Seq<Fx>,
    q: Seq<Fx>,
    k: Seq<Fx>,
    v: Seq<Fx>,
    s: usize,
    d: usize,
    scale: u32,
    fg: spec_fn(int) -> real,
    fq: spec_fn(int) -> real,
    fk: spec_fn(int) -> real,
    fv: spec_fn(int) -> real,
    p: spec_fn(int, int) -> real,
    i: int,
    e: int,
)
    requires
        exponential(m),
        worth_all(m, dy, fg),
        worth_all(m, q, fq),
        worth_all(m, k, fk),
        part != AttentionPart::GradV ==> worth_all(m, v, fv),
        dy.len() == s * d,
        q.len() == s * d,
        k.len() == s * d,
        v.len() == s * d,
        is_finite(scale),
        softmaxed(m, s as int, d as int, real_of(scale), fq, fk, p),
        0 <= i < s,
        0 <= e < d,
        part != AttentionPart::Forward,
    ensures
        exact(m, attention_block(part, dy, q, k, v, s, d, scale)[i * d + e]) == Value::Num(
            gradient_at(part, s as int, d as int, real_of(scale), fg, fq, fk, fv, p, i, e),
        ),
{
    let n = s as nat;
    let (si, di) = (s as int, d as int);
    let c = real_of(scale);
    assert(si * si >= 0) by (nonlinear_arith);
    if part == AttentionPart::GradV {
        let w = attention_weights(q, k, s, d, scale);
        let fw = |x: int| p(x / si, x % si);
        assert forall|x: int| 0 <= x < w.len() implies exact(m, #[trigger] w[x]) == Value::Num(
            fw(x),
        ) by {
            lemma_split(x, si, si);
            lemma_weights(m, q, k, s, d, scale, fq, fk, p, x / si, x % si);
        }
        let wt = flipped(w, si, si);
        lemma_flipped(m, w, fw, si, si);
        let ft = |x: int| fw((x % si) * si + x / si);
        lemma_entry_worth(m, s, s, d, wt, dy, ft, fg, i, e);
        let l = |t: int| ft(i * s + t) * fg(t * d + e);
        let r = |t: int| p(t, i) * fg(t * di + e);
        assert forall|t: int| 0 <= t < n implies #[trigger] l(t) == r(t) by {
            lemma_row_major(i, t, si, si);
            lemma_row_major(t, i, si, si);
        }
        lemma_rsum_same(n, l, r);
        lemma_rsum_same(n, r, |t: int| p(t, i) * fg(t * di + e));
    } else {
        let w = score_grad(dy, q, k, v, s, d, scale);
        let fw = |x: int| pull(si, di, c, fg, fv, p, x / si, x % si);
        lemma_pull(m, dy, q, k, v, s, d, scale, fg, fq, fk, fv, p, i, 0);
        assert forall|x: int| 0 <= x < w.len() implies exact(m, #[trigger] w[x]) == Value::Num(
            fw(x),
        ) by {
            lemma_split(x, si, si);
            lemma_pull(m, dy, q, k, v, s, d, scale, fg, fq, fk, fv, p, x / si, x % si);
        }
        if part == AttentionPart::GradQ {
            lemma_entry_worth(m, s, s, d, w, k, fw, fk, i, e);
            let l = |t: int| fw(i * s + t) * fk(t * d + e);
            let r = |t: int| pull(si, di, c, fg, fv, p, i, t) * fk(t * di + e);
            assert forall|t: int| 0 <= t < n implies #[trigger] l(t) == r(t) by {
                lemma_row_major(i, t, si, si);
            }
            lemma_rsum_same(n, l, r);
            lemma_rsum_same(n, r, |t: int| pull(si, di, c, fg, fv, p, i, t) * fk(t * di + e));
        } else {
            let wt = flipped(w, si, si);
            lemma_flipped(m, w, fw, si, si);
            let ft = |x: int| fw((x % si) * si + x / si);
            lemma_entry_worth(m, s, s, d, wt, q, ft, fq, i, e);
            let l = |t: int| ft(i * s + t) * fq(t * d + e);
            let r = |t: int| pull(si, di, c, fg, fv, p, t, i) * fq(t * di + e);
            assert forall|t: int| 0 <= t < n implies #[trigger] l(t) == r(t) by {
                lemma_row_major(i, t, si, si);
                lemma_row_major(t, i, si, si);
            }
            lemma_rsum_same(n, l, r);
            lemma_rsum_same(n, r, |t: int| pull(si, di, c, fg, fv, p, t, i) * fq(t * di + e));
        }
    }
}

/// Element `e` of row `i` of a gradient of one sequence, from the weights `p`.
pub open spec fn gradient_at(
    part: AttentionPart,
    s: int,
    d: int,
    scale: real,
    g: spec_fn(int) -> real,
    q: spec_fn(int) -> real,
    k: spec_fn(int) -> real,
    v: spec_fn(int) -> real,
    p: spec_fn(int, int) -> real,
    i: int,
    e: int,
) -> real {
    match part {
        AttentionPart::Forward => 0real,
        AttentionPart::GradQ => rsum(
            s as nat,
            |t: int| pull(s, d, scale, g, v, p, i, t) * k(t * d + e),
        ),
        AttentionPart::GradK => rsum(
            s as nat,
            |t: int| pull(s, d, scale, g, v, p, t, i) * q(t * d + e),
        ),
        AttentionPart::GradV => rsum(s as nat, |t: int| p(t, i) * g(t * d + e)),
    }
}

/// Sequence `b` of a tensor, as numbers.
pub open spec fn sequence_of(x: TensorView, size: int, b: int) -> spec_fn(int) -> real {
    |i: int| real_of(x.singles()[b * size + i])
}

proof fn lemma_sequence(m: Exact, x: TensorView, size: int, b: int)
    requires
        all_finite(x.singles()),
        0 < size,
        0 <= b,
        (b + 1) * size <= x.singles().len(),
    ensures
        leaves(row(x.singles(), size, b)).len() == size,
        worth_all(m, leaves(row(x.singles(), size, b)), sequence_of(x, size, b)),
{
    lemma_row(m, x.singles(), size, b);
    let es = leaves(row(x.singles(), size, b));
    let f = sequence_of(x, size, b);
    assert forall|i: int| 0 <= i < es.len() implies exact(m, #[trigger] es[i]) == Value::Num(
        f(i),
    ) by {
        assert(is_number(m, es[i]));
        assert(number(m, es[i]) == real_of(x.singles()[b * size + i]));
    }
}

/// The gradients of an attention: over the real numbers, with the weights `p`
/// that a softmax gives the scaled products of queries and keys. The gradient
/// of the values collects what comes in by the weights. Scores pull by their
/// weight, times how far what comes in along their value exceeds its weighted
/// mean, times the scale; the gradient of the queries collects the keys, and
/// that of the keys the queries, by these pulls.
pub proof fn law_attention_gradients(
    m: Exact,
    part: AttentionPart,
    dy: TensorView,
    q: TensorView,
    k: TensorView,
    v: TensorView,
    scale: u32,
    p: spec_fn(int, int) -> real,
    b: int,
    i: int,
    e: int,
)
    requires
        exponential(m),
        part != AttentionPart::Forward,
        q.shape.len() == 3,
        attention_outcome(part, dy, q, k, v, scale) is Yields,
        v.data is F32,
        all_finite(dy.singles()) && all_finite(q.singles()),
        all_finite(k.singles()) && all_finite(v.singles()),
        is_finite(scale),
        0 <= b < q.shape[0],
        0 <= i < q.shape[1],
        0 <= e < q.shape[2],
        ({
            let (s, d) = (q.shape[1] as int, q.shape[2] as int);
            softmaxed(
                m,
                s,
                d,
                real_of(scale),
                sequence_of(q, s * d, b),
                sequence_of(k, s * d, b),
                p,
            )
        }),
    ensures
        ({
            let (s, d) = (q.shape[1] as int, q.shape[2] as int);
            attention_outcome(part, dy, q, k, v, scale) matches Outcome::Yields(o, _) && exact(
                m,
                o.data[b * (s * d) + (i * d + e)],
            ) == Value::Num(
                gradient_at(
                    part,
                    s,
                    d,
                    real_of(scale),
                    sequence_of(dy, s * d, b),
                    sequence_of(q, s * d, b),
                    sequence_of(k, s * d, b),
                    sequence_of(v, s * d, b),
                    p,
                    i,
                    e,
                ),
            )
        }),
{
    let (s, d) = (q.shape[1], q.shape[2]);
    let sd = s * d;
    let (gd, qd, kd, vd) = (dy.singles(), q.singles(), k.singles(), v.singles());
    lemma_row_major(i, e, s as int, d as int);
    let n = q.shape[0] * sd;
    assert((b + 1) * sd <= n) by (nonlinear_arith)
        requires
            0 <= b < q.shape[0],
            sd > 0,
            n == q.shape[0] * sd,
    ;
    let rd = if part == AttentionPart::GradV {
        gd
    } else {
        vd
    };
    let of = attention_blocks(part, gd, qd, kd, rd, s, d, scale);
    lemma_place(n as nat, sd, of, b, i * d + e);
    lemma_sequence(m, dy, sd, b);
    lemma_sequence(m, q, sd, b);
    lemma_sequence(m, k, sd, b);
    lemma_sequence(m, v, sd, b);
    lemma_row(m, rd, sd, b);
    let (eg, eq, ek, er) = (
        leaves(row(gd, sd, b)),
        leaves(row(qd, sd, b)),
        leaves(row(kd, sd, b)),
        leaves(row(rd, sd, b)),
    );
    lemma_block(
        m,
        part,
        eg,
        eq,
        ek,
        er,
        s,
        d,
        scale,
        sequence_of(dy, sd, b),
        sequence_of(q, sd, b),
        sequence_of(k, sd, b),
        sequence_of(v, sd, b),
        p,
        i,
        e,
    );
}

} // verus!
