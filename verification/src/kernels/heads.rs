//! Attention with several heads, with and without a causal mask.

use crate::error::{execution_error, Error};
use crate::float::{
    bits, computes, computes_all, do_exp, do_minus, do_over, do_plus, do_times, eq, equal,
    exact_at_zero_and_one, exp_of, is_infinite, is_nan, larger, minus, over, plus, single_valued,
    sum_is_exact, times, Float, Fx, NEG_INFINITY, ONE, ZERO,
};
use crate::kernels::movement::{lemma_numel_3, lemma_row_major, lemma_split};
use crate::kernels::reduce::{by_rows, count_of, lemma_row_within, push_row, rows_done};
use crate::kernels::rows::{
    max_seq, max_vec, products, products_vec, softmax_row, softmax_vec, sum_seq, sum_vec,
};
use crate::shape::numel;
use crate::sym::{
    fails, misfit, misfit_error, not_single, not_single_error, realized, yields, Outcome,
};
use crate::tensor::{AnyData, DataView, Tensor, TensorView};
use vstd::arithmetic::div_mod::*;
use vstd::arithmetic::mul::*;
use vstd::prelude::*;

verus! {

/// The sizes of an attention with several heads.
#[derive(Debug, Clone, Copy)]
pub struct HeadGeometry {
    pub batch: usize,
    pub seq_len: usize,
    pub width: usize,
    pub heads: usize,
    pub scale: u32,
    pub causal: bool,
}

/// `n` consecutive numbers from place `p` on.
pub open spec fn stretch(data: Seq<u32>, p: int, n: int) -> Seq<Fx> {
    Seq::new(n as nat, |t: int| bits(data[p + t]))
}

/// `t` where `a` and `b` are the same number, else `u`.
pub open spec fn if_equal(a: Fx, b: Fx, t: Fx, u: Fx) -> Fx {
    Fx::IfEqual(Box::new(a), Box::new(b), Box::new(t), Box::new(u))
}

pub proof fn lemma_if_equal<F: Float>(f: F, a: Fx, b: Fx, t: Fx, u: Fx, x: u32, y: u32, r: u32)
    requires
        computes(f, a, x),
        computes(f, b, y),
        equal(x, y) ==> computes(f, t, r),
        !equal(x, y) ==> computes(f, u, r),
    ensures
        computes(f, if_equal(a, b, t, u), r),
{
    assert(equal(x, y) == equal(x, y));
}

impl HeadGeometry {
    /// The width of one head.
    pub open spec fn head(self) -> int {
        self.width as int / self.heads as int
    }

    /// All sizes are machine numbers.
    pub open spec fn fits(self) -> bool {
        &&& self.heads > 0
        &&& self.batch * self.seq_len <= usize::MAX
        &&& self.seq_len * self.width <= usize::MAX
        &&& self.batch * (self.seq_len * self.width) <= usize::MAX
    }

    /// The number of elements.
    pub open spec fn count(self) -> int {
        self.batch * (self.seq_len * self.width)
    }

    /// How far keys and values are read: to the end of the last head of the last
    /// row.
    pub open spec fn reach(self) -> int {
        if self.batch == 0 || self.seq_len == 0 || self.head() == 0 {
            0
        } else {
            self.count() - (self.width - self.heads * self.head())
        }
    }

    /// Where head `h` of row `r` begins; rows are counted through the batch.
    pub open spec fn start(self, r: int, h: int) -> int {
        r * self.width + h * self.head()
    }

    /// Row `j` of the sequence that row `r` belongs to.
    pub open spec fn sibling(self, r: int, j: int) -> int {
        (r / self.seq_len as int) * self.seq_len + j
    }

    /// The score of row `j` of the sequence for the query at row `r`.
    pub open spec fn score(self, q: Seq<u32>, k: Seq<u32>, r: int, h: int, j: int) -> Fx {
        if self.causal && j > r % self.seq_len as int {
            bits(NEG_INFINITY)
        } else {
            times(
                sum_seq(
                    products(
                        stretch(q, self.start(r, h), self.head()),
                        stretch(k, self.start(self.sibling(r, j), h), self.head()),
                    ),
                ),
                bits(self.scale),
            )
        }
    }

    /// The scores of the whole sequence for the query at row `r`.
    pub open spec fn scores(self, q: Seq<u32>, k: Seq<u32>, r: int, h: int) -> Seq<Fx> {
        Seq::new(self.seq_len as nat, |j: int| self.score(q, k, r, h, j))
    }

    /// Place `t` of the values of the whole sequence.
    pub open spec fn values(self, v: Seq<u32>, r: int, h: int, t: int) -> Seq<Fx> {
        Seq::new(
            self.seq_len as nat,
            |j: int| bits(v[self.start(self.sibling(r, j), h) + t]),
        )
    }

    /// Place `t` of head `h` of row `r` of the result.
    pub open spec fn value(
        self,
        q: Seq<u32>,
        k: Seq<u32>,
        v: Seq<u32>,
        r: int,
        h: int,
        t: int,
    ) -> Fx {
        let scores = self.scores(q, k, r, h);
        let values = self.values(v, r, h, t);
        if self.causal {
            masked_average(weighed(scores), masked_sum(scores), values)
        } else {
            sum_seq(products(softmax_row(ZERO, scores), values))
        }
    }

    /// Row `r` of the result. Places beyond the last head are zero.
    pub open spec fn row(self, q: Seq<u32>, k: Seq<u32>, v: Seq<u32>, r: int) -> Seq<Fx> {
        Seq::new(
            self.width as nat,
            |e: int|
                if e < self.heads * self.head() {
                    self.value(q, k, v, r, e / self.head(), e % self.head())
                } else {
                    bits(ZERO)
                },
        )
    }
}

/// The scores as weights: a masked score stays, another becomes the
/// exponential of its distance from the largest.
pub open spec fn weighed(scores: Seq<Fx>) -> Seq<Fx> {
    Seq::new(
        scores.len(),
        |j: int|
            if_equal(
                scores[j],
                bits(NEG_INFINITY),
                scores[j],
                exp_of(minus(scores[j], max_seq(scores))),
            ),
    )
}

/// The sum of the weights of the first `n` scores that are not masked.
pub open spec fn masked_sum_to(scores: Seq<Fx>, n: nat) -> Fx
    decreases n,
{
    if n == 0 {
        bits(ZERO)
    } else {
        if_equal(
            scores[n - 1],
            bits(NEG_INFINITY),
            masked_sum_to(scores, (n - 1) as nat),
            plus(
                masked_sum_to(scores, (n - 1) as nat),
                exp_of(minus(scores[n - 1], max_seq(scores))),
            ),
        )
    }
}

/// The sum of the weights of the scores that are not masked.
pub open spec fn masked_sum(scores: Seq<Fx>) -> Fx {
    masked_sum_to(scores, scores.len())
}

/// The first `n` values, each times its share of `sum`, masked ones left out.
pub open spec fn masked_average_to(ws: Seq<Fx>, sum: Fx, values: Seq<Fx>, n: nat) -> Fx
    decreases n,
{
    if n == 0 {
        bits(ZERO)
    } else {
        if_equal(
            ws[n - 1],
            bits(NEG_INFINITY),
            masked_average_to(ws, sum, values, (n - 1) as nat),
            plus(
                masked_average_to(ws, sum, values, (n - 1) as nat),
                times(over(ws[n - 1], sum), values[n - 1]),
            ),
        )
    }
}

/// The values, each times its share of `sum`, masked ones left out.
pub open spec fn masked_average(ws: Seq<Fx>, sum: Fx, values: Seq<Fx>) -> Fx {
    masked_average_to(ws, sum, values, ws.len())
}

/// Consecutive numbers of a list.
fn stretch_of<F: Float>(f: &F, data: &Vec<u32>, p: usize, n: usize) -> (out: Vec<u32>)
    requires
        p + n <= data@.len(),
    ensures
        out@.len() == n,
        computes_all(*f, stretch(data@, p as int, n as int), out@),
{
    crate::kernels::reduce::part_of(data, p, n)
}

/// A head within its row, and a row within the data.
proof fn lemma_start(g: HeadGeometry, r: int, h: int)
    requires
        g.fits(),
        0 <= r < g.batch * g.seq_len,
        0 <= h < g.heads,
    ensures
        0 <= g.head(),
        0 <= r * g.width,
        0 <= h * g.head(),
        g.start(r, h) + g.head() <= g.count(),
        g.head() > 0 ==> g.start(r, h) + g.head() <= g.reach(),
        h * g.head() + g.head() <= g.width,
        g.heads * g.head() <= g.width,
{
    let w = g.width as int;
    let n = g.heads as int;
    lemma_fundamental_div_mod(w, n);
    lemma_mod_bound(w, n);
    lemma_div_pos_is_pos(w, n);
    lemma_mul_is_commutative(n, w / n);
    lemma_row_within(h, n, g.head());
    let rows = g.batch * g.seq_len;
    lemma_row_within(r, rows, w);
    assert(g.batch * (g.seq_len * g.width) == (g.batch * g.seq_len) * g.width) by (nonlinear_arith);
    assert(g.batch > 0 && g.seq_len > 0) by (nonlinear_arith)
        requires
            g.batch * g.seq_len > 0,
    ;
    assert(r * w + w <= rows * w) by (nonlinear_arith)
        requires
            r < rows,
            w >= 0,
    ;
}

/// No more is read than there are queries.
pub proof fn lemma_reach(g: HeadGeometry)
    requires
        g.fits(),
    ensures
        0 <= g.reach() <= g.count(),
{
    let rows = g.batch * g.seq_len;
    if g.batch > 0 && g.seq_len > 0 {
        assert(rows > 0) by (nonlinear_arith)
            requires
                rows == g.batch * g.seq_len,
                g.batch > 0,
                g.seq_len > 0,
        ;
        lemma_start(g, 0, 0);
        assert(g.batch * (g.seq_len * g.width) == rows * g.width) by (nonlinear_arith)
            requires
                rows == g.batch * g.seq_len,
        ;
        assert(rows * g.width >= g.width) by (nonlinear_arith)
            requires
                rows > 0,
        ;
        assert(0 <= g.heads * g.head()) by (nonlinear_arith)
            requires
                g.head() >= 0,
        ;
    } else {
        assert(g.batch * (g.seq_len * g.width) >= 0) by (nonlinear_arith);
    }
}

/// A row of the same sequence is a row of the data.
proof fn lemma_sibling(g: HeadGeometry, r: int, j: int)
    requires
        0 <= r < g.batch * g.seq_len,
        0 <= j < g.seq_len,
    ensures
        0 <= g.sibling(r, j) < g.batch * g.seq_len,
        0 <= (r / g.seq_len as int) * g.seq_len,
{
    lemma_split(r, g.batch as int, g.seq_len as int);
    lemma_row_major(r / g.seq_len as int, j, g.batch as int, g.seq_len as int);
    lemma_mul_nonnegative(r / g.seq_len as int, g.seq_len as int);
}

/// The scores of the whole sequence for the query at row `r`.
fn score_row<F: Float>(
    f: &F,
    g: &HeadGeometry,
    q: &Vec<u32>,
    k: &Vec<u32>,
    r: usize,
    h: usize,
    head: usize,
) -> (out: Vec<u32>)
    requires
        g.fits(),
        q@.len() == g.count(),
        k@.len() >= g.reach(),
        r < g.batch * g.seq_len,
        h < g.heads,
        head == g.head(),
        head > 0,
    ensures
        computes_all(*f, g.scores(q@, k@, r as int, h as int), out@),
{
    let qsize: usize = q.len();
    let ghost es = g.scores(q@, k@, r as int, h as int);
    proof {
        lemma_split(r as int, g.batch as int, g.seq_len as int);
        lemma_start(*g, r as int, h as int);
    }
    let i: usize = r % g.seq_len;
    let qs = stretch_of(f, q, r * g.width + h * head, head);
    let ghost eqs = stretch(q@, g.start(r as int, h as int), head as int);
    let mut out: Vec<u32> = Vec::new();
    for j in 0..g.seq_len
        invariant
            g.fits(),
            qsize == q@.len() == g.count(),
            k@.len() >= g.reach(),
            r < g.batch * g.seq_len,
            h < g.heads,
            head == g.head(),
            head > 0,
            i == r % g.seq_len,
            es == g.scores(q@, k@, r as int, h as int),
            eqs == stretch(q@, g.start(r as int, h as int), head as int),
            qs@.len() == head,
            computes_all(*f, eqs, qs@),
            out@.len() == j,
            forall|x: int| 0 <= x < j ==> computes(*f, es[x], #[trigger] out@[x]),
    {
        if g.causal && j > i {
            out.push(NEG_INFINITY);
        } else {
            proof {
                lemma_split(r as int, g.batch as int, g.seq_len as int);
                lemma_sibling(*g, r as int, j as int);
                let b = g.sibling(r as int, j as int);
                lemma_start(*g, b, h as int);
            }
            let row: usize = (r / g.seq_len) * g.seq_len + j;
            let ks = stretch_of(f, k, row * g.width + h * head, head);
            let ghost eks = stretch(k@, g.start(row as int, h as int), head as int);
            let ps = products_vec(f, &qs, &ks, Ghost(eqs), Ghost(eks));
            let dot: u32 = sum_vec(f, &ps, Ghost(products(eqs, eks)));
            out.push(
                do_times(
                    f,
                    dot,
                    g.scale,
                    Ghost(sum_seq(products(eqs, eks))),
                    Ghost(bits(g.scale)),
                ),
            );
        }
    }
    out
}

/// The weights of a causal row, and their sum.
fn causal_weights<F: Float>(f: &F, scores: &Vec<u32>, Ghost(es): Ghost<Seq<Fx>>) -> (r: (
    Vec<u32>,
    u32,
))
    requires
        computes_all(*f, es, scores@),
    ensures
        computes_all(*f, weighed(es), r.0@),
        computes(*f, masked_sum(es), r.1),
{
    let top: u32 = max_vec(f, scores, Ghost(es));
    let ghost m = max_seq(es);
    let mut ws: Vec<u32> = Vec::new();
    let mut sum: u32 = ZERO;
    for j in 0..scores.len()
        invariant
            computes_all(*f, es, scores@),
            m == max_seq(es),
            computes(*f, m, top),
            ws@.len() == j,
            forall|x: int| 0 <= x < j ==> computes(*f, weighed(es)[x], #[trigger] ws@[x]),
            computes(*f, masked_sum_to(es, j as nat), sum),
    {
        let score: u32 = scores[j];
        let ghost e = es[j as int];
        let ghost p = exp_of(minus(e, m));
        let ghost before = masked_sum_to(es, j as nat);
        proof {
            assert(computes(*f, e, scores@[j as int]));
        }
        if eq(score, NEG_INFINITY) {
            proof {
                lemma_if_equal(
                    *f,
                    e,
                    bits(NEG_INFINITY),
                    e,
                    p,
                    score,
                    NEG_INFINITY,
                    score,
                );
                lemma_if_equal(
                    *f,
                    e,
                    bits(NEG_INFINITY),
                    before,
                    plus(before, p),
                    score,
                    NEG_INFINITY,
                    sum,
                );
            }
            ws.push(score);
        } else {
            let d: u32 = do_minus(f, score, top, Ghost(e), Ghost(m));
            let w: u32 = do_exp(f, d, Ghost(minus(e, m)));
            let ghost sum0 = sum;
            sum = do_plus(f, sum, w, Ghost(before), Ghost(p));
            proof {
                lemma_if_equal(*f, e, bits(NEG_INFINITY), e, p, score, NEG_INFINITY, w);
                lemma_if_equal(
                    *f,
                    e,
                    bits(NEG_INFINITY),
                    before,
                    plus(before, p),
                    score,
                    NEG_INFINITY,
                    sum,
                );
            }
            ws.push(w);
        }
    }
    (ws, sum)
}

/// The values of a causal row, averaged by their weights.
fn causal_average<F: Float>(
    f: &F,
    ws: &Vec<u32>,
    sum: u32,
    values: &Vec<u32>,
    Ghost(ew): Ghost<Seq<Fx>>,
    Ghost(es): Ghost<Fx>,
    Ghost(ev): Ghost<Seq<Fx>>,
) -> (r: u32)
    requires
        ws@.len() == values@.len(),
        computes_all(*f, ew, ws@),
        computes(*f, es, sum),
        computes_all(*f, ev, values@),
    ensures
        computes(*f, masked_average(ew, es, ev), r),
{
    let mut acc: u32 = ZERO;
    for j in 0..ws.len()
        invariant
            ws@.len() == values@.len(),
            computes_all(*f, ew, ws@),
            computes(*f, es, sum),
            computes_all(*f, ev, values@),
            computes(*f, masked_average_to(ew, es, ev, j as nat), acc),
    {
        let w: u32 = ws[j];
        let ghost e = ew[j as int];
        let ghost v = ev[j as int];
        let ghost before = masked_average_to(ew, es, ev, j as nat);
        proof {
            assert(computes(*f, e, ws@[j as int]));
            assert(computes(*f, v, values@[j as int]));
        }
        if !eq(w, NEG_INFINITY) {
            let share: u32 = do_over(f, w, sum, Ghost(e), Ghost(es));
            let p: u32 = do_times(f, share, values[j], Ghost(over(e, es)), Ghost(v));
            acc = do_plus(f, acc, p, Ghost(before), Ghost(times(over(e, es), v)));
        }
        proof {
            lemma_if_equal(
                *f,
                e,
                bits(NEG_INFINITY),
                before,
                plus(before, times(over(e, es), v)),
                w,
                NEG_INFINITY,
                acc,
            );
        }
    }
    acc
}

/// Place `t` of the values of the whole sequence.
fn value_column<F: Float>(
    f: &F,
    g: &HeadGeometry,
    v: &Vec<u32>,
    r: usize,
    h: usize,
    t: usize,
    head: usize,
) -> (out: Vec<u32>)
    requires
        g.fits(),
        v@.len() >= g.reach(),
        r < g.batch * g.seq_len,
        h < g.heads,
        head == g.head(),
        t < head,
    ensures
        out@.len() == g.seq_len,
        computes_all(*f, g.values(v@, r as int, h as int, t as int), out@),
{
    let ghost es = g.values(v@, r as int, h as int, t as int);
    let mut out: Vec<u32> = Vec::new();
    for j in 0..g.seq_len
        invariant
            g.fits(),
            v@.len() >= g.reach(),
            r < g.batch * g.seq_len,
            h < g.heads,
            head == g.head(),
            t < head,
            es == g.values(v@, r as int, h as int, t as int),
            out@.len() == j,
            forall|x: int| 0 <= x < j ==> computes(*f, es[x], #[trigger] out@[x]),
    {
        proof {
            lemma_split(r as int, g.batch as int, g.seq_len as int);
            lemma_sibling(*g, r as int, j as int);
            lemma_start(*g, g.sibling(r as int, j as int), h as int);
        }
        let row: usize = (r / g.seq_len) * g.seq_len + j;
        out.push(v[row * g.width + h * head + t]);
    }
    out
}

/// Head `h` of row `r` of the result is appended to the row.
fn push_head<F: Float>(
    f: &F,
    g: &HeadGeometry,
    q: &Vec<u32>,
    k: &Vec<u32>,
    v: &Vec<u32>,
    r: usize,
    h: usize,
    head: usize,
    out: &mut Vec<u32>,
)
    requires
        g.fits(),
        q@.len() == g.count(),
        k@.len() >= g.reach(),
        v@.len() >= g.reach(),
        r < g.batch * g.seq_len,
        h < g.heads,
        head == g.head(),
        old(out)@.len() == h * head,
        forall|e: int|
            0 <= e < h * head ==> computes(
                *f,
                g.row(q@, k@, v@, r as int)[e],
                #[trigger] old(out)@[e],
            ),
    ensures
        final(out)@.len() == (h + 1) * head,
        forall|e: int|
            0 <= e < (h + 1) * head ==> computes(
                *f,
                g.row(q@, k@, v@, r as int)[e],
                #[trigger] final(out)@[e],
            ),
{
    if head == 0 {
        proof {
            assert((h + 1) * head == 0 && h * head == 0) by (nonlinear_arith)
                requires
                    head == 0,
            ;
        }
        return;
    }
    let scores = score_row(f, g, q, k, r, h, head);
    let ghost es = g.scores(q@, k@, r as int, h as int);
    let ghost base = h * head;
    proof {
        lemma_start(*g, r as int, h as int);
        assert((h + 1) * head == h * head + head) by (nonlinear_arith);
    }
    let mut sum: u32 = ZERO;
    let mut ws: Vec<u32> = Vec::new();
    if g.causal {
        let (a, b) = causal_weights(f, &scores, Ghost(es));
        ws = a;
        sum = b;
    } else {
        ws = softmax_vec(f, ZERO, &scores, Ghost(es));
    }
    let ghost ew = if g.causal {
        weighed(es)
    } else {
        softmax_row(ZERO, es)
    };
    for t in 0..head
        invariant
            g.fits(),
            v@.len() >= g.reach(),
            r < g.batch * g.seq_len,
            h < g.heads,
            head == g.head(),
            base == h * head,
            base + head <= g.width,
            es == g.scores(q@, k@, r as int, h as int),
            ew == (if g.causal {
                weighed(es)
            } else {
                softmax_row(ZERO, es)
            }),
            ws@.len() == g.seq_len,
            computes_all(*f, ew, ws@),
            g.causal ==> computes(*f, masked_sum(es), sum),
            out@.len() == base + t,
            forall|e: int|
                0 <= e < base + t ==> computes(
                    *f,
                    g.row(q@, k@, v@, r as int)[e],
                    #[trigger] out@[e],
                ),
    {
        let vs = value_column(f, g, v, r, h, t, head);
        let ghost ev = g.values(v@, r as int, h as int, t as int);
        let x: u32 = if g.causal {
            causal_average(f, &ws, sum, &vs, Ghost(ew), Ghost(masked_sum(es)), Ghost(ev))
        } else {
            let ps = products_vec(f, &ws, &vs, Ghost(ew), Ghost(ev));
            sum_vec(f, &ps, Ghost(products(ew, ev)))
        };
        out.push(x);
        proof {
            let e = base + t;
            lemma_row_major(h as int, t as int, g.heads as int, head as int);
            assert(g.row(q@, k@, v@, r as int)[e] == g.value(
                q@,
                k@,
                v@,
                r as int,
                h as int,
                t as int,
            ));
        }
    }
}

/// Row `r` of the result.
fn head_row<F: Float>(
    f: &F,
    g: &HeadGeometry,
    q: &Vec<u32>,
    k: &Vec<u32>,
    v: &Vec<u32>,
    r: usize,
) -> (out: Vec<u32>)
    requires
        g.fits(),
        q@.len() == g.count(),
        k@.len() >= g.reach(),
        v@.len() >= g.reach(),
        r < g.batch * g.seq_len,
    ensures
        computes_all(*f, g.row(q@, k@, v@, r as int), out@),
{
    let head: usize = g.width / g.heads;
    let mut out: Vec<u32> = Vec::new();
    proof {
        lemma_mul_basics(head as int);
        lemma_start(*g, r as int, 0);
    }
    for h in 0..g.heads
        invariant
            g.fits(),
            q@.len() == g.count(),
            k@.len() >= g.reach(),
            v@.len() >= g.reach(),
            r < g.batch * g.seq_len,
            head == g.head(),
            out@.len() == h * head,
            forall|e: int|
                0 <= e < h * head ==> computes(
                    *f,
                    g.row(q@, k@, v@, r as int)[e],
                    #[trigger] out@[e],
                ),
    {
        push_head(f, g, q, k, v, r, h, head, &mut out);
    }
    let done: usize = out.len();
    for e in done..g.width
        invariant
            done == g.heads * g.head(),
            done <= g.width,
            done <= e,
            out@.len() == e,
            forall|x: int|
                0 <= x < e ==> computes(*f, g.row(q@, k@, v@, r as int)[x], #[trigger] out@[x]),
    {
        out.push(ZERO);
    }
    out
}

/// In a causal attention no row sees a later row of its sequence: where keys
/// and values agree up to a row, and the queries at it, whatever may come out
/// for the row with the ones may come out with the others.
proof fn lemma_causal_value<F: Float>(
    f: F,
    g: HeadGeometry,
    q: Seq<u32>,
    k: Seq<u32>,
    v: Seq<u32>,
    q2: Seq<u32>,
    k2: Seq<u32>,
    v2: Seq<u32>,
    r: int,
    h: int,
    t: int,
    out: u32,
)
    requires
        g.fits(),
        g.causal,
        0 <= r < g.batch * g.seq_len,
        0 <= h < g.heads,
        0 <= t < g.head(),
        forall|j: int, e: int|
            0 <= j <= r % g.seq_len as int && 0 <= e < g.head() ==> {
                &&& #[trigger] k[g.start(g.sibling(r, j), h) + e] == k2[g.start(
                    g.sibling(r, j),
                    h,
                ) + e]
                &&& v[g.start(g.sibling(r, j), h) + e] == v2[g.start(g.sibling(r, j), h) + e]
            },
        forall|e: int|
            0 <= e < g.head() ==> #[trigger] q[g.start(r, h) + e] == q2[g.start(r, h) + e],
        computes(f, g.value(q, k, v, r, h, t), out),
    ensures
        computes(f, g.value(q2, k2, v2, r, h, t), out),
{
    let i = r % g.seq_len as int;
    lemma_split(r, g.batch as int, g.seq_len as int);
    let from = g.start(r, h);
    assert forall|e: int| 0 <= e < g.head() implies stretch(q, from, g.head())[e] == stretch(
        q2,
        from,
        g.head(),
    )[e] by {
        assert(q[from + e] == q2[from + e]);
    }
    assert(stretch(q, from, g.head()) =~= stretch(q2, from, g.head()));
    assert forall|j: int| 0 <= j < g.seq_len implies g.score(q, k, r, h, j) == g.score(
        q2,
        k2,
        r,
        h,
        j,
    ) by {
        if j <= i {
            let at = g.start(g.sibling(r, j), h);
            assert forall|e: int| 0 <= e < g.head() implies stretch(k, at, g.head())[e] == stretch(
                k2,
                at,
                g.head(),
            )[e] by {
                assert(k[at + e] == k2[at + e]);
            }
            assert(stretch(k, at, g.head()) =~= stretch(k2, at, g.head()));
        }
    }
    let scores = g.scores(q, k, r, h);
    assert(scores =~= g.scores(q2, k2, r, h));
    let ws = weighed(scores);
    let a = g.values(v, r, h, t);
    let b = g.values(v2, r, h, t);
    assert forall|j: int| 0 <= j < ws.len() && a[j] != b[j] implies #[trigger] ws[j] == if_equal(
        bits(NEG_INFINITY),
        bits(NEG_INFINITY),
        bits(NEG_INFINITY),
        exp_of(minus(bits(NEG_INFINITY), max_seq(scores))),
    ) by {
        if j <= i {
            let at = g.start(g.sibling(r, j), h);
            assert(k[at + t] == k2[at + t]);
        }
    }
    lemma_masked_values(f, ws, masked_sum(scores), max_seq(scores), a, b, ws.len(), out);
}

/// The place in its sequence of element `e` of a batch of sequences.
pub open spec fn position_of(shape: Seq<usize>, e: int) -> int {
    (e / shape[2] as int) % shape[1] as int
}

/// Two tensors of one shape agree at all places of their sequences up to `i`.
pub open spec fn agree_up_to(x: TensorView, y: TensorView, i: int) -> bool {
    &&& x.wf()
    &&& y.wf()
    &&& x.shape == y.shape
    &&& x.data is F32
    &&& y.data is F32
    &&& forall|e: int|
        0 <= e < x.singles().len() && position_of(x.shape, e) <= i ==> #[trigger] x.singles()[e]
            == y.singles()[e]
}

/// The expressions of a result.
pub open spec fn expressions(o: Outcome) -> Seq<Fx> {
    match o {
        Outcome::Yields(s, _) => s.data,
        _ => Seq::empty(),
    }
}

/// Causal attentions on operands that agree up to a place both succeed, and
/// agree up to that place: whatever may come out there of the one may come out
/// of the other.
pub proof fn law_causal_attention_looks_back<F: Float>(
    f: F,
    q: TensorView,
    k: TensorView,
    v: TensorView,
    q2: TensorView,
    k2: TensorView,
    v2: TensorView,
    scale: u32,
    heads: usize,
    i: int,
)
    requires
        q.shape.len() == 3,
        k.shape == q.shape,
        v.shape == q.shape,
        agree_up_to(q, q2, i),
        agree_up_to(k, k2, i),
        agree_up_to(v, v2, i),
        heads > 0,
        numel(q.shape) > 0,
    ensures
        ({
            let a = causal_attention_outcome(q, k, v, scale, heads);
            let b = causal_attention_outcome(q2, k2, v2, scale, heads);
            &&& a matches Outcome::Yields(s, products) && s.shape == q.shape && !products
            &&& b matches Outcome::Yields(s, products) && s.shape == q.shape && !products
            &&& forall|e: int, out: u32|
                0 <= e < numel(q.shape) && position_of(q.shape, e) <= i ==> #[trigger] computes(
                    f,
                    expressions(a)[e],
                    out,
                ) == computes(f, expressions(b)[e], out)
        }),
{
    let g = HeadGeometry {
        batch: q.shape[0],
        seq_len: q.shape[1],
        width: q.shape[2],
        heads,
        scale,
        causal: true,
    };
    let a = causal_attention_outcome(q, k, v, scale, heads);
    let b = causal_attention_outcome(q2, k2, v2, scale, heads);
    assert(q.shape =~= seq![g.batch, g.seq_len, g.width]);
    lemma_numel_3(g.batch, g.seq_len, g.width);
    crate::shape::lemma_positive_dims(q.shape);
    assert(q.shape[2] > 0);
    assert(g.batch * g.seq_len <= g.batch * (g.seq_len * g.width)) by (nonlinear_arith)
        requires
            g.width > 0,
    ;
    assert(g.fits());
    lemma_reach(g);
    assert forall|e: int, out: u32|
        0 <= e < numel(q.shape) && position_of(q.shape, e) <= i implies #[trigger] computes(
        f,
        expressions(a)[e],
        out,
    ) == computes(f, expressions(b)[e], out) by {
        if computes(f, expressions(a)[e], out) {
            lemma_causal_element(f, g, q, k, v, q2, k2, v2, i, e, out);
        }
        if computes(f, expressions(b)[e], out) {
            lemma_causal_element(f, g, q2, k2, v2, q, k, v, i, e, out);
        }
    }
}

/// One element of a causal attention.
proof fn lemma_causal_element<F: Float>(
    f: F,
    g: HeadGeometry,
    q: TensorView,
    k: TensorView,
    v: TensorView,
    q2: TensorView,
    k2: TensorView,
    v2: TensorView,
    i: int,
    e: int,
    out: u32,
)
    requires
        g.fits(),
        g.causal,
        q.shape == seq![g.batch, g.seq_len, g.width],
        k.shape == q.shape,
        v.shape == q.shape,
        agree_up_to(q, q2, i),
        agree_up_to(k, k2, i),
        agree_up_to(v, v2, i),
        0 <= e < numel(q.shape),
        position_of(q.shape, e) <= i,
        computes(
            f,
            g.row(q.singles(), k.singles(), v.singles(), e / g.width as int)[e % g.width as int],
            out,
        ),
    ensures
        computes(
            f,
            g.row(q2.singles(), k2.singles(), v2.singles(), e / g.width as int)[e
                % g.width as int],
            out,
        ),
{
    let w = g.width as int;
    let r = e / w;
    let x = e % w;
    lemma_numel_3(g.batch, g.seq_len, g.width);
    assert(g.batch * (g.seq_len * g.width) == (g.batch * g.seq_len) * g.width) by (nonlinear_arith);
    lemma_mul_nonnegative(g.batch as int, g.seq_len as int);
    lemma_split(e, g.batch * g.seq_len, w);
    if x < g.heads * g.head() {
        lemma_start(g, r, 0);
        lemma_split(x, g.heads as int, g.head());
        let h = x / g.head();
        let t = x % g.head();
        lemma_start(g, r, h);
        assert forall|y: int| 0 <= y < g.head() implies #[trigger] q.singles()[g.start(r, h) + y]
            == q2.singles()[g.start(r, h) + y] by {
            lemma_row_major(r, h * g.head() + y, g.batch * g.seq_len, w);
            assert(position_of(q.shape, g.start(r, h) + y) == position_of(q.shape, e));
        }
        assert forall|j: int, y: int|
            0 <= j <= r % g.seq_len as int && 0 <= y < g.head() implies {
            &&& #[trigger] k.singles()[g.start(g.sibling(r, j), h) + y]
                == k2.singles()[g.start(g.sibling(r, j), h) + y]
            &&& v.singles()[g.start(g.sibling(r, j), h) + y] == v2.singles()[g.start(
                g.sibling(r, j),
                h,
            ) + y]
        } by {
            lemma_split(r, g.batch as int, g.seq_len as int);
            lemma_sibling(g, r, j);
            let m = g.sibling(r, j);
            lemma_start(g, m, h);
            lemma_row_major(m, h * g.head() + y, g.batch * g.seq_len, w);
            lemma_row_major(r / g.seq_len as int, j, g.batch as int, g.seq_len as int);
            let at = g.start(m, h) + y;
            assert(position_of(q.shape, at) == j);
            assert(k.singles()[at] == k2.singles()[at]);
            assert(v.singles()[at] == v2.singles()[at]);
        }
        lemma_causal_value(
            f,
            g,
            q.singles(),
            k.singles(),
            v.singles(),
            q2.singles(),
            k2.singles(),
            v2.singles(),
            r,
            h,
            t,
            out,
        );
    }
}

/// The largest of a finite score and masked ones behind it.
proof fn lemma_first_is_largest<F: Float>(f: F, scores: Seq<Fx>, x: u32, n: nat)
    requires
        0 < n <= scores.len(),
        computes(f, scores[0], x),
        !is_nan(x),
        !is_infinite(x),
        forall|j: int| 1 <= j < scores.len() ==> #[trigger] scores[j] == bits(NEG_INFINITY),
    ensures
        computes(f, max_seq(scores.take(n as int)), x),
    decreases n,
{
    let some = scores.take(n as int);
    let before = scores.take(n - 1);
    assert(some.drop_last() =~= before);
    assert(some.last() == scores[n - 1]);
    if n == 1 {
        assert(before.len() == 0);
        assert(computes(f, bits(NEG_INFINITY), NEG_INFINITY));
        assert(larger(NEG_INFINITY, x) == x);
    } else {
        lemma_first_is_largest(f, scores, x, (n - 1) as nat);
        assert(computes(f, bits(NEG_INFINITY), NEG_INFINITY));
        assert(larger(x, NEG_INFINITY) == x);
    }
}

/// The sum of the weights of a finite score and masked ones behind it is one.
proof fn lemma_first_sum<F: Float>(f: F, scores: Seq<Fx>, x: u32, n: nat)
    requires
        exact_at_zero_and_one(f),
        0 < n <= scores.len(),
        computes(f, scores[0], x),
        !is_nan(x),
        !is_infinite(x),
        computes(f, exp_of(minus(scores[0], max_seq(scores))), ONE),
        forall|j: int| 1 <= j < scores.len() ==> #[trigger] scores[j] == bits(NEG_INFINITY),
    ensures
        computes(f, masked_sum_to(scores, n), ONE),
    decreases n,
{
    let before = masked_sum_to(scores, (n - 1) as nat);
    let more = plus(before, exp_of(minus(scores[n - 1], max_seq(scores))));
    assert(computes(f, bits(NEG_INFINITY), NEG_INFINITY));
    if n == 1 {
        assert(computes(f, bits(ZERO), ZERO));
        assert(sum_is_exact(ONE, ZERO));
        assert(call_ensures(F::plus, (&f, ZERO, ONE), ONE));
        assert(computes(f, more, ONE));
        assert(!equal(x, NEG_INFINITY));
        lemma_if_equal(f, scores[0], bits(NEG_INFINITY), before, more, x, NEG_INFINITY, ONE);
    } else {
        lemma_first_sum(f, scores, x, (n - 1) as nat);
        assert(scores[n - 1] == bits(NEG_INFINITY));
        lemma_if_equal(
            f,
            bits(NEG_INFINITY),
            bits(NEG_INFINITY),
            before,
            more,
            NEG_INFINITY,
            NEG_INFINITY,
            ONE,
        );
    }
}

/// The average of a value with all the weight and masked ones behind it.
proof fn lemma_first_average<F: Float>(
    f: F,
    ws: Seq<Fx>,
    sum: Fx,
    values: Seq<Fx>,
    v: u32,
    n: nat,
)
    requires
        exact_at_zero_and_one(f),
        0 < n <= ws.len(),
        computes(f, ws[0], ONE),
        computes(f, sum, ONE),
        values[0] == bits(v),
        sum_is_exact(v, ZERO),
        forall|j: int| 1 <= j < ws.len() ==> computes(f, #[trigger] ws[j], NEG_INFINITY),
    ensures
        computes(f, masked_average_to(ws, sum, values, n), v),
    decreases n,
{
    let w = ws[n - 1];
    let before = masked_average_to(ws, sum, values, (n - 1) as nat);
    let share = over(w, sum);
    let more = plus(before, times(share, values[n - 1]));
    assert(computes(f, bits(NEG_INFINITY), NEG_INFINITY));
    if n == 1 {
        assert(computes(f, bits(ZERO), ZERO));
        assert(computes(f, bits(v), v));
        assert(call_ensures(F::over, (&f, ONE, ONE), ONE));
        assert(computes(f, share, ONE));
        assert(call_ensures(F::times, (&f, ONE, v), v));
        assert(computes(f, times(share, values[0]), v));
        assert(call_ensures(F::plus, (&f, ZERO, v), v));
        assert(computes(f, more, v));
        assert(!equal(ONE, NEG_INFINITY));
        lemma_if_equal(f, w, bits(NEG_INFINITY), before, more, ONE, NEG_INFINITY, v);
    } else {
        lemma_first_average(f, ws, sum, values, v, (n - 1) as nat);
        assert(computes(f, ws[n - 1], NEG_INFINITY));
        lemma_if_equal(
            f,
            w,
            bits(NEG_INFINITY),
            before,
            more,
            NEG_INFINITY,
            NEG_INFINITY,
            v,
        );
    }
}

/// At the first place of a sequence a causal attention may give the first
/// value, on a host that is exact at zero and one, where the score of the place
/// for itself may be finite and the value is a number other than `-0.0`.
pub proof fn law_causal_attention_begins_with_the_value<F: Float>(
    f: F,
    q: TensorView,
    k: TensorView,
    v: TensorView,
    scale: u32,
    heads: usize,
    e: int,
    score: u32,
)
    requires
        exact_at_zero_and_one(f),
        q.shape.len() == 3,
        k.shape == q.shape,
        v.shape == q.shape,
        q.wf() && k.wf() && v.wf(),
        q.data is F32 && k.data is F32 && v.data is F32,
        heads > 0,
        q.shape[2] as int % heads as int == 0,
        0 <= e < numel(q.shape),
        position_of(q.shape, e) == 0,
        ({
            let g = HeadGeometry {
                batch: q.shape[0],
                seq_len: q.shape[1],
                width: q.shape[2],
                heads,
                scale,
                causal: true,
            };
            computes(
                f,
                g.score(
                    q.singles(),
                    k.singles(),
                    e / g.width as int,
                    (e % g.width as int) / g.head(),
                    0,
                ),
                score,
            )
        }),
        !is_nan(score),
        !is_infinite(score),
        sum_is_exact(v.singles()[e], ZERO),
    ensures
        computes(
            f,
            expressions(causal_attention_outcome(q, k, v, scale, heads))[e],
            v.singles()[e],
        ),
{
    let g = HeadGeometry {
        batch: q.shape[0],
        seq_len: q.shape[1],
        width: q.shape[2],
        heads,
        scale,
        causal: true,
    };
    let w = g.width as int;
    let r = e / w;
    let x = e % w;
    assert(q.shape =~= seq![g.batch, g.seq_len, g.width]);
    lemma_numel_3(g.batch, g.seq_len, g.width);
    crate::shape::lemma_positive_dims(q.shape);
    assert(q.shape[2] > 0 && q.shape[1] > 0);
    assert(g.batch * g.seq_len <= g.batch * (g.seq_len * g.width)) by (nonlinear_arith)
        requires
            g.width > 0,
    ;
    assert(g.fits());
    lemma_reach(g);
    assert(g.batch * (g.seq_len * g.width) == (g.batch * g.seq_len) * g.width) by (nonlinear_arith);
    lemma_mul_nonnegative(g.batch as int, g.seq_len as int);
    lemma_split(e, g.batch * g.seq_len, w);
    lemma_split(r, g.batch as int, g.seq_len as int);
    lemma_fundamental_div_mod(w, heads as int);
    lemma_start(g, r, 0);
    assert(x < g.heads * g.head());
    lemma_split(x, g.heads as int, g.head());
    let h = x / g.head();
    let t = x % g.head();
    let scores = g.scores(q.singles(), k.singles(), r, h);
    let values = g.values(v.singles(), r, h, t);
    let ws = weighed(scores);
    assert(g.sibling(r, 0) == r);
    assert(g.start(r, h) + t == e);
    assert(values[0] == bits(v.singles()[e]));
    assert(scores[0] == g.score(q.singles(), k.singles(), r, h, 0));
    assert forall|j: int| 1 <= j < scores.len() implies #[trigger] scores[j] == bits(
        NEG_INFINITY,
    ) by {}
    lemma_first_is_largest(f, scores, score, scores.len());
    assert(scores.take(scores.len() as int) =~= scores);
    let far = minus(scores[0], max_seq(scores));
    assert(call_ensures(F::minus, (&f, score, score), ZERO));
    assert(computes(f, far, ZERO));
    assert(call_ensures(F::exp, (&f, ZERO), ONE));
    assert(computes(f, exp_of(far), ONE));
    lemma_first_sum(f, scores, score, scores.len());
    assert(computes(f, bits(NEG_INFINITY), NEG_INFINITY));
    assert(!equal(score, NEG_INFINITY));
    lemma_if_equal(
        f,
        scores[0],
        bits(NEG_INFINITY),
        scores[0],
        exp_of(far),
        score,
        NEG_INFINITY,
        ONE,
    );
    assert(ws[0] == if_equal(scores[0], bits(NEG_INFINITY), scores[0], exp_of(far)));
    assert forall|j: int| 1 <= j < ws.len() implies computes(
        f,
        #[trigger] ws[j],
        NEG_INFINITY,
    ) by {
        assert(scores[j] == bits(NEG_INFINITY));
        lemma_if_equal(
            f,
            bits(NEG_INFINITY),
            bits(NEG_INFINITY),
            bits(NEG_INFINITY),
            exp_of(minus(bits(NEG_INFINITY), max_seq(scores))),
            NEG_INFINITY,
            NEG_INFINITY,
            NEG_INFINITY,
        );
    }
    lemma_first_average(f, ws, masked_sum(scores), values, v.singles()[e], ws.len());
}

/// Values of masked rows make no difference.
proof fn lemma_masked_values<F: Float>(
    f: F,
    ws: Seq<Fx>,
    sum: Fx,
    top: Fx,
    a: Seq<Fx>,
    b: Seq<Fx>,
    n: nat,
    out: u32,
)
    requires
        n <= ws.len(),
        forall|j: int|
            0 <= j < ws.len() && a[j] != b[j] ==> #[trigger] ws[j] == if_equal(
                bits(NEG_INFINITY),
                bits(NEG_INFINITY),
                bits(NEG_INFINITY),
                exp_of(minus(bits(NEG_INFINITY), top)),
            ),
        computes(f, masked_average_to(ws, sum, a, n), out),
    ensures
        computes(f, masked_average_to(ws, sum, b, n), out),
    decreases n,
{
    if n > 0 {
        let j = n - 1;
        let w = ws[j];
        let before = masked_average_to(ws, sum, a, j as nat);
        let after = masked_average_to(ws, sum, b, j as nat);
        let more = plus(before, times(over(w, sum), a[j]));
        let more2 = plus(after, times(over(w, sum), b[j]));
        assert(computes(f, if_equal(w, bits(NEG_INFINITY), before, more), out));
        let (x, y) = choose|x: u32, y: u32|
            computes(f, w, x) && computes(f, bits(NEG_INFINITY), y) && (if #[trigger] equal(x, y) {
                computes(f, before, out)
            } else {
                computes(f, more, out)
            });
        assert(y == NEG_INFINITY);
        if equal(x, y) {
            lemma_masked_values(f, ws, sum, top, a, b, j as nat, out);
        } else {
            if a[j] != b[j] {
                lemma_masked_weight(f, top, x);
            }
            let (p, m) = choose|p: u32, m: u32|
                computes(f, before, p) && computes(f, times(over(w, sum), a[j]), m)
                    && #[trigger] call_ensures(F::plus, (&f, p, m), out);
            lemma_masked_values(f, ws, sum, top, a, b, j as nat, p);
            assert(computes(f, more2, out));
        }
        lemma_if_equal(f, w, bits(NEG_INFINITY), after, more2, x, y, out);
    }
}

/// The weight of a masked row stays negative infinity.
proof fn lemma_masked_weight<F: Float>(f: F, top: Fx, x: u32)
    requires
        computes(
            f,
            if_equal(
                bits(NEG_INFINITY),
                bits(NEG_INFINITY),
                bits(NEG_INFINITY),
                exp_of(minus(bits(NEG_INFINITY), top)),
            ),
            x,
        ),
    ensures
        x == NEG_INFINITY,
{
    reveal_with_fuel(computes, 2);
}

/// The rows of an attention with several heads.
pub open spec fn head_rows(g: HeadGeometry, q: Seq<u32>, k: Seq<u32>, v: Seq<u32>) -> spec_fn(
    int,
) -> Seq<Fx> {
    |r: int| g.row(q, k, v, r)
}

/// What an attention with several heads yields, for queries of three axes:
/// batch, sequence and width.
pub open spec fn heads_outcome(
    q: TensorView,
    k: TensorView,
    v: TensorView,
    scale: u32,
    heads: usize,
    causal: bool,
) -> Outcome {
    let g = HeadGeometry {
        batch: q.shape[0],
        seq_len: q.shape[1],
        width: q.shape[2],
        heads,
        scale,
        causal,
    };
    if !g.fits() || k.data.len() < g.reach() || v.data.len() < g.reach() {
        misfit()
    } else {
        match (q.data, k.data, v.data) {
            (DataView::F32(qd), DataView::F32(kd), DataView::F32(vd)) => yields(
                q.shape,
                by_rows(qd.len(), g.width as nat, head_rows(g, qd, kd, vd)),
            ),
            _ => not_single(),
        }
    }
}

/// What a causal attention yields.
pub open spec fn causal_attention_outcome(
    q: TensorView,
    k: TensorView,
    v: TensorView,
    scale: u32,
    heads: usize,
) -> Outcome {
    if q.shape.len() != 3 || k.shape.len() != 3 || v.shape.len() != 3 {
        fails("CausalAttention Q, K, V must be 3D [B, S, D]"@)
    } else {
        heads_outcome(q, k, v, scale, heads, true)
    }
}

/// What a multi-head attention yields.
pub open spec fn multi_head_attention_outcome(
    q: TensorView,
    k: TensorView,
    v: TensorView,
    scale: u32,
    heads: usize,
) -> Outcome {
    if q.shape.len() != 3 {
        fails("MultiHeadAttention Q must be 3D [B, S, D]"@)
    } else {
        heads_outcome(q, k, v, scale, heads, false)
    }
}

/// An attention with several heads.
fn attend_heads<F: Float>(
    f: &F,
    q: &Tensor,
    k: &Tensor,
    v: &Tensor,
    scale: u32,
    heads: usize,
    causal: bool,
) -> (r: Result<Tensor, Error>)
    requires
        q.wf(),
        k.wf(),
        v.wf(),
        q@.shape.len() == 3,
    ensures
        realized(*f, heads_outcome(q@, k@, v@, scale, heads, causal), r),
{
    let batch: usize = q.shape.dims[0];
    let seq_len: usize = q.shape.dims[1];
    let width: usize = q.shape.dims[2];
    let g = HeadGeometry { batch, seq_len, width, heads, scale, causal };
    proof {
        assert(q@.shape =~= seq![batch, seq_len, width]);
        lemma_numel_3(batch, seq_len, width);
    }
    if heads == 0 || batch.checked_mul(seq_len).is_none() {
        return Err(misfit_error());
    }
    let rows: usize = batch * seq_len;
    let head: usize = width / heads;
    let reach: usize = if batch == 0 || seq_len == 0 || head == 0 {
        0
    } else {
        proof {
            lemma_reach(g);
            lemma_fundamental_div_mod(width as int, heads as int);
            lemma_mod_bound(width as int, heads as int);
        }
        batch * (seq_len * width) - (width - heads * head)
    };
    if count_of(k) < reach || count_of(v) < reach {
        return Err(misfit_error());
    }
    match (&q.data, &k.data, &v.data) {
        (AnyData::F32(qd), AnyData::F32(kd), AnyData::F32(vd)) => {
            let ghost of = head_rows(g, qd@, kd@, vd@);
            proof {
                lemma_mul_basics(width as int);
                assert(batch * (seq_len * width) == (batch * seq_len) * width)
                    by (nonlinear_arith);
            }
            let mut out: Vec<u32> = Vec::new();
            for r in 0..rows
                invariant
                    g.fits(),
                    rows == g.batch * g.seq_len,
                    width == g.width,
                    qd@.len() == g.count(),
                    kd@.len() >= g.reach(),
                    vd@.len() >= g.reach(),
                    of == head_rows(g, qd@, kd@, vd@),
                    out@.len() == r * width,
                    rows_done(*f, width as nat, of, out@),
            {
                let done = head_row(f, &g, qd, kd, vd, r);
                push_row(f, &mut out, &done, r, width, Ghost(of));
            }
            Ok(Tensor::new(out, q.shape.copy()))
        },
        _ => Err(not_single_error()),
    }
}

/// Attention with several heads in which no query sees a later key.
pub fn causal_attention<F: Float>(
    f: &F,
    q: &Tensor,
    k: &Tensor,
    v: &Tensor,
    scale: u32,
    heads: usize,
) -> (r: Result<Tensor, Error>)
    requires
        q.wf(),
        k.wf(),
        v.wf(),
    ensures
        realized(*f, causal_attention_outcome(q@, k@, v@, scale, heads), r),
{
    if q.shape.dims.len() != 3 || k.shape.dims.len() != 3 || v.shape.dims.len() != 3 {
        return Err(execution_error("CausalAttention Q, K, V must be 3D [B, S, D]"));
    }
    attend_heads(f, q, k, v, scale, heads, true)
}

/// Attention with several heads.
pub fn multi_head_attention<F: Float>(
    f: &F,
    q: &Tensor,
    k: &Tensor,
    v: &Tensor,
    scale: u32,
    heads: usize,
) -> (r: Result<Tensor, Error>)
    requires
        q.wf(),
        k.wf(),
        v.wf(),
    ensures
        realized(*f, multi_head_attention_outcome(q@, k@, v@, scale, heads), r),
{
    if q.shape.dims.len() != 3 {
        return Err(execution_error("MultiHeadAttention Q must be 3D [B, S, D]"));
    }
    attend_heads(f, q, k, v, scale, heads, false)
}

/// On a host that computes every expression to one number, causal attentions on
/// operands that agree up to a place both succeed, and their results agree up
/// to that place.
pub proof fn law_causal_attentions_agree<F: Float>(
    f: F,
    q: TensorView,
    k: TensorView,
    v: TensorView,
    q2: TensorView,
    k2: TensorView,
    v2: TensorView,
    scale: u32,
    heads: usize,
    i: int,
    r: Result<Tensor, Error>,
    r2: Result<Tensor, Error>,
)
    requires
        single_valued(f),
        q.shape.len() == 3,
        k.shape == q.shape,
        v.shape == q.shape,
        agree_up_to(q, q2, i),
        agree_up_to(k, k2, i),
        agree_up_to(v, v2, i),
        heads > 0,
        numel(q.shape) > 0,
        realized(f, causal_attention_outcome(q, k, v, scale, heads), r),
        realized(f, causal_attention_outcome(q2, k2, v2, scale, heads), r2),
    ensures
        r is Ok && r2 is Ok,
        r.unwrap()@.shape == q.shape,
        r2.unwrap()@.shape == q.shape,
        forall|e: int|
            0 <= e < numel(q.shape) && position_of(q.shape, e) <= i
                ==> #[trigger] r.unwrap()@.singles()[e] == r2.unwrap()@.singles()[e],
{
    law_causal_attention_looks_back(f, q, k, v, q2, k2, v2, scale, heads, i);
    let a = expressions(causal_attention_outcome(q, k, v, scale, heads));
    let b = expressions(causal_attention_outcome(q2, k2, v2, scale, heads));
    let x = r.unwrap()@.singles();
    let y = r2.unwrap()@.singles();
    assert forall|e: int|
        0 <= e < numel(q.shape) && position_of(q.shape, e) <= i implies #[trigger] x[e] == y[e] by {
        assert(computes(f, a[e], x[e]));
        assert(computes(f, b[e], y[e]));
        assert(computes(f, a[e], x[e]) == computes(f, b[e], x[e]));
    }
}

} // verus!
