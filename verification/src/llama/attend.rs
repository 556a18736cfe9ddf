//! Attention over the rows of a prompt, several query heads to a key head.

use crate::float::{
    bits, computes, computes_all, do_count, do_exp, do_minus, do_over, do_plus, do_sqrt, do_times,
    exp_of, ge, gt, if_at_least, if_greater, lemma_if_at_least, lemma_if_greater, minus, over, plus,
    sqrt_of, times, Float, Fx, NEG_INFINITY, ONE, ZERO,
};
use crate::kernels::movement::{lemma_row_major, lemma_split};
use crate::kernels::reduce::{lemma_row_within, part_of};
use crate::kernels::rows::{max_seq, max_vec, products, products_vec, total_seq, total_vec};
use crate::llama::steps::rows_compute;
use vstd::arithmetic::div_mod::*;
use vstd::arithmetic::mul::*;
use vstd::prelude::*;

verus! {

/// How many heads there are and how wide they are.
#[derive(Debug, Clone, Copy)]
pub struct Heads {
    /// Query heads.
    pub queries: usize,
    /// Key and value heads. Query heads share them in equal groups.
    pub keys: usize,
    /// The width of a head.
    pub width: usize,
}

impl Heads {
    /// The query heads fall into equal groups, and a row is a machine number
    /// wide.
    pub open spec fn wf(self) -> bool {
        &&& self.keys > 0
        &&& self.queries > 0
        &&& self.queries % self.keys == 0
        &&& self.queries * self.width <= usize::MAX
        &&& self.keys * self.width <= usize::MAX
    }

    /// The key head that a query head looks at.
    pub open spec fn key_of(self, h: int) -> int {
        h / (self.queries as int / self.keys as int)
    }

    /// Head `h` of a row.
    pub open spec fn head(self, row: Seq<Fx>, h: int) -> Seq<Fx> {
        row.subrange(h * self.width, h * self.width + self.width)
    }

    /// What scores are multiplied with: one over the root of the width.
    pub open spec fn scale(self) -> Fx {
        over(bits(ONE), sqrt_of(Fx::Count(self.width)))
    }

    /// The score of row `j` for query head `h` of row `i`. Rows behind `i` are
    /// masked.
    pub open spec fn score(self, q: Seq<Seq<Fx>>, k: Seq<Seq<Fx>>, i: int, h: int, j: int) -> Fx {
        if j <= i {
            times(
                total_seq(products(self.head(q[i], h), self.head(k[j], self.key_of(h)))),
                self.scale(),
            )
        } else {
            bits(NEG_INFINITY)
        }
    }

    /// The scores of all rows for query head `h` of row `i`.
    pub open spec fn scores(self, q: Seq<Seq<Fx>>, k: Seq<Seq<Fx>>, i: int, h: int) -> Seq<Fx> {
        Seq::new(q.len(), |j: int| self.score(q, k, i, h, j))
    }

    /// Place `t` of the value head for query head `h`, of the rows up to `i`.
    pub open spec fn values(self, v: Seq<Seq<Fx>>, i: int, h: int, t: int) -> Seq<Fx> {
        Seq::new((i + 1) as nat, |j: int| self.head(v[j], self.key_of(h))[t])
    }

    /// Row `i` of the result.
    pub open spec fn attended(
        self,
        q: Seq<Seq<Fx>>,
        k: Seq<Seq<Fx>>,
        v: Seq<Seq<Fx>>,
        i: int,
    ) -> Seq<Fx> {
        Seq::new(
            (self.queries * self.width) as nat,
            |e: int|
                {
                    let h = e / self.width as int;
                    averaged(
                        shares(self.scores(q, k, i, h)),
                        self.values(v, i, h, e % self.width as int),
                        (i + 1) as nat,
                    )
                },
        )
    }

    /// All rows of the result.
    pub open spec fn attention(self, q: Seq<Seq<Fx>>, k: Seq<Seq<Fx>>, v: Seq<Seq<Fx>>) -> Seq<
        Seq<Fx>,
    > {
        Seq::new(q.len(), |i: int| self.attended(q, k, v, i))
    }
}

/// The weight of a score: the exponential of its distance from the largest,
/// or the score itself where it is masked.
pub open spec fn weight(scores: Seq<Fx>, j: int) -> Fx {
    if_greater(
        scores[j],
        bits(NEG_INFINITY),
        exp_of(minus(scores[j], max_seq(scores))),
        scores[j],
    )
}

/// The sum of the weights of the first `n` scores that are not masked.
pub open spec fn weight_sum(scores: Seq<Fx>, n: nat) -> Fx
    decreases n,
{
    if n == 0 {
        bits(ZERO)
    } else {
        if_greater(
            scores[n - 1],
            bits(NEG_INFINITY),
            plus(
                weight_sum(scores, (n - 1) as nat),
                exp_of(minus(scores[n - 1], max_seq(scores))),
            ),
            weight_sum(scores, (n - 1) as nat),
        )
    }
}

/// The weights, positive ones divided by the sum.
pub open spec fn shares(scores: Seq<Fx>) -> Seq<Fx> {
    Seq::new(
        scores.len(),
        |j: int|
            if_greater(
                weight(scores, j),
                bits(ZERO),
                over(weight(scores, j), weight_sum(scores, scores.len())),
                weight(scores, j),
            ),
    )
}

/// The first `n` values, each times its share, summed. Shares that are not
/// positive are passed over.
pub open spec fn averaged(ss: Seq<Fx>, values: Seq<Fx>, n: nat) -> Fx
    decreases n,
{
    if n == 0 {
        bits(ZERO)
    } else {
        if_at_least(
            bits(ZERO),
            ss[n - 1],
            averaged(ss, values, (n - 1) as nat),
            plus(averaged(ss, values, (n - 1) as nat), times(ss[n - 1], values[n - 1])),
        )
    }
}

/// What is read for a row does not depend on the rows behind it.
pub proof fn law_rows_behind_are_unseen(
    g: Heads,
    q: Seq<Seq<Fx>>,
    k: Seq<Seq<Fx>>,
    v: Seq<Seq<Fx>>,
    q2: Seq<Seq<Fx>>,
    k2: Seq<Seq<Fx>>,
    v2: Seq<Seq<Fx>>,
    i: int,
)
    requires
        0 <= i < q.len(),
        q2.len() == q.len(),
        q[i] == q2[i],
        forall|j: int| 0 <= j <= i ==> #[trigger] k[j] == k2[j],
        forall|j: int| 0 <= j <= i ==> #[trigger] v[j] == v2[j],
    ensures
        g.attended(q, k, v, i) == g.attended(q2, k2, v2, i),
{
    assert forall|e: int| 0 <= e < g.queries * g.width implies g.attended(q, k, v, i)[e]
        == g.attended(q2, k2, v2, i)[e] by {
        let h = e / g.width as int;
        let t = e % g.width as int;
        assert(g.scores(q, k, i, h) =~= g.scores(q2, k2, i, h));
        assert(g.values(v, i, h, t) =~= g.values(v2, i, h, t));
    }
    assert(g.attended(q, k, v, i) =~= g.attended(q2, k2, v2, i));
}

/// A head lies within its row, and its key head within a key row.
proof fn lemma_heads(g: Heads, h: int)
    requires
        g.wf(),
        0 <= h < g.queries,
    ensures
        0 < g.queries as int / g.keys as int,
        0 <= h * g.width,
        h * g.width + g.width <= g.queries * g.width,
        0 <= g.key_of(h) < g.keys,
        0 <= g.key_of(h) * g.width,
        g.key_of(h) * g.width + g.width <= g.keys * g.width,
{
    let n = g.queries as int;
    let m = g.keys as int;
    let group = n / m;
    lemma_fundamental_div_mod(n, m);
    assert(n == m * group);
    assert(group > 0) by (nonlinear_arith)
        requires
            n == m * group,
            n > 0,
            m > 0,
    ;
    lemma_row_within(h, n, g.width as int);
    lemma_mul_is_commutative(m, group);
    lemma_split(h, m, group);
    lemma_row_within(g.key_of(h), m, g.width as int);
}

/// Head `h` of a row of numbers.
fn head_of<F: Float>(f: &F, row: &Vec<u32>, h: usize, width: usize, Ghost(e): Ghost<Seq<Fx>>) -> (out:
    Vec<u32>)
    requires
        computes_all(*f, e, row@),
        h * width + width <= row@.len(),
    ensures
        out@.len() == width,
        computes_all(*f, e.subrange(h * width, h * width + width), out@),
{
    let size: usize = row.len();
    proof {
        lemma_mul_nonnegative(h as int, width as int);
    }
    let start: usize = h * width;
    let out = part_of(row, start, width);
    proof {
        let p = e.subrange(start as int, start + width);
        assert forall|i: int| 0 <= i < p.len() implies computes(*f, p[i], #[trigger] out@[i]) by {
            assert(computes(*f, e[start + i], row@[start + i]));
        }
    }
    out
}

/// The scores of all rows for query head `h` of row `i`.
fn scores_for<F: Float>(
    f: &F,
    g: &Heads,
    q: &Vec<Vec<u32>>,
    k: &Vec<Vec<u32>>,
    i: usize,
    h: usize,
    kh: usize,
    Ghost(eq): Ghost<Seq<Seq<Fx>>>,
    Ghost(ek): Ghost<Seq<Seq<Fx>>>,
) -> (out: Vec<u32>)
    requires
        g.wf(),
        i < q@.len(),
        h < g.queries,
        kh == g.key_of(h as int),
        rows_compute(*f, eq, q@),
        rows_compute(*f, ek, k@),
        k@.len() == q@.len(),
        forall|r: int| 0 <= r < q@.len() ==> (#[trigger] q@[r])@.len() == g.queries * g.width,
        forall|r: int| 0 <= r < k@.len() ==> (#[trigger] k@[r])@.len() == g.keys * g.width,
    ensures
        computes_all(*f, g.scores(eq, ek, i as int, h as int), out@),
{
    proof {
        lemma_heads(*g, h as int);
        assert(computes_all(*f, eq[i as int], q@[i as int]@));
    }
    let qs = head_of(f, &q[i], h, g.width, Ghost(eq[i as int]));
    let ghost eqs = g.head(eq[i as int], h as int);
    let count: u32 = do_count(f, g.width);
    let root: u32 = do_sqrt(f, count, Ghost(Fx::Count(g.width)));
    let scale: u32 = do_over(
        f,
        ONE,
        root,
        Ghost(bits(ONE)),
        Ghost(sqrt_of(Fx::Count(g.width))),
    );
    let ghost es = g.scores(eq, ek, i as int, h as int);
    let mut out: Vec<u32> = Vec::new();
    for j in 0..q.len()
        invariant
            g.wf(),
            i < q@.len(),
            h < g.queries,
            kh == g.key_of(h as int),
            kh * g.width + g.width <= g.keys * g.width,
            eq.len() == q@.len(),
            rows_compute(*f, ek, k@),
            k@.len() == q@.len(),
            forall|r: int| 0 <= r < k@.len() ==> (#[trigger] k@[r])@.len() == g.keys * g.width,
            eqs == g.head(eq[i as int], h as int),
            qs@.len() == g.width,
            computes_all(*f, eqs, qs@),
            computes(*f, g.scale(), scale),
            es == g.scores(eq, ek, i as int, h as int),
            out@.len() == j,
            forall|x: int| 0 <= x < j ==> computes(*f, es[x], #[trigger] out@[x]),
    {
        if j <= i {
            proof {
                assert(computes_all(*f, ek[j as int], k@[j as int]@));
            }
            let ks = head_of(f, &k[j], kh, g.width, Ghost(ek[j as int]));
            let ghost eks = g.head(ek[j as int], kh as int);
            let ps = products_vec(f, &qs, &ks, Ghost(eqs), Ghost(eks));
            let dot: u32 = total_vec(f, &ps, Ghost(products(eqs, eks)));
            out.push(
                do_times(f, dot, scale, Ghost(total_seq(products(eqs, eks))), Ghost(g.scale())),
            );
        } else {
            out.push(NEG_INFINITY);
        }
    }
    out
}

/// The shares of a list of scores.
fn shares_of<F: Float>(f: &F, scores: &Vec<u32>, Ghost(es): Ghost<Seq<Fx>>) -> (out: Vec<u32>)
    requires
        computes_all(*f, es, scores@),
    ensures
        computes_all(*f, shares(es), out@),
{
    let top: u32 = max_vec(f, scores, Ghost(es));
    let ghost m = max_seq(es);
    let size: usize = scores.len();
    let mut ws: Vec<u32> = Vec::new();
    let mut sum: u32 = ZERO;
    for j in 0..size
        invariant
            size == scores@.len(),
            computes_all(*f, es, scores@),
            m == max_seq(es),
            computes(*f, m, top),
            ws@.len() == j,
            forall|x: int| 0 <= x < j ==> computes(*f, weight(es, x), #[trigger] ws@[x]),
            computes(*f, weight_sum(es, j as nat), sum),
    {
        let score: u32 = scores[j];
        let ghost e = es[j as int];
        let ghost p = exp_of(minus(e, m));
        let ghost before = weight_sum(es, j as nat);
        proof {
            assert(computes(*f, e, scores@[j as int]));
        }
        let mut w: u32 = score;
        if gt(score, NEG_INFINITY) {
            let d: u32 = do_minus(f, score, top, Ghost(e), Ghost(m));
            w = do_exp(f, d, Ghost(minus(e, m)));
            sum = do_plus(f, sum, w, Ghost(before), Ghost(p));
        }
        proof {
            lemma_if_greater(*f, e, bits(NEG_INFINITY), p, e, score, NEG_INFINITY, w);
            lemma_if_greater(
                *f,
                e,
                bits(NEG_INFINITY),
                plus(before, p),
                before,
                score,
                NEG_INFINITY,
                sum,
            );
        }
        ws.push(w);
    }
    let ghost total = weight_sum(es, es.len());
    let mut out: Vec<u32> = Vec::new();
    for j in 0..size
        invariant
            size == es.len() == ws@.len(),
            total == weight_sum(es, es.len()),
            computes(*f, total, sum),
            forall|x: int| 0 <= x < size ==> computes(*f, weight(es, x), #[trigger] ws@[x]),
            out@.len() == j,
            forall|x: int| 0 <= x < j ==> computes(*f, shares(es)[x], #[trigger] out@[x]),
    {
        let w: u32 = ws[j];
        let ghost e = weight(es, j as int);
        proof {
            assert(computes(*f, e, ws@[j as int]));
        }
        let mut s: u32 = w;
        if gt(w, ZERO) {
            s = do_over(f, w, sum, Ghost(e), Ghost(total));
        }
        proof {
            lemma_if_greater(*f, e, bits(ZERO), over(e, total), e, w, ZERO, s);
        }
        out.push(s);
    }
    out
}

/// The average of one place of the values of the rows up to `i`.
fn average_at<F: Float>(
    f: &F,
    g: &Heads,
    ss: &Vec<u32>,
    v: &Vec<Vec<u32>>,
    i: usize,
    h: usize,
    kh: usize,
    t: usize,
    Ghost(es): Ghost<Seq<Fx>>,
    Ghost(ev): Ghost<Seq<Seq<Fx>>>,
) -> (r: u32)
    requires
        g.wf(),
        h < g.queries,
        kh == g.key_of(h as int),
        t < g.width,
        i < v@.len(),
        ss@.len() == v@.len(),
        computes_all(*f, es, ss@),
        rows_compute(*f, ev, v@),
        forall|r: int| 0 <= r < v@.len() ==> (#[trigger] v@[r])@.len() == g.keys * g.width,
    ensures
        computes(
            *f,
            averaged(es, g.values(ev, i as int, h as int, t as int), (i + 1) as nat),
            r,
        ),
{
    let ghost vals = g.values(ev, i as int, h as int, t as int);
    proof {
        lemma_heads(*g, h as int);
    }
    let rows: usize = v.len();
    let at: usize = kh * g.width + t;
    let end: usize = i + 1;
    let mut acc: u32 = ZERO;
    for j in 0..end
        invariant
            end == i + 1,
            i < v@.len(),
            t < g.width,
            at == kh * g.width + t,
            kh == g.key_of(h as int),
            0 <= kh * g.width,
            at < g.keys * g.width,
            kh * g.width + g.width <= g.keys * g.width,
            ss@.len() == v@.len(),
            computes_all(*f, es, ss@),
            rows_compute(*f, ev, v@),
            forall|r: int| 0 <= r < v@.len() ==> (#[trigger] v@[r])@.len() == g.keys * g.width,
            vals == g.values(ev, i as int, h as int, t as int),
            computes(*f, averaged(es, vals, j as nat), acc),
    {
        let ghost before = averaged(es, vals, j as nat);
        let ghost e = es[j as int];
        let ghost x = vals[j as int];
        let w: u32 = ss[j];
        proof {
            assert(computes(*f, e, ss@[j as int]));
            assert(computes_all(*f, ev[j as int], v@[j as int]@));
            assert(x == ev[j as int][at as int]);
        }
        if !ge(ZERO, w) {
            let y: u32 = v[j][at];
            proof {
                assert(computes(*f, ev[j as int][at as int], v@[j as int]@[at as int]));
            }
            let p: u32 = do_times(f, w, y, Ghost(e), Ghost(x));
            acc = do_plus(f, acc, p, Ghost(before), Ghost(times(e, x)));
        }
        proof {
            lemma_if_at_least(
                *f,
                bits(ZERO),
                e,
                before,
                plus(before, times(e, x)),
                ZERO,
                w,
                acc,
            );
        }
    }
    acc
}

/// Row `i` of the result.
fn attend_row<F: Float>(
    f: &F,
    g: &Heads,
    q: &Vec<Vec<u32>>,
    k: &Vec<Vec<u32>>,
    v: &Vec<Vec<u32>>,
    i: usize,
    Ghost(eq): Ghost<Seq<Seq<Fx>>>,
    Ghost(ek): Ghost<Seq<Seq<Fx>>>,
    Ghost(ev): Ghost<Seq<Seq<Fx>>>,
) -> (out: Vec<u32>)
    requires
        g.wf(),
        i < q@.len(),
        k@.len() == q@.len(),
        v@.len() == q@.len(),
        rows_compute(*f, eq, q@),
        rows_compute(*f, ek, k@),
        rows_compute(*f, ev, v@),
        forall|r: int| 0 <= r < q@.len() ==> (#[trigger] q@[r])@.len() == g.queries * g.width,
        forall|r: int| 0 <= r < k@.len() ==> (#[trigger] k@[r])@.len() == g.keys * g.width,
        forall|r: int| 0 <= r < v@.len() ==> (#[trigger] v@[r])@.len() == g.keys * g.width,
    ensures
        computes_all(*f, g.attended(eq, ek, ev, i as int), out@),
{
    proof {
        lemma_heads(*g, 0);
        lemma_mul_basics(g.width as int);
    }
    let group: usize = g.queries / g.keys;
    let ghost want = g.attended(eq, ek, ev, i as int);
    let mut out: Vec<u32> = Vec::new();
    for h in 0..g.queries
        invariant
            g.wf(),
            i < q@.len(),
            k@.len() == q@.len(),
            v@.len() == q@.len(),
            rows_compute(*f, eq, q@),
            rows_compute(*f, ek, k@),
            rows_compute(*f, ev, v@),
            forall|r: int| 0 <= r < q@.len() ==> (#[trigger] q@[r])@.len() == g.queries * g.width,
            forall|r: int| 0 <= r < k@.len() ==> (#[trigger] k@[r])@.len() == g.keys * g.width,
            forall|r: int| 0 <= r < v@.len() ==> (#[trigger] v@[r])@.len() == g.keys * g.width,
            group == g.queries as int / g.keys as int,
            group > 0,
            want == g.attended(eq, ek, ev, i as int),
            out@.len() == h * g.width,
            forall|x: int| 0 <= x < h * g.width ==> computes(*f, want[x], #[trigger] out@[x]),
    {
        proof {
            lemma_heads(*g, h as int);
            assert((h + 1) * g.width == h * g.width + g.width) by (nonlinear_arith);
        }
        let kh: usize = h / group;
        let ghost base = h * g.width;
        let sc = scores_for(f, g, q, k, i, h, kh, Ghost(eq), Ghost(ek));
        let ghost esc = g.scores(eq, ek, i as int, h as int);
        let ss = shares_of(f, &sc, Ghost(esc));
        for t in 0..g.width
            invariant
                g.wf(),
                i < v@.len(),
                v@.len() == eq.len(),
                h < g.queries,
                kh == g.key_of(h as int),
                rows_compute(*f, ev, v@),
                forall|r: int| 0 <= r < v@.len() ==> (#[trigger] v@[r])@.len() == g.keys * g.width,
                want == g.attended(eq, ek, ev, i as int),
                esc == g.scores(eq, ek, i as int, h as int),
                ss@.len() == v@.len(),
                computes_all(*f, shares(esc), ss@),
                base == h * g.width,
                base + g.width <= g.queries * g.width,
                out@.len() == base + t,
                forall|x: int| 0 <= x < base + t ==> computes(*f, want[x], #[trigger] out@[x]),
        {
            let a: u32 = average_at(f, g, &ss, v, i, h, kh, t, Ghost(shares(esc)), Ghost(ev));
            out.push(a);
            proof {
                lemma_row_major(h as int, t as int, g.queries as int, g.width as int);
            }
        }
    }
    out
}

/// Attention over the rows of a prompt.
pub(crate) fn attend<F: Float>(
    f: &F,
    g: &Heads,
    q: &Vec<Vec<u32>>,
    k: &Vec<Vec<u32>>,
    v: &Vec<Vec<u32>>,
    Ghost(eq): Ghost<Seq<Seq<Fx>>>,
    Ghost(ek): Ghost<Seq<Seq<Fx>>>,
    Ghost(ev): Ghost<Seq<Seq<Fx>>>,
) -> (out: Vec<Vec<u32>>)
    requires
        g.wf(),
        k@.len() == q@.len(),
        v@.len() == q@.len(),
        rows_compute(*f, eq, q@),
        rows_compute(*f, ek, k@),
        rows_compute(*f, ev, v@),
        forall|r: int| 0 <= r < q@.len() ==> (#[trigger] q@[r])@.len() == g.queries * g.width,
        forall|r: int| 0 <= r < k@.len() ==> (#[trigger] k@[r])@.len() == g.keys * g.width,
        forall|r: int| 0 <= r < v@.len() ==> (#[trigger] v@[r])@.len() == g.keys * g.width,
    ensures
        rows_compute(*f, g.attention(eq, ek, ev), out@),
{
    let mut out: Vec<Vec<u32>> = Vec::new();
    for i in 0..q.len()
        invariant
            g.wf(),
            k@.len() == q@.len(),
            v@.len() == q@.len(),
            rows_compute(*f, eq, q@),
            rows_compute(*f, ek, k@),
            rows_compute(*f, ev, v@),
            forall|r: int| 0 <= r < q@.len() ==> (#[trigger] q@[r])@.len() == g.queries * g.width,
            forall|r: int| 0 <= r < k@.len() ==> (#[trigger] k@[r])@.len() == g.keys * g.width,
            forall|r: int| 0 <= r < v@.len() ==> (#[trigger] v@[r])@.len() == g.keys * g.width,
            out@.len() == i,
            forall|x: int|
                0 <= x < i ==> computes_all(
                    *f,
                    g.attended(eq, ek, ev, x),
                    (#[trigger] out@[x])@,
                ),
    {
        let row = attend_row(f, g, q, k, v, i, Ghost(eq), Ghost(ek), Ghost(ev));
        out.push(row);
    }
    out
}

} // verus!
