//! Query heads that share key heads.

use crate::exact::{
    all_numbers, exact, exponential, is_number, lemma_constants, lemma_rsum_positive,
    lemma_rsum_same, lemma_sum_onto, number, rooted, rsum, Exact, Value,
};
use crate::float::{Fx, NEG_ZERO};
use crate::kernels::movement::lemma_row_major;
use crate::kernels::rows::{max_seq, products, total_seq};
use crate::laws::attention::{lemma_average, softmax_average};
use crate::laws::heads::{is_score, lemma_same_average, lemma_shares, lemma_top, seen_up_to};
use crate::llama::attend::{averaged, shares, weight, weight_sum, Heads};
use vstd::arithmetic::div_mod::*;
use vstd::prelude::*;

verus! {

proof fn lemma_weight_sum(m: Exact, es: Seq<Fx>, keep: int, n: nat)
    requires
        0 < keep <= es.len(),
        n <= es.len(),
        seen_up_to(m, es, keep),
        is_number(m, max_seq(es)),
    ensures
        exact(m, weight_sum(es, n)) == Value::Num(
            rsum(
                if n < keep {
                    n
                } else {
                    keep as nat
                },
                |j: int| (m.exp)(number(m, es[j]) - number(m, max_seq(es))),
            ),
        ),
    decreases n,
{
    reveal_with_fuel(exact, 4);
    lemma_constants();
    if n > 0 {
        lemma_weight_sum(m, es, keep, (n - 1) as nat);
        if n - 1 < keep {
            assert(is_number(m, es[n - 1]));
        } else {
            assert(exact(m, es[n - 1]) == Value::Low);
        }
    }
}

/// The share of a score that is seen.
proof fn lemma_share(m: Exact, es: Seq<Fx>, j: int)
    requires
        exponential(m),
        0 <= j < es.len(),
        is_number(m, es[j]),
        is_number(m, max_seq(es)),
        is_number(m, weight_sum(es, es.len())),
        number(m, weight_sum(es, es.len())) > 0real,
    ensures
        exact(m, shares(es)[j]) == Value::Num(
            (m.exp)(number(m, es[j]) - number(m, max_seq(es))) / number(
                m,
                weight_sum(es, es.len()),
            ),
        ),
        number(m, shares(es)[j]) > 0real,
{
    reveal_with_fuel(exact, 4);
    lemma_constants();
    let x = number(m, es[j]) - number(m, max_seq(es));
    let t = number(m, weight_sum(es, es.len()));
    let w = (m.exp)(x);
    assert(w > 0real);
    assert(exact(m, weight(es, j)) == Value::Num(w));
    assert(w / t > 0real) by (nonlinear_arith)
        requires
            w > 0real,
            t > 0real,
    ;
}

proof fn lemma_averaged(m: Exact, ss: Seq<Fx>, vs: Seq<Fx>, n: nat)
    requires
        n <= ss.len(),
        n <= vs.len(),
        all_numbers(m, vs),
        forall|j: int|
            0 <= j < n ==> is_number(m, #[trigger] ss[j]) && number(m, ss[j]) > 0real,
    ensures
        exact(m, averaged(ss, vs, n)) == Value::Num(
            rsum(n, |j: int| number(m, ss[j]) * number(m, vs[j])),
        ),
    decreases n,
{
    reveal_with_fuel(exact, 3);
    lemma_constants();
    if n > 0 {
        lemma_averaged(m, ss, vs, (n - 1) as nat);
        assert(is_number(m, ss[n - 1]));
        assert(is_number(m, vs[n - 1]));
    }
}

/// Shares of scores, up to a place, average the values.
proof fn lemma_seen_average(m: Exact, es: Seq<Fx>, keep: int, vs: Seq<Fx>)
    requires
        exponential(m),
        0 < keep <= es.len(),
        vs.len() == keep,
        all_numbers(m, vs),
        seen_up_to(m, es, keep),
    ensures
        softmax_average(
            m,
            keep as nat,
            |j: int| number(m, es[j]),
            |j: int| number(m, vs[j]),
            averaged(shares(es), vs, keep as nat),
        ),
{
    assert forall|j: int| 0 <= j < es.len() implies is_score(m, #[trigger] es[j]) by {}
    lemma_top(m, es);
    assert(is_number(m, es[0]));
    let top = number(m, max_seq(es));
    let n = keep as nat;
    lemma_weight_sum(m, es, keep, es.len());
    let s = |j: int| number(m, es[j]);
    let v = |j: int| number(m, vs[j]);
    let f = |j: int| (m.exp)(s(j) - top);
    lemma_rsum_same(n, |j: int| (m.exp)(number(m, es[j]) - number(m, max_seq(es))), f);
    lemma_rsum_positive(n, f);
    let total = rsum(n, f);
    let ss = shares(es);
    assert forall|j: int| 0 <= j < n implies is_number(m, #[trigger] ss[j]) && number(m, ss[j])
        > 0real && number(m, ss[j]) == f(j) / total by {
        assert(is_number(m, es[j]));
        lemma_share(m, es, j);
    }
    lemma_averaged(m, ss, vs, n);
    let out = averaged(ss, vs, n);
    lemma_rsum_same(
        n,
        |j: int| number(m, ss[j]) * number(m, vs[j]),
        |j: int| (f(j) / total) * v(j),
    );
    lemma_shares(n, f, v, total);
    lemma_rsum_same(n, |j: int| f(j) * v(j), |j: int| (m.exp)(s(j) - top) * v(j));
    lemma_rsum_same(n, f, |j: int| (m.exp)(s(j) - top));
    lemma_average(m, n, s, v, top, out);
}

/// Query head `c * group + s` lies in group `c`.
proof fn lemma_group(g: Heads, c: int, s: int)
    requires
        g.wf(),
        0 <= c < g.keys,
        0 <= s < g.queries as int / g.keys as int,
    ensures
        ({
            let h = c * (g.queries as int / g.keys as int) + s;
            &&& 0 <= h < g.queries
            &&& g.key_of(h) == c
            &&& 0 <= h * g.width
            &&& h * g.width + g.width <= g.queries * g.width
            &&& 0 <= c * g.width
            &&& c * g.width + g.width <= g.keys * g.width
        }),
{
    let group = g.queries as int / g.keys as int;
    let h = c * group + s;
    let w = g.width as int;
    lemma_fundamental_div_mod(g.queries as int, g.keys as int);
    assert(0 <= h < g.queries) by (nonlinear_arith)
        requires
            h == c * group + s,
            0 <= c < g.keys,
            0 <= s < group,
            g.queries == g.keys * group,
    ;
    lemma_fundamental_div_mod_converse(h, group, c, s);
    assert(0 <= h * w && h * w + w <= g.queries * w) by (nonlinear_arith)
        requires
            0 <= h < g.queries,
            w >= 0,
    ;
    assert(0 <= c * w && c * w + w <= g.keys * w) by (nonlinear_arith)
        requires
            0 <= c < g.keys,
            w >= 0,
    ;
}

/// The score of a row that is seen.
proof fn lemma_group_score(
    m: Exact,
    g: Heads,
    q: Seq<Seq<Fx>>,
    k: Seq<Seq<Fx>>,
    i: int,
    c: int,
    s: int,
    j: int,
)
    requires
        rooted(m),
        g.wf(),
        g.width > 0,
        0 <= j <= i < q.len(),
        i < k.len(),
        q[i].len() == g.queries * g.width,
        k[j].len() == g.keys * g.width,
        all_numbers(m, q[i]),
        all_numbers(m, k[j]),
        0 <= c < g.keys,
        0 <= s < g.queries as int / g.keys as int,
    ensures
        ({
            let h = c * (g.queries as int / g.keys as int) + s;
            exact(m, g.score(q, k, i, h, j)) == Value::Num(
                rsum(
                    g.width as nat,
                    |u: int|
                        number(m, q[i][h * g.width + u]) * number(m, k[j][c * g.width + u]),
                ) / (m.sqrt)(g.width as real),
            )
        }),
{
    reveal_with_fuel(exact, 4);
    lemma_constants();
    lemma_group(g, c, s);
    let h = c * (g.queries as int / g.keys as int) + s;
    let a = g.head(q[i], h);
    let b = g.head(k[j], c);
    let ps = products(a, b);
    assert forall|u: int| 0 <= u < ps.len() implies is_number(m, #[trigger] ps[u]) && number(
        m,
        ps[u],
    ) == number(m, q[i][h * g.width + u]) * number(m, k[j][c * g.width + u]) by {
        assert(is_number(m, q[i][h * g.width + u]));
        assert(is_number(m, k[j][c * g.width + u]));
    }
    lemma_sum_onto(m, NEG_ZERO, ps);
    lemma_rsum_same(
        g.width as nat,
        |u: int| number(m, ps[u]),
        |u: int| number(m, q[i][h * g.width + u]) * number(m, k[j][c * g.width + u]),
    );
    let x = number(m, total_seq(ps));
    let r = (m.sqrt)(g.width as real);
    assert(g.width as real > 0real);
    assert(r > 0real);
    assert(x * (1real / r) == x / r) by (nonlinear_arith)
        requires
            r > 0real,
    ;
    assert(exact(m, g.scale()) == Value::Num(1real / r));
}

/// Query heads share key heads in consecutive groups: over the real numbers,
/// the head `c * group + s` of a row is the average of the values of head `c`
/// in the rows up to its own, weighted by the exponentials of the products of
/// that query head with key head `c`, over the root of the width.
pub proof fn law_query_heads_share_in_groups(
    m: Exact,
    g: Heads,
    q: Seq<Seq<Fx>>,
    k: Seq<Seq<Fx>>,
    v: Seq<Seq<Fx>>,
    i: int,
    c: int,
    s: int,
    t: int,
)
    requires
        exponential(m),
        rooted(m),
        g.wf(),
        0 <= i < q.len(),
        k.len() == q.len(),
        v.len() == q.len(),
        forall|r: int|
            0 <= r < q.len() ==> (#[trigger] q[r]).len() == g.queries * g.width && all_numbers(
                m,
                q[r],
            ),
        forall|r: int|
            0 <= r < k.len() ==> (#[trigger] k[r]).len() == g.keys * g.width && all_numbers(
                m,
                k[r],
            ),
        forall|r: int|
            0 <= r < v.len() ==> (#[trigger] v[r]).len() == g.keys * g.width && all_numbers(
                m,
                v[r],
            ),
        0 <= c < g.keys,
        0 <= s < g.queries as int / g.keys as int,
        0 <= t < g.width,
    ensures
        ({
            let h = c * (g.queries as int / g.keys as int) + s;
            let w = g.width as int;
            softmax_average(
                m,
                (i + 1) as nat,
                |j: int|
                    rsum(
                        w as nat,
                        |u: int| number(m, q[i][h * w + u]) * number(m, k[j][c * w + u]),
                    ) / (m.sqrt)(w as real),
                |j: int| number(m, v[j][c * w + t]),
                g.attention(q, k, v)[i][h * w + t],
            )
        }),
{
    let h = c * (g.queries as int / g.keys as int) + s;
    let w = g.width as int;
    lemma_group(g, c, s);
    lemma_row_major(h, t, g.queries as int, w);
    lemma_fundamental_div_mod_converse(h * w + t, w, h, t);
    let es = g.scores(q, k, i, h);
    let vs = g.values(v, i, h, t);
    let sc = |j: int|
        rsum(w as nat, |u: int| number(m, q[i][h * w + u]) * number(m, k[j][c * w + u])) / (m.sqrt)(
            w as real,
        );
    let vc = |j: int| number(m, v[j][c * w + t]);
    let f = |j: int| number(m, es[j]);
    let y = |j: int| number(m, vs[j]);
    assert forall|j: int| 0 <= j <= i implies is_number(m, #[trigger] es[j]) && f(j) == sc(j) by {
        assert(q[i].len() == g.queries * g.width);
        assert(k[j].len() == g.keys * g.width);
        lemma_group_score(m, g, q, k, i, c, s, j);
    }
    assert forall|j: int| i < j < q.len() implies exact(m, #[trigger] es[j]) == Value::Low by {
        lemma_constants();
    }
    assert forall|j: int| 0 <= j <= i implies is_number(m, #[trigger] vs[j]) && y(j) == vc(j) by {
        assert(v[j].len() == g.keys * g.width);
        assert(is_number(m, v[j][c * w + t]));
        assert(vs[j] == v[j][c * w + t]);
    }
    lemma_seen_average(m, es, i + 1, vs);
    let n = (i + 1) as nat;
    let out = g.attention(q, k, v)[i][h * w + t];
    assert(out == averaged(shares(es), vs, n));
    assert forall|j: int| 0 <= j < n implies #[trigger] f(j) == sc(j) by {
        assert(is_number(m, es[j]));
    }
    assert forall|j: int| 0 <= j < n implies #[trigger] y(j) == vc(j) by {
        assert(is_number(m, vs[j]));
    }
    lemma_same_average(m, n, f, y, sc, vc, out);
}

} // verus!
