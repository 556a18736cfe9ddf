//! What a layer of a language model is.

use crate::exact::{
    all_finite, all_numbers, exact, exponential, is_finite, is_number, lemma_rsum_positive,
    lemma_rsum_same, number, real_of, rooted, rsum, Exact, Value,
};
use crate::float::{bits, plus, Fx};
use crate::kernels::movement::lemma_split;
use crate::laws::attention::softmax_average;
use crate::laws::grouped::law_query_heads_share_in_groups;
use crate::laws::rows::average;
use crate::laws::steps::{
    law_gated_numbers, law_normed_rows_divide, law_rows_multiply, lemma_quotient, lemma_turned,
};
use crate::llama::model::{normed_rows, turned_rows, Layer, Llama, LlamaDims, WeightView};
use crate::llama::steps::{gated, multiplied, normed};
use vstd::arithmetic::div_mod::*;
use vstd::prelude::*;

verus! {

/// The root of the mean of the squares of a row, moved by `eps`.
pub open spec fn root_mean_square(m: Exact, x: Seq<Fx>, eps: u32) -> real {
    (m.sqrt)(average(x.len(), |j: int| number(m, x[j]) * number(m, x[j])) + real_of(eps))
}

/// Row `x` times column `e` of a matrix of `n` columns.
pub open spec fn by_column(len: nat, x: spec_fn(int) -> real, w: Seq<u32>, n: nat, e: int) -> real {
    rsum(len, |t: int| x(t) * real_of(w[t * n + e]))
}

/// The numbers of a normalized row are determined by the row.
proof fn lemma_normed_row(
    m: Exact,
    x: Seq<Fx>,
    w: Seq<u32>,
    eps: u32,
    y: spec_fn(int) -> real,
)
    requires
        rooted(m),
        all_numbers(m, x),
        all_finite(w),
        is_finite(eps),
        real_of(eps) > 0real,
        0 < x.len() <= usize::MAX,
        w.len() == x.len(),
        forall|t: int|
            0 <= t < x.len() ==> #[trigger] y(t) * root_mean_square(m, x, eps) == number(m, x[t])
                * real_of(w[t]),
    ensures
        all_numbers(m, normed(x, w, eps)),
        forall|t: int|
            0 <= t < x.len() ==> number(m, #[trigger] normed(x, w, eps)[t]) == y(t),
{
    let ys = normed(x, w, eps);
    assert forall|t: int| 0 <= t < ys.len() implies is_number(m, #[trigger] ys[t]) && number(
        m,
        ys[t],
    ) == y(t) by {
        law_normed_rows_divide(m, x, w, eps, t);
        let z = root_mean_square(m, x, eps);
        let (a, b) = (number(m, ys[t]), y(t));
        lemma_quotient(a, number(m, x[t]) * real_of(w[t]), z);
        lemma_quotient(b, number(m, x[t]) * real_of(w[t]), z);
    }
}

/// The numbers of a product, by the numbers of the row.
proof fn lemma_by_column(
    m: Exact,
    x: Seq<Fx>,
    f: spec_fn(int) -> real,
    w: Seq<u32>,
    n: nat,
)
    requires
        all_numbers(m, x),
        all_finite(w),
        x.len() * n <= w.len(),
        forall|t: int| 0 <= t < x.len() ==> number(m, #[trigger] x[t]) == f(t),
    ensures
        multiplied(x, w, n).len() == n,
        all_numbers(m, multiplied(x, w, n)),
        forall|e: int|
            0 <= e < n ==> number(m, #[trigger] multiplied(x, w, n)[e]) == by_column(
                x.len(),
                f,
                w,
                n,
                e,
            ),
{
    let out = multiplied(x, w, n);
    assert forall|e: int| 0 <= e < out.len() implies is_number(m, #[trigger] out[e]) && number(
        m,
        out[e],
    ) == by_column(x.len(), f, w, n, e) by {
        law_rows_multiply(m, x, w, n, e);
        let l = |t: int| number(m, x[t]) * real_of(w[t * n + e]);
        let r = |t: int| f(t) * real_of(w[t * n + e]);
        assert forall|t: int| 0 <= t < x.len() implies #[trigger] l(t) == r(t) by {
            assert(number(m, x[t]) == f(t));
        }
        lemma_rsum_same(x.len(), l, r);
    }
}

/// The feeding step of a layer: over the real numbers, a row is normalized,
/// `z` holds the numbers that its `gate` columns let through of its `up`
/// columns, and the row has the `down` columns of these added.
pub proof fn law_layer_feeds(
    m: Exact,
    l: Layer,
    d: LlamaDims,
    x: Seq<Seq<Fx>>,
    gate: Seq<u32>,
    up: Seq<u32>,
    down: Seq<u32>,
    y: spec_fn(int) -> real,
    z: spec_fn(int) -> real,
    i: int,
    j: int,
)
    requires
        exponential(m),
        rooted(m),
        l.gate@ == WeightView::Plain(gate),
        l.up@ == WeightView::Plain(up),
        l.down@ == WeightView::Plain(down),
        l.wf(d),
        all_finite(l.ffn_norm@) && all_finite(gate) && all_finite(up) && all_finite(down),
        is_finite(d.eps),
        real_of(d.eps) > 0real,
        0 <= i < x.len(),
        x[i].len() == d.width(),
        d.width() <= usize::MAX,
        all_numbers(m, x[i]),
        0 <= j < d.width(),
        forall|t: int|
            0 <= t < d.width() ==> #[trigger] y(t) * root_mean_square(m, x[i], d.eps) == number(
                m,
                x[i][t],
            ) * real_of(l.ffn_norm@[t]),
        forall|e: int|
            0 <= e < d.inner ==> ({
                let g = by_column(d.width(), y, gate, d.inner as nat, e);
                let u = by_column(d.width(), y, up, d.inner as nat, e);
                #[trigger] z(e) * ((m.exp)(g) + 1real) == (g * u) * (m.exp)(g)
            }),
    ensures
        exact(m, l.fed(d, x)[i][j]) == Value::Num(
            number(m, x[i][j]) + by_column(d.inner as nat, z, down, d.width(), j),
        ),
{
    let w = d.width();
    let n = d.inner as nat;
    let ys = normed(x[i], l.ffn_norm@, d.eps);
    lemma_normed_row(m, x[i], l.ffn_norm@, d.eps, y);
    lemma_by_column(m, ys, y, gate, n);
    lemma_by_column(m, ys, y, up, n);
    let (gs, us) = (multiplied(ys, gate, n), multiplied(ys, up, n));
    let zs = gated(gs, us);
    assert forall|e: int| 0 <= e < zs.len() implies is_number(m, #[trigger] zs[e]) && number(
        m,
        zs[e],
    ) == z(e) by {
        law_gated_numbers(m, gs, us, e);
        let g = by_column(w, y, gate, n, e);
        let u = by_column(w, y, up, n, e);
        assert(number(m, gs[e]) == g && number(m, us[e]) == u);
        let k = (m.exp)(g);
        assert(k > 0real);
        let (a, b) = (number(m, zs[e]), z(e));
        lemma_quotient(a, (g * u) * k, k + 1real);
        lemma_quotient(b, (g * u) * k, k + 1real);
    }
    lemma_by_column(m, zs, z, down, w);
    let out = multiplied(zs, down, w);
    assert(is_number(m, out[j]) && is_number(m, x[i][j]));
    assert(l.fed(d, x)[i][j] == plus(x[i][j], out[j]));
}

/// The rows of a product with a matrix.
pub open spec fn rows_by(y: Seq<Seq<Fx>>, w: Seq<u32>, n: nat) -> Seq<Seq<Fx>> {
    Seq::new(y.len(), |i: int| multiplied(y[i], w, n))
}

/// The attending step of a layer: over the real numbers, every row has the
/// `output` columns of `a` added, and `a` holds, head by head, the averages of
/// the values of the rows up to it, weighted by the exponentials of the
/// products of its turned queries with their turned keys over the root of the
/// width. Queries, keys and values are the columns of `q`, `k` and `v` of the
/// normalized rows; query heads share key heads in consecutive groups.
pub proof fn law_layer_attends(
    m: Exact,
    l: Layer,
    d: LlamaDims,
    x: Seq<Seq<Fx>>,
    q: Seq<u32>,
    k: Seq<u32>,
    v: Seq<u32>,
    output: Seq<u32>,
    a: spec_fn(int) -> real,
    i: int,
    j: int,
)
    requires
        exponential(m),
        rooted(m),
        d.heads.wf(),
        l.q@ == WeightView::Plain(q),
        l.k@ == WeightView::Plain(k),
        l.v@ == WeightView::Plain(v),
        l.output@ == WeightView::Plain(output),
        l.wf(d),
        all_finite(l.attn_norm@) && all_finite(q) && all_finite(k) && all_finite(v),
        all_finite(output),
        is_finite(d.eps) && is_finite(d.base),
        real_of(d.eps) > 0real,
        0 <= i < x.len() <= usize::MAX,
        forall|r: int|
            0 <= r < x.len() ==> (#[trigger] x[r]).len() == d.width() && all_numbers(m, x[r]),
        0 <= j < d.width(),
        ({
            let y = normed_rows(x, l.attn_norm@, d.eps);
            let tq = turned_rows(rows_by(y, q, d.width()), d);
            let tk = turned_rows(rows_by(y, k, d.key_width()), d);
            let vs = rows_by(y, v, d.key_width());
            let w = d.heads.width as int;
            let group = d.heads.queries as int / d.heads.keys as int;
            forall|e: int|
                0 <= e < d.width() ==> ({
                    let h = e / w;
                    let c = h / group;
                    let t = e % w;
                    let s = |r: int|
                        (m.exp)(
                            rsum(
                                w as nat,
                                |u: int| number(m, tq[i][h * w + u]) * number(m, tk[r][c * w + u]),
                            ) / (m.sqrt)(w as real),
                        );
                    #[trigger] a(e) * rsum((i + 1) as nat, s) == rsum(
                        (i + 1) as nat,
                        |r: int| s(r) * number(m, vs[r][c * w + t]),
                    )
                })
        }),
    ensures
        exact(m, l.attended(d, x)[i][j]) == Value::Num(
            number(m, x[i][j]) + by_column(d.width(), a, output, d.width(), j),
        ),
{
    let n = d.width();
    let kn = d.key_width();
    let g = d.heads;
    let w = g.width as int;
    let group = g.queries as int / g.keys as int;
    let y = normed_rows(x, l.attn_norm@, d.eps);
    let (mq, mk, vs) = (rows_by(y, q, n), rows_by(y, k, kn), rows_by(y, v, kn));
    let (tq, tk) = (turned_rows(mq, d), turned_rows(mk, d));
    assert forall|r: int| 0 <= r < x.len() implies (#[trigger] mq[r]).len() == n && all_numbers(
        m,
        mq[r],
    ) && mk[r].len() == kn && all_numbers(m, mk[r]) && vs[r].len() == kn && all_numbers(
        m,
        vs[r],
    ) by {
        assert(x[r].len() == d.width());
        let z = root_mean_square(m, x[r], d.eps);
        let f = |t: int| number(m, normed(x[r], l.attn_norm@, d.eps)[t]);
        assert forall|t: int| 0 <= t < n implies #[trigger] f(t) * z == number(m, x[r][t]) * real_of(
            l.attn_norm@[t],
        ) by {
            law_normed_rows_divide(m, x[r], l.attn_norm@, d.eps, t);
        }
        lemma_normed_row(m, x[r], l.attn_norm@, d.eps, f);
        lemma_by_column(m, y[r], f, q, n);
        lemma_by_column(m, y[r], f, k, kn);
        lemma_by_column(m, y[r], f, v, kn);
    }
    assert(w > 0) by (nonlinear_arith)
        requires
            0 <= j < g.queries * w,
            w >= 0,
    ;
    lemma_multiple(g.queries as int, w);
    lemma_multiple(g.keys as int, w);
    assert forall|r: int| 0 <= r < x.len() implies (#[trigger] tq[r]).len() == n && all_numbers(
        m,
        tq[r],
    ) by {
        assert(mq[r].len() == n);
        lemma_turned(m, d, mq, r);
    }
    assert forall|r: int| 0 <= r < x.len() implies (#[trigger] tk[r]).len() == kn && all_numbers(
        m,
        tk[r],
    ) by {
        assert(mq[r].len() == n);
        lemma_turned(m, d, mk, r);
    }
    assert forall|r: int| 0 <= r < x.len() implies (#[trigger] vs[r]).len() == kn && all_numbers(
        m,
        vs[r],
    ) by {
        assert(mq[r].len() == n);
    }
    let at = g.attention(tq, tk, vs);
    assert forall|e: int| 0 <= e < at[i].len() implies is_number(m, #[trigger] at[i][e]) && number(
        m,
        at[i][e],
    ) == a(e) by {
        lemma_split(e, g.queries as int, w);
        let h = e / w;
        let t = e % w;
        lemma_groups(g.queries as int, g.keys as int, h);
        let c = h / group;
        let s0 = h % group;
        assert(h == c * group + s0);
        law_query_heads_share_in_groups(m, g, tq, tk, vs, i, c, s0, t);
        let sc = |r: int|
            rsum(
                w as nat,
                |u: int| number(m, tq[i][h * w + u]) * number(m, tk[r][c * w + u]),
            ) / (m.sqrt)(w as real);
        let vc = |r: int| number(m, vs[r][c * w + t]);
        let out = at[i][e];
        assert(softmax_average(m, (i + 1) as nat, sc, vc, out));
        let ex = |r: int| (m.exp)(sc(r));
        let s = |r: int|
            (m.exp)(
                rsum(
                    w as nat,
                    |u: int| number(m, tq[i][h * w + u]) * number(m, tk[r][c * w + u]),
                ) / (m.sqrt)(w as real),
            );
        let k1 = (i + 1) as nat;
        lemma_rsum_same(k1, ex, s);
        lemma_rsum_same(k1, |r: int| (m.exp)(sc(r)) * vc(r), |r: int| s(r) * number(m, vs[r][c * w + t]));
        lemma_rsum_same(k1, |r: int| (m.exp)(sc(r)), ex);
        lemma_rsum_positive(k1, s);
        let (p, b, tot) = (number(m, out), a(e), rsum(k1, s));
        let num = rsum(k1, |r: int| s(r) * number(m, vs[r][c * w + t]));
        assert(b * tot == num);
        lemma_quotient(p, num, tot);
        lemma_quotient(b, num, tot);
    }
    lemma_by_column(m, at[i], a, output, n);
    let out = multiplied(at[i], output, n);
    assert(x[i].len() == n);
    assert(is_number(m, out[j]) && is_number(m, x[i][j]));
    assert(l.q@.projected_rows(y, n) =~= mq);
    assert(l.k@.projected_rows(y, kn) =~= mk);
    assert(l.v@.projected_rows(y, kn) =~= vs);
    assert(l.attended(d, x)[i][j] == plus(x[i][j], out[j]));
}

/// The rows of a model begin with the embeddings of its tokens: number `j` of
/// the row of a token is number `j` of its line of the table.
pub proof fn law_rows_begin_embedded(m: &Llama, tokens: Seq<u32>, i: int, j: int)
    requires
        0 <= i < tokens.len(),
        0 <= j < m.dims.width(),
    ensures
        m.rows(tokens, 0).len() == tokens.len(),
        m.rows(tokens, 0)[i][j] == bits(m.embed@[tokens[i] * m.dims.width() + j]),
{
}

/// A layer attends and then feeds what came of that.
pub proof fn law_layers_follow(m: &Llama, tokens: Seq<u32>, n: nat)
    requires
        0 < n <= m.layers@.len(),
    ensures
        m.rows(tokens, n) == m.layers@[n - 1].fed(
            m.dims,
            m.layers@[n - 1].attended(m.dims, m.rows(tokens, (n - 1) as nat)),
        ),
{
}

/// The scores of the next token come from the last row alone: over the real
/// numbers they are the columns of the output matrix of that row, normalized.
pub proof fn law_logits_of_last_row(
    e: Exact,
    m: &Llama,
    tokens: Seq<u32>,
    output: Seq<u32>,
    y: spec_fn(int) -> real,
    j: int,
)
    requires
        rooted(e),
        m.wf(),
        tokens.len() > 0,
        m.output@ == WeightView::Plain(output),
        all_finite(output) && all_finite(m.output_norm@),
        is_finite(m.dims.eps),
        real_of(m.dims.eps) > 0real,
        0 < m.dims.width() <= usize::MAX,
        ({
            let x = m.rows(tokens, m.layers@.len());
            let last = x[x.len() - 1];
            &&& last.len() == m.dims.width()
            &&& all_numbers(e, last)
            &&& forall|t: int|
                0 <= t < m.dims.width() ==> #[trigger] y(t) * root_mean_square(
                    e,
                    last,
                    m.dims.eps,
                ) == number(e, last[t]) * real_of(m.output_norm@[t])
        }),
        0 <= j < m.dims.vocab,
    ensures
        exact(e, m.logits(tokens)[j]) == Value::Num(
            by_column(m.dims.width(), y, output, m.dims.vocab as nat, j),
        ),
{
    let last = m.rows(tokens, m.layers@.len()).last();
    lemma_normed_row(e, last, m.output_norm@, m.dims.eps, y);
    let ys = normed(last, m.output_norm@, m.dims.eps);
    lemma_by_column(e, ys, y, output, m.dims.vocab as nat);
    assert(is_number(e, multiplied(ys, output, m.dims.vocab as nat)[j]));
}

/// A multiple leaves no rest.
proof fn lemma_multiple(a: int, w: int)
    requires
        w > 0,
    ensures
        (a * w) % w == 0,
{
    lemma_fundamental_div_mod_converse(a * w, w, a, 0);
}

/// A query head lies in one of the groups.
proof fn lemma_groups(queries: int, keys: int, h: int)
    requires
        keys > 0,
        queries % keys == 0,
        0 <= h < queries,
    ensures
        ({
            let group = queries / keys;
            &&& group > 0
            &&& 0 <= h / group < keys
            &&& 0 <= h % group < group
            &&& h == (h / group) * group + h % group
        }),
{
    let group = queries / keys;
    lemma_fundamental_div_mod(queries, keys);
    assert(group > 0) by (nonlinear_arith)
        requires
            queries == keys * group,
            queries > 0,
            keys > 0,
    ;
    lemma_split(h, keys, group);
}

} // verus!
