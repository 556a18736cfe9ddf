//! Every attention is the average of the values, weighted by the exponentials
//! of the scores.

use crate::exact::{
    all_finite, exact, exponential, is_finite, is_number, lemma_constants, lemma_exp_minus,
    lemma_rsum_positive, lemma_rsum_same, lemma_rsum_scale, lemma_rsum_split, lemma_sum_onto,
    number, real_of, rsum, Exact, Value,
};
use crate::float::{bits, plus, times, Fx, ONE, ZERO};
use crate::kernels::flash::{
    after_tile, flash_attention_outcome, inverse_of, rescaled, tile_sum, tile_top, tile_weights,
    FlashGeometry, Running,
};
use crate::kernels::heads::stretch;
use crate::kernels::movement::{lemma_numel_3, lemma_row_major, lemma_split};
use crate::kernels::rows::{products, sum_seq};
use crate::sym::Outcome;
use crate::tensor::TensorView;
use vstd::arithmetic::div_mod::*;
use vstd::arithmetic::mul::*;
use vstd::prelude::*;

verus! {

/// `out` is the average of `v(0)`, ..., `v(n - 1)`, weighted by the
/// exponentials of `s(0)`, ..., `s(n - 1)`.
pub open spec fn softmax_average(
    m: Exact,
    n: nat,
    s: spec_fn(int) -> real,
    v: spec_fn(int) -> real,
    out: Fx,
) -> bool {
    &&& is_number(m, out)
    &&& number(m, out) * rsum(n, |j: int| (m.exp)(s(j))) == rsum(n, |j: int| (m.exp)(s(j)) * v(j))
}

/// The weight of a score when `top` is taken off; masked scores have none.
spec fn weight(m: Exact, top: real, score: Value) -> real {
    match score {
        Value::Num(s) => (m.exp)(s - top),
        _ => 0real,
    }
}

/// A score: a number, or masked.
spec fn is_score(m: Exact, e: Fx) -> bool {
    exact(m, e) is Num || exact(m, e) == Value::Low
}

proof fn lemma_tile_top(m: Exact, es: Seq<Fx>, top: Fx, n: nat)
    requires
        n <= es.len(),
        forall|j: int| 0 <= j < es.len() ==> is_score(m, #[trigger] es[j]),
        is_score(m, top),
    ensures
        is_score(m, tile_top(es, top, n)),
        exact(m, top) is Num ==> exact(m, tile_top(es, top, n)) is Num,
        forall|j: int|
            0 <= j < n && exact(m, #[trigger] es[j]) is Num ==> exact(
                m,
                tile_top(es, top, n),
            ) is Num,
    decreases n,
{
    reveal_with_fuel(exact, 5);
    lemma_constants();
    if n > 0 {
        lemma_tile_top(m, es, top, (n - 1) as nat);
        assert(is_score(m, es[n - 1]));
    }
}

proof fn lemma_tile_sum(m: Exact, es: Seq<Fx>, top: Fx, start: Fx, n: nat)
    requires
        n <= es.len(),
        forall|j: int| 0 <= j < es.len() ==> is_score(m, #[trigger] es[j]),
        is_number(m, top),
        is_number(m, start),
    ensures
        exact(m, tile_sum(es, top, start, n)) == Value::Num(
            number(m, start) + rsum(n, |j: int| weight(m, number(m, top), exact(m, es[j]))),
        ),
    decreases n,
{
    reveal_with_fuel(exact, 5);
    lemma_constants();
    if n > 0 {
        lemma_tile_sum(m, es, top, start, (n - 1) as nat);
        assert(is_score(m, es[n - 1]));
    }
}

proof fn lemma_tile_products(m: Exact, es: Seq<Fx>, top: Fx, vs: Seq<Fx>)
    requires
        vs.len() == es.len(),
        forall|j: int| 0 <= j < es.len() ==> is_score(m, #[trigger] es[j]),
        forall|j: int| 0 <= j < vs.len() ==> is_number(m, #[trigger] vs[j]),
        is_number(m, top),
    ensures
        exact(m, sum_seq(products(tile_weights(es, top), vs))) == Value::Num(
            rsum(
                es.len(),
                |j: int| weight(m, number(m, top), exact(m, es[j])) * number(m, vs[j]),
            ),
        ),
{
    reveal_with_fuel(exact, 5);
    lemma_constants();
    let ps = products(tile_weights(es, top), vs);
    assert forall|j: int| 0 <= j < ps.len() implies is_number(m, #[trigger] ps[j]) && number(
        m,
        ps[j],
    ) == weight(m, number(m, top), exact(m, es[j])) * number(m, vs[j]) by {
        assert(is_score(m, es[j]));
        assert(is_number(m, vs[j]));
    }
    lemma_sum_onto(m, ZERO, ps);
    lemma_rsum_same(
        es.len(),
        |j: int| number(m, ps[j]),
        |j: int| weight(m, number(m, top), exact(m, es[j])) * number(m, vs[j]),
    );
}

/// Taking a weighted sum to a new top.
proof fn lemma_new_top(
    m: Exact,
    n: nat,
    s: spec_fn(int) -> Value,
    v: spec_fn(int) -> real,
    old_top: real,
    new_top: real,
)
    requires
        exponential(m),
    ensures
        rsum(n, |j: int| weight(m, old_top, s(j)) * v(j)) * (m.exp)(old_top - new_top) == rsum(
            n,
            |j: int| weight(m, new_top, s(j)) * v(j),
        ),
{
    let c = (m.exp)(old_top - new_top);
    let f = |j: int| weight(m, old_top, s(j)) * v(j);
    let g = |j: int| weight(m, new_top, s(j)) * v(j);
    lemma_rsum_scale(n, c, f);
    let cf = |j: int| c * f(j);
    assert forall|j: int| 0 <= j < n implies #[trigger] cf(j) == g(j) by {
        if s(j) is Num {
            let x = s(j)->Num_0;
            let a = (m.exp)(x - old_top);
            assert((m.exp)((x - old_top) + (old_top - new_top)) == a * c);
            assert((x - old_top) + (old_top - new_top) == x - new_top);
            let y = v(j);
            assert(c * (a * y) == (a * c) * y) by (nonlinear_arith);
        } else {
            let y = v(j);
            assert(c * (0real * y) == 0real * y) by (nonlinear_arith);
        }
    }
    lemma_rsum_same(n, cf, g);
    let x = rsum(n, f);
    assert(c * x == x * c) by (nonlinear_arith);
}

/// What is known after some rows: nothing before the first, else sums of the
/// weights and of the weighted values, taken at the current top.
spec fn state_at(
    m: Exact,
    st: Running,
    seen: nat,
    s: spec_fn(int) -> Value,
    v: spec_fn(int, int) -> real,
) -> bool {
    &&& if seen == 0 {
        exact(m, st.top) == Value::Low
    } else {
        is_number(m, st.top)
    }
    &&& exact(m, st.sum) == Value::Num(
        rsum(seen, |j: int| weight(m, number(m, st.top), s(j)) * 1real),
    )
    &&& forall|e: int|
        0 <= e < st.acc.len() ==> exact(m, #[trigger] st.acc[e]) == Value::Num(
            rsum(seen, |j: int| weight(m, number(m, st.top), s(j)) * v(e, j)),
        )
}

/// One number, taken to a new top.
proof fn lemma_rescaled(
    m: Exact,
    x: Fx,
    old_top: Fx,
    new_top: Fx,
    seen: nat,
    s: spec_fn(int) -> Value,
    v: spec_fn(int) -> real,
)
    requires
        exponential(m),
        is_number(m, new_top),
        if seen == 0 {
            exact(m, old_top) == Value::Low
        } else {
            is_number(m, old_top)
        },
        exact(m, x) == Value::Num(
            rsum(seen, |j: int| weight(m, number(m, old_top), s(j)) * v(j)),
        ),
    ensures
        exact(m, rescaled(x, old_top, new_top)) == Value::Num(
            rsum(seen, |j: int| weight(m, number(m, new_top), s(j)) * v(j)),
        ),
{
    reveal_with_fuel(exact, 5);
    if seen == 0 {
        assert(0real * 0real == 0real) by (nonlinear_arith);
    } else {
        lemma_new_top(m, seen, s, v, number(m, old_top), number(m, new_top));
    }
}

/// A sum of two numbers, each times one.
proof fn lemma_added(m: Exact, a: Fx, b: Fx)
    requires
        is_number(m, a),
        is_number(m, b),
    ensures
        exact(m, plus(times(bits(ONE), a), times(bits(ONE), b))) == Value::Num(
            number(m, b) + number(m, a),
        ),
{
    reveal_with_fuel(exact, 3);
    lemma_constants();
    let x = number(m, a);
    let y = number(m, b);
    assert(1real * x + 1real * y == y + x) by (nonlinear_arith);
}

/// The weighted values of the rows seen and of one more tile.
proof fn lemma_more_rows(
    m: Exact,
    top: real,
    seen: nat,
    scores: Seq<Fx>,
    tile: spec_fn(int) -> real,
    s: spec_fn(int) -> Value,
    v: spec_fn(int) -> real,
)
    requires
        forall|j: int| 0 <= j < scores.len() ==> exact(m, #[trigger] scores[j]) == s(seen + j),
        forall|j: int|
            0 <= j < scores.len() ==> #[trigger] tile(j) == weight(m, top, s(seen + j)) * v(
                seen + j,
            ),
    ensures
        rsum(seen, |j: int| weight(m, top, s(j)) * v(j)) + rsum(scores.len(), tile) == rsum(
            seen + scores.len(),
            |j: int| weight(m, top, s(j)) * v(j),
        ),
{
    let f = |j: int| weight(m, top, s(j)) * v(j);
    lemma_rsum_split(seen, scores.len(), f);
    lemma_rsum_same(scores.len(), tile, |j: int| f(seen + j));
}

/// One more tile.
proof fn lemma_after_tile(
    m: Exact,
    st: Running,
    seen: nat,
    scores: Seq<Fx>,
    values: spec_fn(int) -> Seq<Fx>,
    s: spec_fn(int) -> Value,
    v: spec_fn(int, int) -> real,
)
    requires
        exponential(m),
        state_at(m, st, seen, s, v),
        scores.len() > 0,
        forall|j: int| 0 <= j < scores.len() ==> is_score(m, #[trigger] scores[j]),
        forall|j: int| 0 <= j < scores.len() ==> exact(m, #[trigger] scores[j]) == s(seen + j),
        seen == 0 ==> s(0) is Num,
        forall|e: int| 0 <= e < st.acc.len() ==> (#[trigger] values(e)).len() == scores.len(),
        forall|e: int, j: int|
            0 <= e < st.acc.len() && 0 <= j < scores.len() ==> exact(
                m,
                #[trigger] values(e)[j],
            ) == Value::Num(v(e, seen + j)),
    ensures
        state_at(m, after_tile(st, scores, values), seen + scores.len(), s, v),
{
    let n = scores.len();
    let top = tile_top(scores, st.top, n);
    lemma_tile_top(m, scores, st.top, n);
    if seen == 0 {
        assert(exact(m, scores[0]) == s(seen + 0int));
    }
    assert(is_number(m, top));
    let t = number(m, top);
    let next = after_tile(st, scores, values);
    // The sum.
    let one = |j: int| 1real;
    lemma_rsum_same(
        seen,
        |j: int| weight(m, number(m, st.top), s(j)) * 1real,
        |j: int| weight(m, number(m, st.top), s(j)) * one(j),
    );
    lemma_rescaled(m, st.sum, st.top, top, seen, s, one);
    let rs = rescaled(st.sum, st.top, top);
    lemma_tile_sum(m, scores, top, rs, n);
    let ws = |j: int| weight(m, t, exact(m, scores[j]));
    assert forall|j: int| 0 <= j < n implies #[trigger] ws(j) == weight(m, t, s(seen + j)) * one(
        seen + j,
    ) by {
        assert(exact(m, scores[j]) == s(seen + j));
        let x = weight(m, t, s(seen + j));
        assert(x * 1real == x) by (nonlinear_arith);
    }
    lemma_more_rows(m, t, seen, scores, ws, s, one);
    lemma_rsum_same(
        seen + n,
        |j: int| weight(m, t, s(j)) * one(j),
        |j: int| weight(m, t, s(j)) * 1real,
    );
    // The values.
    assert forall|e: int| 0 <= e < next.acc.len() implies exact(m, #[trigger] next.acc[e])
        == Value::Num(rsum(seen + n, |j: int| weight(m, t, s(j)) * v(e, j))) by {
        let vs = values(e);
        assert forall|j: int| 0 <= j < vs.len() implies is_number(m, #[trigger] vs[j]) by {
            assert(exact(m, values(e)[j]) == Value::Num(v(e, seen + j)));
        }
        lemma_tile_products(m, scores, top, vs);
        let w = |j: int| v(e, j);
        assert(exact(m, st.acc[e]) == Value::Num(
            rsum(seen, |j: int| weight(m, number(m, st.top), s(j)) * v(e, j)),
        ));
        lemma_rsum_same(
            seen,
            |j: int| weight(m, number(m, st.top), s(j)) * v(e, j),
            |j: int| weight(m, number(m, st.top), s(j)) * w(j),
        );
        lemma_rescaled(m, st.acc[e], st.top, top, seen, s, w);
        let wv = |j: int| weight(m, t, exact(m, scores[j])) * number(m, vs[j]);
        assert forall|j: int| 0 <= j < n implies #[trigger] wv(j) == weight(m, t, s(seen + j)) * w(
            seen + j,
        ) by {
            assert(exact(m, scores[j]) == s(seen + j));
            assert(exact(m, values(e)[j]) == Value::Num(v(e, seen + j)));
        }
        lemma_more_rows(m, t, seen, scores, wv, s, w);
        lemma_added(
            m,
            sum_seq(products(tile_weights(scores, top), vs)),
            rescaled(st.acc[e], st.top, top),
        );
        lemma_rsum_same(
            seen + n,
            |j: int| weight(m, t, s(j)) * w(j),
            |j: int| weight(m, t, s(j)) * v(e, j),
        );
    }
}

/// What the product of a row and a row is worth.
pub proof fn lemma_dot(m: Exact, q: Seq<u32>, a: int, k: Seq<u32>, b: int, n: int)
    requires
        all_finite(q),
        all_finite(k),
        0 <= n,
        0 <= a,
        a + n <= q.len(),
        0 <= b,
        b + n <= k.len(),
    ensures
        exact(m, sum_seq(products(stretch(q, a, n), stretch(k, b, n)))) == Value::Num(
            rsum(n as nat, |t: int| real_of(q[a + t]) * real_of(k[b + t])),
        ),
{
    reveal_with_fuel(exact, 2);
    let ps = products(stretch(q, a, n), stretch(k, b, n));
    assert forall|t: int| 0 <= t < ps.len() implies is_number(m, #[trigger] ps[t]) && number(
        m,
        ps[t],
    ) == real_of(q[a + t]) * real_of(k[b + t]) by {
        assert(is_finite(q[a + t]) && is_finite(k[b + t]));
    }
    lemma_sum_onto(m, ZERO, ps);
    lemma_rsum_same(
        n as nat,
        |t: int| number(m, ps[t]),
        |t: int| real_of(q[a + t]) * real_of(k[b + t]),
    );
}

/// The average of the values, from sums that were taken at a common top.
pub proof fn lemma_average(
    m: Exact,
    n: nat,
    s: spec_fn(int) -> real,
    v: spec_fn(int) -> real,
    top: real,
    out: Fx,
)
    requires
        exponential(m),
        is_number(m, out),
        number(m, out) * rsum(n, |j: int| (m.exp)(s(j) - top)) == rsum(
            n,
            |j: int| (m.exp)(s(j) - top) * v(j),
        ),
    ensures
        softmax_average(m, n, s, v, out),
{
    let c = (m.exp)(top);
    let f = |j: int| (m.exp)(s(j) - top);
    let g = |j: int| (m.exp)(s(j) - top) * v(j);
    let cf = |j: int| c * f(j);
    let cg = |j: int| c * g(j);
    lemma_rsum_scale(n, c, f);
    lemma_rsum_scale(n, c, g);
    assert forall|j: int| 0 <= j < n implies #[trigger] cf(j) == (m.exp)(s(j)) by {
        lemma_exp_minus(m, s(j), top);
        let a = f(j);
        assert(c * a == a * c) by (nonlinear_arith);
    }
    assert forall|j: int| 0 <= j < n implies #[trigger] cg(j) == (m.exp)(s(j)) * v(j) by {
        lemma_exp_minus(m, s(j), top);
        let a = f(j);
        let y = v(j);
        assert(c * (a * y) == (a * c) * y) by (nonlinear_arith);
    }
    lemma_rsum_same(n, cf, |j: int| (m.exp)(s(j)));
    lemma_rsum_same(n, cg, |j: int| (m.exp)(s(j)) * v(j));
    let x = number(m, out);
    let y = rsum(n, f);
    let z = rsum(n, g);
    assert(x * (c * y) == c * z) by (nonlinear_arith)
        requires
            x * y == z,
    ;
}

/// What the scores of a tiled attention are worth.
spec fn flash_score(g: FlashGeometry, q: Seq<u32>, k: Seq<u32>, r: int, j: int) -> Value {
    if g.causal && j > r % g.seq_len as int {
        Value::Low
    } else {
        Value::Num(
            real_of(g.scale) * rsum(
                g.width as nat,
                |t: int| real_of(q[r * g.width + t]) * real_of(k[g.sibling(r, j) * g.width + t]),
            ),
        )
    }
}

proof fn lemma_flash_score(g: FlashGeometry, m: Exact, q: Seq<u32>, k: Seq<u32>, r: int, j: int)
    requires
        all_finite(q),
        all_finite(k),
        is_finite(g.scale),
        q.len() >= g.count(),
        k.len() >= g.count(),
        0 <= r < g.batch * g.seq_len,
        0 <= j < g.seq_len,
    ensures
        exact(m, g.score(q, k, r, j)) == flash_score(g, q, k, r, j),
        0 <= g.sibling(r, j) < g.batch * g.seq_len,
        g.sibling(r, j) * g.width + g.width <= g.count(),
        0 <= g.sibling(r, j) * g.width,
{
    reveal_with_fuel(exact, 2);
    lemma_constants();
    lemma_split(r, g.batch as int, g.seq_len as int);
    lemma_row_major(r / g.seq_len as int, j, g.batch as int, g.seq_len as int);
    let b = g.sibling(r, j);
    let rows = g.batch * g.seq_len;
    let w = g.width as int;
    assert(g.batch * (g.seq_len * g.width) == rows * w) by (nonlinear_arith)
        requires
            rows == g.batch * g.seq_len,
            w == g.width,
    ;
    assert(b * w + w <= rows * w && r * w + w <= rows * w && 0 <= b * w && 0 <= r * w)
        by (nonlinear_arith)
        requires
            0 <= b < rows,
            0 <= r < rows,
            w >= 0,
    ;
    lemma_dot(m, q, r * g.width, k, b * g.width, w);
}

/// How many rows the first `n` tiles hold.
spec fn rows_in(g: FlashGeometry, n: nat) -> int {
    if n * g.tile() < g.seq_len {
        n * g.tile()
    } else {
        g.seq_len as int
    }
}

proof fn lemma_running(
    m: Exact,
    g: FlashGeometry,
    q: Seq<u32>,
    k: Seq<u32>,
    v: Seq<u32>,
    r: int,
    n: nat,
)
    requires
        exponential(m),
        g.fits(),
        all_finite(q),
        all_finite(k),
        all_finite(v),
        is_finite(g.scale),
        q.len() >= g.count(),
        k.len() >= g.count(),
        v.len() >= g.count(),
        0 <= r < g.batch * g.seq_len,
        n <= g.tiles(),
    ensures
        g.running(q, k, v, r, n).acc.len() == g.width,
        state_at(
            m,
            g.running(q, k, v, r, n),
            rows_in(g, n) as nat,
            |j: int| flash_score(g, q, k, r, j),
            |e: int, j: int| real_of(v[g.sibling(r, j) * g.width + e]),
        ),
    decreases n,
{
    let s = |j: int| flash_score(g, q, k, r, j);
    let vv = |e: int, j: int| real_of(v[g.sibling(r, j) * g.width + e]);
    lemma_constants();
    let tile = g.tile();
    assert(g.seq_len > 0) by {
        if g.batch == 0 {
            assert(g.batch * g.seq_len == 0) by (nonlinear_arith)
                requires
                    g.batch == 0,
            ;
        }
    }
    if n == 0 {
        assert(0 * tile == 0) by (nonlinear_arith);
    } else {
        let l = (n - 1) as nat;
        lemma_running(m, g, q, k, v, r, l);
        let a = l * tile;
        lemma_fundamental_div_mod(g.seq_len - 1, tile);
        lemma_mod_bound(g.seq_len - 1, tile);
        let d = (g.seq_len - 1) / tile;
        assert(a <= tile * d) by (nonlinear_arith)
            requires
                a == l * tile,
                l <= d,
                tile > 0,
        ;
        assert(a >= 0) by (nonlinear_arith)
            requires
                a == l * tile,
                tile > 0,
        ;
        assert(n * tile == a + tile) by (nonlinear_arith)
            requires
                n == l + 1,
                a == l * tile,
        ;
        let b = g.tile_end(a);
        assert(rows_in(g, l) == a);
        assert(rows_in(g, n) == b);
        let st = g.running(q, k, v, r, l);
        let scores = g.scores(q, k, r, a, b);
        let values = g.values(v, r, a, b);
        assert forall|j: int| 0 <= j < scores.len() implies is_score(m, #[trigger] scores[j])
            && exact(m, scores[j]) == s(a as nat + j) by {
            lemma_flash_score(g, m, q, k, r, a + j);
        }
        assert forall|e: int| 0 <= e < st.acc.len() implies (#[trigger] values(e)).len()
            == scores.len() by {}
        assert forall|e: int, j: int|
            0 <= e < st.acc.len() && 0 <= j < scores.len() implies exact(
            m,
            #[trigger] values(e)[j],
        ) == Value::Num(vv(e, a as nat + j)) by {
            lemma_flash_score(g, m, q, k, r, a + j);
            assert(is_finite(v[g.sibling(r, a + j) * g.width + e]));
        }
        lemma_after_tile(m, st, a as nat, scores, values, s, vv);
    }
}

/// Tiled attention is attention: over the real numbers, every element of the
/// result is the average of the values at its place, weighted by the
/// exponentials of the scores of all rows of the sequence, or of those up to
/// its own where later ones are masked. How the rows fall into tiles has no
/// influence.
pub proof fn law_flash_attention_averages(
    m: Exact,
    q: TensorView,
    k: TensorView,
    v: TensorView,
    scale: u32,
    causal: bool,
    b: int,
    i: int,
    e: int,
)
    requires
        exponential(m),
        q.shape.len() == 3,
        q.wf() && k.wf() && v.wf(),
        q.data is F32 && k.data is F32 && v.data is F32,
        k.singles().len() >= q.singles().len(),
        v.singles().len() >= q.singles().len(),
        all_finite(q.singles()) && all_finite(k.singles()) && all_finite(v.singles()),
        is_finite(scale),
        0 <= b < q.shape[0],
        0 <= i < q.shape[1],
        0 <= e < q.shape[2],
    ensures
        ({
            let len = q.shape[1] as int;
            let d = q.shape[2] as int;
            &&& flash_attention_outcome(q, k, v, scale, causal) matches Outcome::Yields(s, _)
                && s.shape == q.shape && softmax_average(
                m,
                if causal {
                    (i + 1) as nat
                } else {
                    len as nat
                },
                |j: int|
                    real_of(scale) * rsum(
                        d as nat,
                        |t: int|
                            real_of(q.singles()[(b * len + i) * d + t]) * real_of(
                                k.singles()[(b * len + j) * d + t],
                            ),
                    ),
                |j: int| real_of(v.singles()[(b * len + j) * d + e]),
                s.data[(b * len + i) * d + e],
            )
        }),
{
    let g = FlashGeometry {
        batch: q.shape[0],
        seq_len: q.shape[1],
        width: q.shape[2],
        scale,
        causal,
    };
    let (qd, kd, vd) = (q.singles(), k.singles(), v.singles());
    let len = q.shape[1] as int;
    let d = q.shape[2] as int;
    let rows = g.batch * g.seq_len;
    let r = b * len + i;
    assert(q.shape =~= seq![g.batch, g.seq_len, g.width]);
    lemma_numel_3(g.batch, g.seq_len, g.width);
    lemma_row_major(b, i, g.batch as int, len);
    lemma_row_major(r, e, rows, d);
    assert(g.batch * (g.seq_len * g.width) == rows * d) by (nonlinear_arith)
        requires
            rows == g.batch * g.seq_len,
            d == g.width,
    ;
    assert(rows <= rows * d) by (nonlinear_arith)
        requires
            rows >= 0,
            d > 0,
    ;
    assert(g.fits());
    let p = r * d + e;
    lemma_fundamental_div_mod_converse(p, d, r, e);
    lemma_fundamental_div_mod_converse(r, len, b, i);
    let n = g.tiles() as nat;
    lemma_tile_count(g);
    lemma_running(m, g, qd, kd, vd, r, n);
    let st = g.running(qd, kd, vd, r, n);
    let top = number(m, st.top);
    let s = |j: int| flash_score(g, qd, kd, r, j);
    let vv = |e: int, j: int| real_of(vd[g.sibling(r, j) * g.width + e]);
    let keep: nat = if causal {
        (i + 1) as nat
    } else {
        len as nat
    };
    let sc = |j: int|
        real_of(scale) * rsum(
            d as nat,
            |t: int| real_of(qd[(b * len + i) * d + t]) * real_of(kd[(b * len + j) * d + t]),
        );
    let vc = |j: int| real_of(vd[(b * len + j) * d + e]);
    let ws = |j: int| weight(m, top, s(j)) * 1real;
    let wv = |j: int| weight(m, top, s(j)) * vv(e, j);
    lemma_kept(keep, len as nat, ws);
    lemma_kept(keep, len as nat, wv);
    let es = |j: int| (m.exp)(sc(j) - top);
    let ev = |j: int| (m.exp)(sc(j) - top) * vc(j);
    assert forall|j: int| 0 <= j < keep implies #[trigger] ws(j) == es(j) by {
        let x = weight(m, top, s(j));
        assert(x * 1real == x) by (nonlinear_arith);
    }
    assert forall|j: int| 0 <= j < keep implies #[trigger] wv(j) == ev(j) by {}
    assert forall|j: int| keep <= j < len implies #[trigger] ws(j) == 0real by {
        assert(0real * 1real == 0real) by (nonlinear_arith);
    }
    assert forall|j: int| keep <= j < len implies #[trigger] wv(j) == 0real by {
        let y = vv(e, j);
        assert(0real * y == 0real) by (nonlinear_arith);
    }
    lemma_kept(keep, len as nat, ws);
    lemma_kept(keep, len as nat, wv);
    lemma_rsum_same(keep, ws, es);
    lemma_rsum_same(keep, wv, ev);
    lemma_rsum_positive(keep, es);
    let total = rsum(keep, es);
    let sum = rsum(keep, ev);
    assert(exact(m, st.sum) == Value::Num(total));
    assert(exact(m, st.acc[e]) == Value::Num(sum));
    let out = times(st.acc[e], inverse_of(st.sum));
    lemma_inverse(m, st.acc[e], st.sum);
    assert((sum * (1real / total)) * total == sum) by (nonlinear_arith)
        requires
            total > 0real,
    ;
    lemma_average(m, keep, sc, vc, top, out);
}

/// All rows are in the tiles.
proof fn lemma_tile_count(g: FlashGeometry)
    requires
        g.seq_len > 0,
    ensures
        g.tiles() >= 0,
        rows_in(g, g.tiles() as nat) == g.seq_len,
{
    let t = g.tile();
    let d = (g.seq_len - 1) / t;
    lemma_fundamental_div_mod(g.seq_len - 1, t);
    lemma_mod_bound(g.seq_len - 1, t);
    lemma_div_pos_is_pos(g.seq_len - 1, t);
    assert((d + 1) * t == t * d + t) by (nonlinear_arith);
}

/// Zeros at the end of a sum do not count.
proof fn lemma_kept(keep: nat, n: nat, f: spec_fn(int) -> real)
    requires
        keep <= n,
    ensures
        (forall|j: int| keep <= j < n ==> #[trigger] f(j) == 0real) ==> rsum(n, f) == rsum(keep, f),
    decreases n,
{
    if keep < n {
        lemma_kept(keep, (n - 1) as nat, f);
    }
}

/// A number over a positive sum.
proof fn lemma_inverse(m: Exact, a: Fx, l: Fx)
    requires
        is_number(m, a),
        is_number(m, l),
        number(m, l) > 0real,
    ensures
        exact(m, times(a, inverse_of(l))) == Value::Num(number(m, a) * (1real / number(m, l))),
{
    reveal_with_fuel(exact, 4);
    lemma_constants();
}

} // verus!
