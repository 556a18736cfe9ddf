//! Attention in tiles, with a running softmax.

use crate::error::{execution_error, Error};
use crate::float::{
    bits, computes, computes_all, do_exp, do_larger, do_minus, do_over, do_plus, do_times, eq,
    exp_of, greater, gt, larger_of, minus, over, plus, times, Float, Fx, NEG_INFINITY, ONE, ZERO,
};
use crate::kernels::heads::{if_equal, lemma_if_equal, stretch};
use crate::kernels::movement::{lemma_numel_3, lemma_row_major, lemma_split};
use crate::kernels::reduce::{by_rows, count_of, lemma_row_within, part_of, push_row, rows_done};
use crate::kernels::rows::{products, products_vec, sum_seq, sum_vec};
use crate::shape::fits;
use crate::sym::{
    fails, misfit, misfit_error, not_single, not_single_error, realized, yields, Outcome,
};
use crate::tensor::{AnyData, DataView, Tensor, TensorView};
use vstd::arithmetic::div_mod::*;
use vstd::arithmetic::mul::*;
use vstd::prelude::*;

verus! {

/// The largest number of keys that are looked at together.
pub const TILE: usize = 32;

/// What is known of a query after some tiles: the largest score so far, the
/// sum of the weights and the weighted sum of the values.
#[verifier::ext_equal]
pub struct Running {
    pub top: Fx,
    pub sum: Fx,
    pub acc: Seq<Fx>,
}

/// The largest of `top` and the first `n` scores of a tile that are not
/// masked.
pub open spec fn tile_top(scores: Seq<Fx>, top: Fx, n: nat) -> Fx
    decreases n,
{
    if n == 0 {
        top
    } else {
        let before = tile_top(scores, top, (n - 1) as nat);
        if_equal(
            scores[n - 1],
            bits(NEG_INFINITY),
            before,
            larger_of(before, scores[n - 1]),
        )
    }
}

/// `x`, taken to the new largest score.
pub open spec fn rescaled(x: Fx, old_top: Fx, new_top: Fx) -> Fx {
    if_equal(new_top, old_top, x, times(x, exp_of(minus(old_top, new_top))))
}

/// The weights of a tile.
pub open spec fn tile_weights(scores: Seq<Fx>, top: Fx) -> Seq<Fx> {
    Seq::new(
        scores.len(),
        |j: int|
            if_equal(
                scores[j],
                bits(NEG_INFINITY),
                bits(ZERO),
                exp_of(minus(scores[j], top)),
            ),
    )
}

/// `start` plus the weights of the first `n` scores that are not masked.
pub open spec fn tile_sum(scores: Seq<Fx>, top: Fx, start: Fx, n: nat) -> Fx
    decreases n,
{
    if n == 0 {
        start
    } else {
        let before = tile_sum(scores, top, start, (n - 1) as nat);
        if_equal(
            scores[n - 1],
            bits(NEG_INFINITY),
            before,
            plus(before, exp_of(minus(scores[n - 1], top))),
        )
    }
}

/// What is known after one more tile, whose values are `values[e]` for place
/// `e` of the result.
pub open spec fn after_tile(st: Running, scores: Seq<Fx>, values: spec_fn(int) -> Seq<Fx>) -> Running {
    let top = tile_top(scores, st.top, scores.len());
    Running {
        top,
        sum: tile_sum(scores, top, rescaled(st.sum, st.top, top), scores.len()),
        acc: Seq::new(
            st.acc.len(),
            |e: int|
                plus(
                    times(
                        bits(ONE),
                        sum_seq(products(tile_weights(scores, top), values(e))),
                    ),
                    times(bits(ONE), rescaled(st.acc[e], st.top, top)),
                ),
        ),
    }
}

/// The sizes of a tiled attention.
#[derive(Debug, Clone, Copy)]
pub struct FlashGeometry {
    pub batch: usize,
    pub seq_len: usize,
    pub width: usize,
    pub scale: u32,
    pub causal: bool,
}

impl FlashGeometry {
    /// The number of elements.
    pub open spec fn count(self) -> int {
        self.batch * (self.seq_len * self.width)
    }

    /// All sizes are machine numbers.
    pub open spec fn fits(self) -> bool {
        &&& self.seq_len > 0 || self.batch == 0
        &&& self.batch * self.seq_len <= usize::MAX
        &&& self.seq_len * self.width <= usize::MAX
        &&& self.count() <= usize::MAX
    }

    /// How many keys are looked at together.
    pub open spec fn tile(self) -> int {
        if self.seq_len < TILE {
            self.seq_len as int
        } else {
            TILE as int
        }
    }

    /// Row `j` of the sequence that row `r` belongs to.
    pub open spec fn sibling(self, r: int, j: int) -> int {
        (r / self.seq_len as int) * self.seq_len + j
    }

    /// The score of row `j` of the sequence for the query at row `r`.
    pub open spec fn score(self, q: Seq<u32>, k: Seq<u32>, r: int, j: int) -> Fx {
        if self.causal && j > r % self.seq_len as int {
            bits(NEG_INFINITY)
        } else {
            times(
                bits(self.scale),
                sum_seq(
                    products(
                        stretch(q, r * self.width, self.width as int),
                        stretch(k, self.sibling(r, j) * self.width, self.width as int),
                    ),
                ),
            )
        }
    }

    /// The scores of rows `a` to `b` of the sequence.
    pub open spec fn scores(self, q: Seq<u32>, k: Seq<u32>, r: int, a: int, b: int) -> Seq<Fx> {
        Seq::new((b - a) as nat, |j: int| self.score(q, k, r, a + j))
    }

    /// The values of rows `a` to `b` of the sequence, by place.
    pub open spec fn values(self, v: Seq<u32>, r: int, a: int, b: int) -> spec_fn(int) -> Seq<Fx> {
        |e: int| self.column(v, r, a, b, e)
    }

    /// Place `e` of the values of rows `a` to `b` of the sequence.
    pub open spec fn column(self, v: Seq<u32>, r: int, a: int, b: int, e: int) -> Seq<Fx> {
        Seq::new((b - a) as nat, |j: int| bits(v[self.sibling(r, a + j) * self.width + e]))
    }

    /// Where the tile that begins at row `a` ends.
    pub open spec fn tile_end(self, a: int) -> int {
        if a + self.tile() < self.seq_len {
            a + self.tile()
        } else {
            self.seq_len as int
        }
    }

    /// What is known of the query at row `r` after the first `n` tiles.
    pub open spec fn running(self, q: Seq<u32>, k: Seq<u32>, v: Seq<u32>, r: int, n: nat) -> Running
        decreases n,
    {
        if n == 0 {
            Running {
                top: bits(NEG_INFINITY),
                sum: bits(ZERO),
                acc: Seq::new(self.width as nat, |e: int| bits(ZERO)),
            }
        } else {
            let a = (n - 1) * self.tile();
            after_tile(
                self.running(q, k, v, r, (n - 1) as nat),
                self.scores(q, k, r, a, self.tile_end(a)),
                self.values(v, r, a, self.tile_end(a)),
            )
        }
    }

    /// The number of tiles.
    pub open spec fn tiles(self) -> int {
        (self.seq_len - 1) / self.tile() + 1
    }

    /// Row `r` of the result: the weighted sums over the sum of the weights,
    /// or zeros where that sum is not positive.
    pub open spec fn row(self, q: Seq<u32>, k: Seq<u32>, v: Seq<u32>, r: int) -> Seq<Fx> {
        let st = self.running(q, k, v, r, self.tiles() as nat);
        Seq::new(self.width as nat, |e: int| times(st.acc[e], inverse_of(st.sum)))
    }
}

/// One over `l`, or zero where `l` is not positive.
pub open spec fn inverse_of(l: Fx) -> Fx {
    Fx::IfGreater(
        Box::new(l),
        Box::new(bits(ZERO)),
        Box::new(over(bits(ONE), l)),
        Box::new(bits(ZERO)),
    )
}

/// The largest of `top` and the scores of a tile that are not masked.
fn top_of<F: Float>(
    f: &F,
    scores: &Vec<u32>,
    top: u32,
    Ghost(es): Ghost<Seq<Fx>>,
    Ghost(et): Ghost<Fx>,
) -> (r: u32)
    requires
        computes_all(*f, es, scores@),
        computes(*f, et, top),
    ensures
        computes(*f, tile_top(es, et, es.len()), r),
{
    let mut best: u32 = top;
    for j in 0..scores.len()
        invariant
            computes_all(*f, es, scores@),
            computes(*f, tile_top(es, et, j as nat), best),
    {
        let s: u32 = scores[j];
        let ghost e = es[j as int];
        let ghost before = tile_top(es, et, j as nat);
        proof {
            assert(computes(*f, e, scores@[j as int]));
        }
        if !eq(s, NEG_INFINITY) {
            best = do_larger(f, best, s, Ghost(before), Ghost(e));
        }
        proof {
            lemma_if_equal(
                *f,
                e,
                bits(NEG_INFINITY),
                before,
                larger_of(before, e),
                s,
                NEG_INFINITY,
                best,
            );
        }
    }
    best
}

/// `x`, taken to the new largest score.
fn rescale<F: Float>(
    f: &F,
    x: u32,
    old_top: u32,
    new_top: u32,
    Ghost(ex): Ghost<Fx>,
    Ghost(eo): Ghost<Fx>,
    Ghost(en): Ghost<Fx>,
) -> (r: u32)
    requires
        computes(*f, ex, x),
        computes(*f, eo, old_top),
        computes(*f, en, new_top),
    ensures
        computes(*f, rescaled(ex, eo, en), r),
{
    let r: u32 = if eq(new_top, old_top) {
        x
    } else {
        let d: u32 = do_minus(f, old_top, new_top, Ghost(eo), Ghost(en));
        let p: u32 = do_exp(f, d, Ghost(minus(eo, en)));
        do_times(f, x, p, Ghost(ex), Ghost(exp_of(minus(eo, en))))
    };
    proof {
        lemma_if_equal(
            *f,
            en,
            eo,
            ex,
            times(ex, exp_of(minus(eo, en))),
            new_top,
            old_top,
            r,
        );
    }
    r
}

/// The weights of a tile, and their sum on top of `start`.
fn weigh<F: Float>(
    f: &F,
    scores: &Vec<u32>,
    top: u32,
    start: u32,
    Ghost(es): Ghost<Seq<Fx>>,
    Ghost(et): Ghost<Fx>,
    Ghost(ei): Ghost<Fx>,
) -> (r: (Vec<u32>, u32))
    requires
        computes_all(*f, es, scores@),
        computes(*f, et, top),
        computes(*f, ei, start),
    ensures
        computes_all(*f, tile_weights(es, et), r.0@),
        computes(*f, tile_sum(es, et, ei, es.len()), r.1),
{
    let mut ws: Vec<u32> = Vec::new();
    let mut sum: u32 = start;
    for j in 0..scores.len()
        invariant
            computes_all(*f, es, scores@),
            computes(*f, et, top),
            ws@.len() == j,
            forall|x: int| 0 <= x < j ==> computes(*f, tile_weights(es, et)[x], #[trigger] ws@[x]),
            computes(*f, tile_sum(es, et, ei, j as nat), sum),
    {
        let s: u32 = scores[j];
        let ghost e = es[j as int];
        let ghost p = exp_of(minus(e, et));
        let ghost before = tile_sum(es, et, ei, j as nat);
        proof {
            assert(computes(*f, e, scores@[j as int]));
        }
        let mut w: u32 = ZERO;
        if !eq(s, NEG_INFINITY) {
            let d: u32 = do_minus(f, s, top, Ghost(e), Ghost(et));
            w = do_exp(f, d, Ghost(minus(e, et)));
            sum = do_plus(f, sum, w, Ghost(before), Ghost(p));
        }
        proof {
            lemma_if_equal(*f, e, bits(NEG_INFINITY), bits(ZERO), p, s, NEG_INFINITY, w);
            lemma_if_equal(
                *f,
                e,
                bits(NEG_INFINITY),
                before,
                plus(before, p),
                s,
                NEG_INFINITY,
                sum,
            );
        }
        ws.push(w);
    }
    (ws, sum)
}

/// A row lies within the data, and so do the rows of its sequence.
proof fn lemma_rows(g: FlashGeometry, r: int, j: int)
    requires
        g.fits(),
        0 <= r < g.batch * g.seq_len,
        0 <= j < g.seq_len,
    ensures
        0 <= g.sibling(r, j) < g.batch * g.seq_len,
        0 <= (r / g.seq_len as int) * g.seq_len,
        0 <= r * g.width,
        r * g.width + g.width <= g.count(),
        0 <= g.sibling(r, j) * g.width,
        g.sibling(r, j) * g.width + g.width <= g.count(),
{
    lemma_split(r, g.batch as int, g.seq_len as int);
    lemma_row_major(r / g.seq_len as int, j, g.batch as int, g.seq_len as int);
    lemma_mul_nonnegative(r / g.seq_len as int, g.seq_len as int);
    lemma_row_within(r, g.batch * g.seq_len, g.width as int);
    lemma_row_within(g.sibling(r, j), g.batch * g.seq_len, g.width as int);
    assert(g.batch * (g.seq_len * g.width) == (g.batch * g.seq_len) * g.width) by (nonlinear_arith);
}

/// The scores of rows `a` to `b` of the sequence.
fn score_tile<F: Float>(
    f: &F,
    g: &FlashGeometry,
    q: &Vec<u32>,
    k: &Vec<u32>,
    r: usize,
    a: usize,
    b: usize,
) -> (out: Vec<u32>)
    requires
        g.fits(),
        q@.len() == g.count(),
        k@.len() >= g.count(),
        r < g.batch * g.seq_len,
        a <= b <= g.seq_len,
    ensures
        computes_all(*f, g.scores(q@, k@, r as int, a as int, b as int), out@),
{
    let ghost es = g.scores(q@, k@, r as int, a as int, b as int);
    proof {
        assert(g.batch > 0) by (nonlinear_arith)
            requires
                0 <= r < g.batch * g.seq_len,
        ;
        lemma_rows(*g, r as int, 0);
        lemma_split(r as int, g.batch as int, g.seq_len as int);
    }
    let i: usize = r % g.seq_len;
    let qsize: usize = q.len();
    let qs = part_of(q, r * g.width, g.width);
    let ghost eqs = stretch(q@, r * g.width, g.width as int);
    let mut out: Vec<u32> = Vec::new();
    for x in 0..b - a
        invariant
            g.fits(),
            qsize == q@.len() == g.count(),
            k@.len() >= g.count(),
            r < g.batch * g.seq_len,
            a <= b <= g.seq_len,
            i == r % g.seq_len,
            es == g.scores(q@, k@, r as int, a as int, b as int),
            eqs == stretch(q@, r * g.width, g.width as int),
            qs@.len() == g.width,
            computes_all(*f, eqs, qs@),
            out@.len() == x,
            forall|y: int| 0 <= y < x ==> computes(*f, es[y], #[trigger] out@[y]),
    {
        let j: usize = a + x;
        if g.causal && j > i {
            out.push(NEG_INFINITY);
        } else {
            proof {
                lemma_rows(*g, r as int, j as int);
            }
            let row: usize = (r / g.seq_len) * g.seq_len + j;
            let ks = part_of(k, row * g.width, g.width);
            let ghost eks = stretch(k@, row * g.width, g.width as int);
            let ps = products_vec(f, &qs, &ks, Ghost(eqs), Ghost(eks));
            let dot: u32 = sum_vec(f, &ps, Ghost(products(eqs, eks)));
            out.push(
                do_times(
                    f,
                    g.scale,
                    dot,
                    Ghost(bits(g.scale)),
                    Ghost(sum_seq(products(eqs, eks))),
                ),
            );
        }
    }
    out
}

/// Place `e` of the values of rows `a` to `b` of the sequence.
fn value_tile<F: Float>(
    f: &F,
    g: &FlashGeometry,
    v: &Vec<u32>,
    r: usize,
    a: usize,
    b: usize,
    e: usize,
) -> (out: Vec<u32>)
    requires
        g.fits(),
        v@.len() >= g.count(),
        r < g.batch * g.seq_len,
        a <= b <= g.seq_len,
        e < g.width,
    ensures
        out@.len() == b - a,
        computes_all(*f, g.column(v@, r as int, a as int, b as int, e as int), out@),
{
    let ghost es = g.column(v@, r as int, a as int, b as int, e as int);
    let mut out: Vec<u32> = Vec::new();
    for x in 0..b - a
        invariant
            g.fits(),
            v@.len() >= g.count(),
            r < g.batch * g.seq_len,
            a <= b <= g.seq_len,
            e < g.width,
            es == g.column(v@, r as int, a as int, b as int, e as int),
            out@.len() == x,
            forall|y: int| 0 <= y < x ==> computes(*f, es[y], #[trigger] out@[y]),
    {
        proof {
            lemma_rows(*g, r as int, a + x);
        }
        let row: usize = (r / g.seq_len) * g.seq_len + (a + x);
        out.push(v[row * g.width + e]);
    }
    out
}

/// What is known of a query, as numbers.
struct State {
    top: u32,
    sum: u32,
    acc: Vec<u32>,
}

impl State {
    /// The numbers are what the expressions evaluate to.
    spec fn holds<F: Float>(self, f: F, st: Running) -> bool {
        &&& computes(f, st.top, self.top)
        &&& computes(f, st.sum, self.sum)
        &&& computes_all(f, st.acc, self.acc@)
    }
}

/// One more tile.
fn take_tile<F: Float>(
    f: &F,
    g: &FlashGeometry,
    q: &Vec<u32>,
    k: &Vec<u32>,
    v: &Vec<u32>,
    r: usize,
    a: usize,
    b: usize,
    state: State,
    Ghost(st): Ghost<Running>,
) -> (next: State)
    requires
        g.fits(),
        q@.len() == g.count(),
        k@.len() >= g.count(),
        v@.len() >= g.count(),
        r < g.batch * g.seq_len,
        a <= b <= g.seq_len,
        st.acc.len() == g.width,
        state.holds(*f, st),
    ensures
        next.holds(
            *f,
            after_tile(
                st,
                g.scores(q@, k@, r as int, a as int, b as int),
                g.values(v@, r as int, a as int, b as int),
            ),
        ),
{
    let ghost es = g.scores(q@, k@, r as int, a as int, b as int);
    let ghost vs = g.values(v@, r as int, a as int, b as int);
    let ghost after = after_tile(st, es, vs);
    let scores = score_tile(f, g, q, k, r, a, b);
    let top: u32 = top_of(f, &scores, state.top, Ghost(es), Ghost(st.top));
    let ghost et = tile_top(es, st.top, es.len());
    let moved: u32 = rescale(
        f,
        state.sum,
        state.top,
        top,
        Ghost(st.sum),
        Ghost(st.top),
        Ghost(et),
    );
    let ghost em = rescaled(st.sum, st.top, et);
    let (ws, sum) = weigh(f, &scores, top, moved, Ghost(es), Ghost(et), Ghost(em));
    let ghost ew = tile_weights(es, et);
    let mut acc: Vec<u32> = Vec::new();
    for e in 0..g.width
        invariant
            g.fits(),
            v@.len() >= g.count(),
            r < g.batch * g.seq_len,
            a <= b <= g.seq_len,
            st.acc.len() == g.width,
            state.holds(*f, st),
            es.len() == b - a,
            es == g.scores(q@, k@, r as int, a as int, b as int),
            vs == g.values(v@, r as int, a as int, b as int),
            et == tile_top(es, st.top, es.len()),
            ew == tile_weights(es, et),
            after == after_tile(st, es, vs),
            computes(*f, et, top),
            ws@.len() == b - a,
            computes_all(*f, ew, ws@),
            acc@.len() == e,
            forall|x: int| 0 <= x < e ==> computes(*f, after.acc[x], #[trigger] acc@[x]),
    {
        let col = value_tile(f, g, v, r, a, b, e);
        let ghost ec = g.column(v@, r as int, a as int, b as int, e as int);
        let ps = products_vec(f, &ws, &col, Ghost(ew), Ghost(ec));
        let dot: u32 = sum_vec(f, &ps, Ghost(products(ew, ec)));
        let part: u32 = do_times(
            f,
            ONE,
            dot,
            Ghost(bits(ONE)),
            Ghost(sum_seq(products(ew, ec))),
        );
        proof {
            assert(computes(*f, st.acc[e as int], state.acc@[e as int]));
        }
        let old: u32 = rescale(
            f,
            state.acc[e],
            state.top,
            top,
            Ghost(st.acc[e as int]),
            Ghost(st.top),
            Ghost(et),
        );
        let ghost eo = rescaled(st.acc[e as int], st.top, et);
        let kept: u32 = do_times(f, ONE, old, Ghost(bits(ONE)), Ghost(eo));
        acc.push(
            do_plus(
                f,
                part,
                kept,
                Ghost(times(bits(ONE), sum_seq(products(ew, ec)))),
                Ghost(times(bits(ONE), eo)),
            ),
        );
        proof {
            assert(vs(e as int) == ec);
        }
    }
    State { top, sum, acc }
}

/// Row `r` of the result.
fn flash_row<F: Float>(
    f: &F,
    g: &FlashGeometry,
    q: &Vec<u32>,
    k: &Vec<u32>,
    v: &Vec<u32>,
    r: usize,
) -> (out: Vec<u32>)
    requires
        g.fits(),
        q@.len() == g.count(),
        k@.len() >= g.count(),
        v@.len() >= g.count(),
        r < g.batch * g.seq_len,
    ensures
        computes_all(*f, g.row(q@, k@, v@, r as int), out@),
{
    proof {
        assert(g.batch > 0) by (nonlinear_arith)
            requires
                0 <= r < g.batch * g.seq_len,
        ;
    }
    let tile: usize = if g.seq_len < TILE {
        g.seq_len
    } else {
        TILE
    };
    let tiles: usize = (g.seq_len - 1) / tile + 1;
    let width: usize = g.width;
    let mut state = State { top: NEG_INFINITY, sum: ZERO, acc: vec![ZERO; width] };
    let ghost mut st = g.running(q@, k@, v@, r as int, 0);
    for n in 0..tiles
        invariant
            g.fits(),
            q@.len() == g.count(),
            k@.len() >= g.count(),
            v@.len() >= g.count(),
            r < g.batch * g.seq_len,
            width == g.width,
            tile == g.tile(),
            tile > 0,
            tiles == g.tiles(),
            st == g.running(q@, k@, v@, r as int, n as nat),
            st.acc.len() == g.width,
            state.holds(*f, st),
    {
        proof {
            // The last tile begins before the end of the sequence.
            let s = (g.seq_len - 1) as int;
            lemma_fundamental_div_mod(s, tile as int);
            lemma_mod_bound(s, tile as int);
            lemma_mul_is_commutative(tile as int, s / tile as int);
            lemma_mul_inequality(n as int, s / tile as int, tile as int);
            lemma_mul_nonnegative(n as int, tile as int);
        }
        let a: usize = n * tile;
        let b: usize = if tile < g.seq_len - a {
            a + tile
        } else {
            g.seq_len
        };
        state = take_tile(f, g, q, k, v, r, a, b, state, Ghost(st));
        proof {
            st = g.running(q@, k@, v@, r as int, (n + 1) as nat);
        }
    }
    let ghost inv_e = inverse_of(st.sum);
    let positive: bool = gt(state.sum, ZERO);
    let inv: u32 = if positive {
        do_over(f, ONE, state.sum, Ghost(bits(ONE)), Ghost(st.sum))
    } else {
        ZERO
    };
    proof {
        assert(positive == greater(state.sum, ZERO));
        assert(computes(*f, bits(ZERO), ZERO));
        assert(computes(*f, inv_e, inv));
    }
    let mut out: Vec<u32> = Vec::new();
    for e in 0..width
        invariant
            width == g.width,
            st == g.running(q@, k@, v@, r as int, g.tiles() as nat),
            st.acc.len() == g.width,
            state.holds(*f, st),
            inv_e == inverse_of(st.sum),
            computes(*f, inv_e, inv),
            out@.len() == e,
            forall|x: int|
                0 <= x < e ==> computes(*f, g.row(q@, k@, v@, r as int)[x], #[trigger] out@[x]),
    {
        proof {
            assert(computes(*f, st.acc[e as int], state.acc@[e as int]));
        }
        out.push(do_times(f, state.acc[e], inv, Ghost(st.acc[e as int]), Ghost(inv_e)));
    }
    out
}

/// The rows of a tiled attention.
pub open spec fn flash_rows(g: FlashGeometry, q: Seq<u32>, k: Seq<u32>, v: Seq<u32>) -> spec_fn(
    int,
) -> Seq<Fx> {
    |r: int| g.row(q, k, v, r)
}

/// What a tiled attention yields.
pub open spec fn flash_attention_outcome(
    q: TensorView,
    k: TensorView,
    v: TensorView,
    scale: u32,
    causal: bool,
) -> Outcome {
    if q.shape.len() != 3 {
        fails("FlashAttention Q must be 3D [B, S, D]"@)
    } else {
        let g = FlashGeometry {
            batch: q.shape[0],
            seq_len: q.shape[1],
            width: q.shape[2],
            scale,
            causal,
        };
        if !g.fits() || k.data.len() < g.count() || v.data.len() < g.count() {
            misfit()
        } else {
            match (q.data, k.data, v.data) {
                (DataView::F32(qd), DataView::F32(kd), DataView::F32(vd)) => yields(
                    q.shape,
                    by_rows(qd.len(), g.width as nat, flash_rows(g, qd, kd, vd)),
                ),
                _ => not_single(),
            }
        }
    }
}

/// Attention in tiles, with a running softmax.
pub fn flash_attention<F: Float>(
    f: &F,
    q: &Tensor,
    k: &Tensor,
    v: &Tensor,
    scale: u32,
    causal: bool,
) -> (r: Result<Tensor, Error>)
    requires
        q.wf(),
        k.wf(),
        v.wf(),
    ensures
        realized(*f, flash_attention_outcome(q@, k@, v@, scale, causal), r),
{
    if q.shape.dims.len() != 3 {
        return Err(execution_error("FlashAttention Q must be 3D [B, S, D]"));
    }
    let batch: usize = q.shape.dims[0];
    let seq_len: usize = q.shape.dims[1];
    let width: usize = q.shape.dims[2];
    let g = FlashGeometry { batch, seq_len, width, scale, causal };
    proof {
        assert(q@.shape =~= seq![batch, seq_len, width]);
        lemma_numel_3(batch, seq_len, width);
    }
    if (seq_len == 0 && batch > 0) || batch.checked_mul(seq_len).is_none() {
        return Err(misfit_error());
    }
    let rows: usize = batch * seq_len;
    let n: usize = batch * (seq_len * width);
    if count_of(k) < n || count_of(v) < n {
        return Err(misfit_error());
    }
    match (&q.data, &k.data, &v.data) {
        (AnyData::F32(qd), AnyData::F32(kd), AnyData::F32(vd)) => {
            let ghost of = flash_rows(g, qd@, kd@, vd@);
            proof {
                lemma_mul_basics(width as int);
                assert(batch * (seq_len * width) == (batch * seq_len) * width)
                    by (nonlinear_arith);
            }
            let mut out: Vec<u32> = Vec::new();
            for r in 0..rows
                invariant
                    g.fits(),
                    rows == g.batch * g.seq_len,
                    width == g.width,
                    qd@.len() == g.count(),
                    kd@.len() >= g.count(),
                    vd@.len() >= g.count(),
                    of == flash_rows(g, qd@, kd@, vd@),
                    out@.len() == r * width,
                    rows_done(*f, width as nat, of, out@),
            {
                let done = flash_row(f, &g, qd, kd, vd, r);
                push_row(f, &mut out, &done, r, width, Ghost(of));
            }
            Ok(Tensor::new(out, q.shape.copy()))
        },
        _ => Err(not_single_error()),
    }
}

} // verus!
