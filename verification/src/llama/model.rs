//! The model: its weights, and what it makes of a prompt.

use crate::float::{bits, computes, computes_all, Float, Fx};
use crate::kernels::reduce::part_of;
use crate::llama::attend::{attend, law_rows_behind_are_unseen, Heads};
use crate::llama::steps::{
    add_row, added, cosines, gate_row, gated, multiplied, multiply_row, normed, rms_norm,
    rope_tables, rows_compute, sines, turn, turned,
};
use vstd::arithmetic::mul::*;
use vstd::prelude::*;

verus! {

/// The most tokens that a prompt may have.
pub const MAX_PROMPT: usize = 512;

/// A matrix of weights.
#[derive(Debug)]
pub enum Weight {
    /// Row by row, as numbers.
    Plain(Vec<u32>),
    /// Kept by the host under a number, in quantized form.
    Stored(usize),
}

/// The contents of a [`Weight`].
pub enum WeightView {
    Plain(Seq<u32>),
    Stored(usize),
}

impl View for Weight {
    type V = WeightView;

    open spec fn view(&self) -> WeightView {
        match self {
            Weight::Plain(w) => WeightView::Plain(w@),
            Weight::Stored(id) => WeightView::Stored(*id),
        }
    }
}

impl WeightView {
    /// There are enough numbers for `k` rows of `n`.
    pub open spec fn fits(self, k: int, n: int) -> bool {
        match self {
            WeightView::Plain(w) => k * n <= w.len(),
            WeightView::Stored(_) => true,
        }
    }

    /// The product of a row with the matrix, `n` columns wide.
    pub open spec fn projected(self, x: Seq<Fx>, n: nat) -> Seq<Fx> {
        match self {
            WeightView::Plain(w) => multiplied(x, w, n),
            WeightView::Stored(id) => Seq::new(
                n,
                |j: int| Fx::Stored { matrix: id, x, at: j },
            ),
        }
    }

    /// The products of rows with the matrix.
    pub open spec fn projected_rows(self, x: Seq<Seq<Fx>>, n: nat) -> Seq<Seq<Fx>> {
        Seq::new(x.len(), |i: int| self.projected(x[i], n))
    }

    /// The host gave a product with the matrix that is not `n` long.
    pub open spec fn lost<F: Float>(self, f: F, n: nat) -> bool {
        self matches WeightView::Stored(id) && exists|x: Vec<u32>, out: Vec<u32>|
            #[trigger] call_ensures(F::stored_product, (&f, id, &x), out) && out@.len() != n
    }
}

/// The sizes of a model.
#[derive(Debug, Clone, Copy)]
pub struct LlamaDims {
    /// The heads; the query heads of a row make up its width.
    pub heads: Heads,
    /// The width of the inner rows.
    pub inner: usize,
    /// How many tokens there are.
    pub vocab: usize,
    /// What mean squares are moved by, as bits.
    pub eps: u32,
    /// The base of the angles, as bits.
    pub base: u32,
}

impl LlamaDims {
    /// The width of a row.
    pub open spec fn width(self) -> nat {
        (self.heads.queries * self.heads.width) as nat
    }

    /// The width of a row of keys or values.
    pub open spec fn key_width(self) -> nat {
        (self.heads.keys * self.heads.width) as nat
    }
}

/// The sizes of TinyLlama with 1.1 billion weights.
pub fn tiny_llama() -> (d: LlamaDims)
    ensures
        d.heads.wf(),
        d.width() == 2048,
        d.heads.queries == 32,
        d.heads.keys == 4,
        d.heads.width == 64,
        d.inner == 5632,
        d.vocab == 32000,
        d.eps == 0x3727_c5acu32,
        d.base == 0x461c_4000u32,
{
    LlamaDims {
        heads: Heads { queries: 32, keys: 4, width: 64 },
        inner: 5632,
        vocab: 32000,
        eps: 0x3727_c5ac,
        base: 0x461c_4000,
    }
}

/// The weights of a layer.
#[derive(Debug)]
pub struct Layer {
    pub attn_norm: Vec<u32>,
    pub q: Weight,
    pub k: Weight,
    pub v: Weight,
    pub output: Weight,
    pub ffn_norm: Vec<u32>,
    pub gate: Weight,
    pub up: Weight,
    pub down: Weight,
}

impl Layer {
    /// The weights have the sizes of the model.
    pub open spec fn wf(&self, d: LlamaDims) -> bool {
        let w = d.width() as int;
        &&& self.attn_norm@.len() == w
        &&& self.ffn_norm@.len() == w
        &&& self.q@.fits(w, w)
        &&& self.k@.fits(w, d.key_width() as int)
        &&& self.v@.fits(w, d.key_width() as int)
        &&& self.output@.fits(w, w)
        &&& self.gate@.fits(w, d.inner as int)
        &&& self.up@.fits(w, d.inner as int)
        &&& self.down@.fits(d.inner as int, w)
    }

    /// The host gave a product of the wrong length.
    pub open spec fn lost<F: Float>(&self, f: F, d: LlamaDims) -> bool {
        ||| self.q@.lost(f, d.width())
        ||| self.k@.lost(f, d.key_width())
        ||| self.v@.lost(f, d.key_width())
        ||| self.output@.lost(f, d.width())
        ||| self.gate@.lost(f, d.inner as nat)
        ||| self.up@.lost(f, d.inner as nat)
        ||| self.down@.lost(f, d.width())
    }

    /// The rows behind the attention of the layer, which is added to them.
    pub open spec fn attended(&self, d: LlamaDims, x: Seq<Seq<Fx>>) -> Seq<Seq<Fx>> {
        let y = normed_rows(x, self.attn_norm@, d.eps);
        let q = turned_rows(self.q@.projected_rows(y, d.width()), d);
        let k = turned_rows(self.k@.projected_rows(y, d.key_width()), d);
        let v = self.v@.projected_rows(y, d.key_width());
        let a = d.heads.attention(q, k, v);
        added_rows(x, self.output@.projected_rows(a, d.width()))
    }

    /// The rows behind the inner part of the layer, which is added to them.
    pub open spec fn fed(&self, d: LlamaDims, x: Seq<Seq<Fx>>) -> Seq<Seq<Fx>> {
        let z = normed_rows(x, self.ffn_norm@, d.eps);
        let g = self.gate@.projected_rows(z, d.inner as nat);
        let u = self.up@.projected_rows(z, d.inner as nat);
        added_rows(x, self.down@.projected_rows(gated_rows(g, u), d.width()))
    }

    /// The rows behind the layer.
    pub open spec fn passed(&self, d: LlamaDims, x: Seq<Seq<Fx>>) -> Seq<Seq<Fx>> {
        self.fed(d, self.attended(d, x))
    }
}

/// Rows, each normalized.
pub open spec fn normed_rows(x: Seq<Seq<Fx>>, w: Seq<u32>, eps: u32) -> Seq<Seq<Fx>> {
    Seq::new(x.len(), |i: int| normed(x[i], w, eps))
}

/// Rows, each turned as its position asks.
pub open spec fn turned_rows(x: Seq<Seq<Fx>>, d: LlamaDims) -> Seq<Seq<Fx>> {
    Seq::new(
        x.len(),
        |i: int|
            turned(
                x[i],
                d.heads.width as nat,
                sines(i as usize, d.heads.width, d.base),
                cosines(i as usize, d.heads.width, d.base),
            ),
    )
}

/// Rows, added row by row.
pub open spec fn added_rows(a: Seq<Seq<Fx>>, b: Seq<Seq<Fx>>) -> Seq<Seq<Fx>> {
    Seq::new(a.len(), |i: int| added(a[i], b[i]))
}

/// Rows, gated row by row.
pub open spec fn gated_rows(g: Seq<Seq<Fx>>, u: Seq<Seq<Fx>>) -> Seq<Seq<Fx>> {
    Seq::new(g.len(), |i: int| gated(g[i], u[i]))
}

/// A model with all its weights.
#[derive(Debug)]
pub struct Llama {
    pub dims: LlamaDims,
    /// A row for every token.
    pub embed: Vec<u32>,
    pub layers: Vec<Layer>,
    pub output_norm: Vec<u32>,
    pub output: Weight,
}

impl Llama {
    /// All weights have the sizes of the model.
    pub open spec fn wf(&self) -> bool {
        &&& self.dims.heads.wf()
        &&& self.output_norm@.len() == self.dims.width()
        &&& self.output@.fits(self.dims.width() as int, self.dims.vocab as int)
        &&& forall|l: int| 0 <= l < self.layers@.len() ==> (#[trigger] self.layers@[l]).wf(self.dims)
    }

    /// The token has a row.
    pub open spec fn knows(&self, token: u32) -> bool {
        (token + 1) * self.dims.width() <= self.embed@.len()
    }

    /// The row of a token.
    pub open spec fn embedded(&self, token: u32) -> Seq<Fx> {
        Seq::new(
            self.dims.width(),
            |j: int| bits(self.embed@[token * self.dims.width() + j]),
        )
    }

    /// The rows of a prompt behind the first `n` layers.
    pub open spec fn rows(&self, tokens: Seq<u32>, n: nat) -> Seq<Seq<Fx>>
        decreases n,
    {
        if n == 0 {
            Seq::new(tokens.len(), |i: int| self.embedded(tokens[i]))
        } else {
            self.layers@[n - 1].passed(self.dims, self.rows(tokens, (n - 1) as nat))
        }
    }

    /// The scores of all tokens behind a prompt.
    pub open spec fn logits(&self, tokens: Seq<u32>) -> Seq<Fx> {
        let last = self.rows(tokens, self.layers@.len()).last();
        self.output@.projected(
            normed(last, self.output_norm@, self.dims.eps),
            self.dims.vocab as nat,
        )
    }

    /// The host gave a product of the wrong length.
    pub open spec fn lost<F: Float>(&self, f: F) -> bool {
        ||| self.output@.lost(f, self.dims.vocab as nat)
        ||| exists|l: int| 0 <= l < self.layers@.len() && (#[trigger] self.layers@[l]).lost(f, self.dims)
    }
}

impl Weight {
    /// Whether there are enough numbers for `k` rows of `n`.
    pub fn holds(&self, k: usize, n: usize) -> (r: bool)
        ensures
            r == self@.fits(k as int, n as int),
    {
        match self {
            Weight::Plain(w) => {
                let size: usize = w.len();
                match k.checked_mul(n) {
                    Some(p) => p <= size,
                    None => false,
                }
            },
            Weight::Stored(_) => true,
        }
    }
}

impl Heads {
    /// Whether the query heads fall into equal groups and rows are machine
    /// numbers wide.
    pub fn check(&self) -> (r: bool)
        ensures
            r == self.wf(),
    {
        self.keys > 0 && self.queries > 0 && self.queries % self.keys == 0
            && self.queries.checked_mul(self.width).is_some()
            && self.keys.checked_mul(self.width).is_some()
    }
}

impl Layer {
    /// Whether the weights have the sizes of the model.
    pub fn check(&self, d: &LlamaDims) -> (r: bool)
        requires
            d.heads.wf(),
        ensures
            r == self.wf(*d),
    {
        let w: usize = d.heads.queries * d.heads.width;
        let kw: usize = d.heads.keys * d.heads.width;
        self.attn_norm.len() == w && self.ffn_norm.len() == w && self.q.holds(w, w)
            && self.k.holds(w, kw) && self.v.holds(w, kw) && self.output.holds(w, w)
            && self.gate.holds(w, d.inner) && self.up.holds(w, d.inner) && self.down.holds(
            d.inner,
            w,
        )
    }
}

impl Llama {
    /// Whether all weights have the sizes of the model.
    pub fn check(&self) -> (r: bool)
        ensures
            r == self.wf(),
    {
        if !self.dims.heads.check() {
            return false;
        }
        let w: usize = self.dims.heads.queries * self.dims.heads.width;
        if self.output_norm.len() != w || !self.output.holds(w, self.dims.vocab) {
            return false;
        }
        for l in 0..self.layers.len()
            invariant
                self.dims.heads.wf(),
                forall|j: int| 0 <= j < l ==> (#[trigger] self.layers@[j]).wf(self.dims),
        {
            if !self.layers[l].check(&self.dims) {
                proof {
                    assert(!self.layers@[l as int].wf(self.dims));
                }
                return false;
            }
        }
        true
    }

    /// Whether the model can read the prompt: it is neither empty nor too
    /// long, and every token has a row.
    pub fn reads(&self, tokens: &Vec<u32>) -> (r: bool)
        requires
            self.wf(),
        ensures
            r == (0 < tokens@.len() <= MAX_PROMPT && forall|i: int|
                0 <= i < tokens@.len() ==> self.knows(#[trigger] tokens@[i])),
    {
        if tokens.len() == 0 || tokens.len() > MAX_PROMPT {
            return false;
        }
        let w: usize = self.dims.heads.queries * self.dims.heads.width;
        let size: usize = self.embed.len();
        for i in 0..tokens.len()
            invariant
                w == self.dims.width(),
                size == self.embed@.len(),
                forall|j: int| 0 <= j < i ==> self.knows(#[trigger] tokens@[j]),
        {
            let known: bool = match (tokens[i] as u128).checked_add(1) {
                Some(n) => match n.checked_mul(w as u128) {
                    Some(p) => p <= size as u128,
                    None => false,
                },
                None => false,
            };
            if !known {
                proof {
                    assert(!self.knows(tokens@[i as int]));
                }
                return false;
            }
        }
        true
    }
}

/// What the model makes of a token does not depend on the tokens behind it.
pub proof fn law_later_tokens_are_unseen(m: &Llama, a: Seq<u32>, b: Seq<u32>, n: nat, i: int)
    requires
        n <= m.layers@.len(),
        a.len() == b.len(),
        0 <= i < a.len(),
        forall|j: int| 0 <= j <= i ==> #[trigger] a[j] == b[j],
    ensures
        m.rows(a, n).len() == a.len(),
        m.rows(b, n).len() == b.len(),
        m.rows(a, n)[i] == m.rows(b, n)[i],
    decreases n,
{
    if n > 0 {
        let before = (n - 1) as nat;
        law_later_tokens_are_unseen(m, a, b, before, i);
        assert forall|j: int| 0 <= j <= i implies #[trigger] m.rows(a, before)[j] == m.rows(
            b,
            before,
        )[j] by {
            law_later_tokens_are_unseen(m, a, b, before, j);
        }
        lemma_layer_unseen(m.layers@[n - 1], m.dims, m.rows(a, before), m.rows(b, before), i);
    }
}

/// What a layer makes of a row does not depend on the rows behind it.
proof fn lemma_layer_unseen(l: Layer, d: LlamaDims, x: Seq<Seq<Fx>>, y: Seq<Seq<Fx>>, i: int)
    requires
        x.len() == y.len(),
        0 <= i < x.len(),
        forall|j: int| 0 <= j <= i ==> #[trigger] x[j] == y[j],
    ensures
        l.passed(d, x).len() == x.len(),
        l.passed(d, y).len() == y.len(),
        l.passed(d, x)[i] == l.passed(d, y)[i],
{
    let xn = normed_rows(x, l.attn_norm@, d.eps);
    let yn = normed_rows(y, l.attn_norm@, d.eps);
    let xq = turned_rows(l.q@.projected_rows(xn, d.width()), d);
    let yq = turned_rows(l.q@.projected_rows(yn, d.width()), d);
    let xk = turned_rows(l.k@.projected_rows(xn, d.key_width()), d);
    let yk = turned_rows(l.k@.projected_rows(yn, d.key_width()), d);
    let xv = l.v@.projected_rows(xn, d.key_width());
    let yv = l.v@.projected_rows(yn, d.key_width());
    assert forall|j: int| 0 <= j <= i implies #[trigger] xk[j] == yk[j] by {
        assert(x[j] == y[j]);
        assert(xn[j] == yn[j]);
    }
    assert forall|j: int| 0 <= j <= i implies #[trigger] xv[j] == yv[j] by {
        assert(x[j] == y[j]);
        assert(xn[j] == yn[j]);
    }
    assert(x[i] == y[i]);
    assert(xn[i] == yn[i]);
    assert(xq[i] == yq[i]);
    law_rows_behind_are_unseen(d.heads, xq, xk, xv, yq, yk, yv, i);
    assert(l.attended(d, x)[i] == l.attended(d, y)[i]);
}

/// All rows are `n` long.
pub open spec fn wide(x: Seq<Seq<Fx>>, n: nat) -> bool {
    forall|i: int| 0 <= i < x.len() ==> (#[trigger] x[i]).len() == n
}

/// Rows of numbers are as long as their expressions.
proof fn lemma_wide<F: Float>(f: F, es: Seq<Seq<Fx>>, rows: Seq<Vec<u32>>, n: nat)
    requires
        rows_compute(f, es, rows),
        wide(es, n),
    ensures
        forall|i: int| 0 <= i < rows.len() ==> (#[trigger] rows[i])@.len() == n,
{
    assert forall|i: int| 0 <= i < rows.len() implies (#[trigger] rows[i])@.len() == n by {
        assert(computes_all(f, es[i], rows[i]@));
        assert(es[i].len() == n);
    }
}

/// The product of a row with a matrix.
fn project<F: Float>(f: &F, w: &Weight, x: &Vec<u32>, n: usize, Ghost(ex): Ghost<Seq<Fx>>) -> (r:
    Option<Vec<u32>>)
    requires
        computes_all(*f, ex, x@),
        w@.fits(x@.len() as int, n as int),
    ensures
        match r {
            Some(out) => computes_all(*f, w@.projected(ex, n as nat), out@),
            None => w@.lost(*f, n as nat),
        },
{
    match w {
        Weight::Plain(m) => Some(multiply_row(f, x, m, n, Ghost(ex))),
        Weight::Stored(id) => {
            let out = f.stored_product(*id, x);
            proof {
                assert(call_ensures(F::stored_product, (f, *id, x), out));
            }
            if out.len() != n {
                return None;
            }
            proof {
                let es = w@.projected(ex, n as nat);
                assert forall|j: int| 0 <= j < es.len() implies computes(
                    *f,
                    es[j],
                    #[trigger] out@[j],
                ) by {
                    assert(es[j] == Fx::Stored { matrix: *id, x: ex, at: j });
                    assert(call_ensures(F::stored_product, (f, *id, x), out));
                }
            }
            Some(out)
        },
    }
}

/// The products of rows with a matrix.
fn project_rows<F: Float>(
    f: &F,
    w: &Weight,
    x: &Vec<Vec<u32>>,
    k: usize,
    n: usize,
    Ghost(ex): Ghost<Seq<Seq<Fx>>>,
) -> (r: Option<Vec<Vec<u32>>>)
    requires
        rows_compute(*f, ex, x@),
        wide(ex, k as nat),
        w@.fits(k as int, n as int),
    ensures
        wide(w@.projected_rows(ex, n as nat), n as nat),
        match r {
            Some(out) => rows_compute(*f, w@.projected_rows(ex, n as nat), out@),
            None => w@.lost(*f, n as nat),
        },
{
    let ghost want = w@.projected_rows(ex, n as nat);
    let mut out: Vec<Vec<u32>> = Vec::new();
    for i in 0..x.len()
        invariant
            rows_compute(*f, ex, x@),
            wide(ex, k as nat),
            w@.fits(k as int, n as int),
            want == w@.projected_rows(ex, n as nat),
            out@.len() == i,
            forall|j: int| 0 <= j < i ==> computes_all(*f, want[j], (#[trigger] out@[j])@),
    {
        proof {
            assert(computes_all(*f, ex[i as int], x@[i as int]@));
            assert(ex[i as int].len() == k);
        }
        match project(f, w, &x[i], n, Ghost(ex[i as int])) {
            Some(row) => out.push(row),
            None => {
                return None;
            },
        }
    }
    Some(out)
}

/// Normalizes rows.
fn norm_rows<F: Float>(
    f: &F,
    x: &Vec<Vec<u32>>,
    w: &Vec<u32>,
    eps: u32,
    Ghost(ex): Ghost<Seq<Seq<Fx>>>,
) -> (out: Vec<Vec<u32>>)
    requires
        rows_compute(*f, ex, x@),
        wide(ex, w@.len()),
    ensures
        wide(normed_rows(ex, w@, eps), w@.len()),
        rows_compute(*f, normed_rows(ex, w@, eps), out@),
{
    let ghost want = normed_rows(ex, w@, eps);
    let mut out: Vec<Vec<u32>> = Vec::new();
    for i in 0..x.len()
        invariant
            rows_compute(*f, ex, x@),
            wide(ex, w@.len()),
            want == normed_rows(ex, w@, eps),
            out@.len() == i,
            forall|j: int| 0 <= j < i ==> computes_all(*f, want[j], (#[trigger] out@[j])@),
    {
        proof {
            assert(computes_all(*f, ex[i as int], x@[i as int]@));
            assert(ex[i as int].len() == w@.len());
        }
        let row = rms_norm(f, &x[i], w, eps, Ghost(ex[i as int]));
        out.push(row);
    }
    out
}

/// Turns rows as their positions ask.
fn turn_rows<F: Float>(
    f: &F,
    x: &Vec<Vec<u32>>,
    heads: usize,
    d: &LlamaDims,
    sin: &Vec<Vec<u32>>,
    cos: &Vec<Vec<u32>>,
    Ghost(ex): Ghost<Seq<Seq<Fx>>>,
) -> (out: Vec<Vec<u32>>)
    requires
        rows_compute(*f, ex, x@),
        wide(ex, (heads * d.heads.width) as nat),
        x@.len() <= sin@.len(),
        x@.len() <= cos@.len(),
        forall|p: int|
            0 <= p < sin@.len() ==> computes_all(
                *f,
                sines(p as usize, d.heads.width, d.base),
                (#[trigger] sin@[p])@,
            ),
        forall|p: int|
            0 <= p < cos@.len() ==> computes_all(
                *f,
                cosines(p as usize, d.heads.width, d.base),
                (#[trigger] cos@[p])@,
            ),
    ensures
        wide(turned_rows(ex, *d), (heads * d.heads.width) as nat),
        rows_compute(*f, turned_rows(ex, *d), out@),
{
    let ghost want = turned_rows(ex, *d);
    let mut out: Vec<Vec<u32>> = Vec::new();
    for i in 0..x.len()
        invariant
            rows_compute(*f, ex, x@),
            wide(ex, (heads * d.heads.width) as nat),
            x@.len() <= sin@.len(),
            x@.len() <= cos@.len(),
            forall|p: int|
                0 <= p < sin@.len() ==> computes_all(
                    *f,
                    sines(p as usize, d.heads.width, d.base),
                    (#[trigger] sin@[p])@,
                ),
            forall|p: int|
                0 <= p < cos@.len() ==> computes_all(
                    *f,
                    cosines(p as usize, d.heads.width, d.base),
                    (#[trigger] cos@[p])@,
                ),
            want == turned_rows(ex, *d),
            out@.len() == i,
            forall|j: int| 0 <= j < i ==> computes_all(*f, want[j], (#[trigger] out@[j])@),
    {
        let ghost es = sines(i, d.heads.width, d.base);
        let ghost ec = cosines(i, d.heads.width, d.base);
        proof {
            assert(computes_all(*f, ex[i as int], x@[i as int]@));
            assert(ex[i as int].len() == heads * d.heads.width);
            assert(computes_all(*f, es, sin@[i as int]@));
            assert(computes_all(*f, ec, cos@[i as int]@));
        }
        let row = turn(
            f,
            &x[i],
            heads,
            d.heads.width,
            &sin[i],
            &cos[i],
            Ghost(ex[i as int]),
            Ghost(es),
            Ghost(ec),
        );
        out.push(row);
    }
    out
}

/// Adds rows, row by row.
fn add_rows<F: Float>(
    f: &F,
    a: &Vec<Vec<u32>>,
    b: &Vec<Vec<u32>>,
    Ghost(n): Ghost<nat>,
    Ghost(ea): Ghost<Seq<Seq<Fx>>>,
    Ghost(eb): Ghost<Seq<Seq<Fx>>>,
) -> (out: Vec<Vec<u32>>)
    requires
        a@.len() == b@.len(),
        rows_compute(*f, ea, a@),
        rows_compute(*f, eb, b@),
        wide(ea, n),
        wide(eb, n),
    ensures
        wide(added_rows(ea, eb), n),
        rows_compute(*f, added_rows(ea, eb), out@),
{
    let ghost want = added_rows(ea, eb);
    let mut out: Vec<Vec<u32>> = Vec::new();
    for i in 0..a.len()
        invariant
            a@.len() == b@.len(),
            rows_compute(*f, ea, a@),
            rows_compute(*f, eb, b@),
            wide(ea, n),
            wide(eb, n),
            want == added_rows(ea, eb),
            out@.len() == i,
            forall|j: int| 0 <= j < i ==> computes_all(*f, want[j], (#[trigger] out@[j])@),
    {
        proof {
            assert(computes_all(*f, ea[i as int], a@[i as int]@));
            assert(computes_all(*f, eb[i as int], b@[i as int]@));
            assert(ea[i as int].len() == eb[i as int].len());
        }
        let row = add_row(f, &a[i], &b[i], Ghost(ea[i as int]), Ghost(eb[i as int]));
        out.push(row);
    }
    out
}

/// Gates rows, row by row.
fn gate_rows<F: Float>(
    f: &F,
    a: &Vec<Vec<u32>>,
    b: &Vec<Vec<u32>>,
    Ghost(n): Ghost<nat>,
    Ghost(ea): Ghost<Seq<Seq<Fx>>>,
    Ghost(eb): Ghost<Seq<Seq<Fx>>>,
) -> (out: Vec<Vec<u32>>)
    requires
        a@.len() == b@.len(),
        rows_compute(*f, ea, a@),
        rows_compute(*f, eb, b@),
        wide(ea, n),
        wide(eb, n),
    ensures
        wide(gated_rows(ea, eb), n),
        rows_compute(*f, gated_rows(ea, eb), out@),
{
    let ghost want = gated_rows(ea, eb);
    let mut out: Vec<Vec<u32>> = Vec::new();
    for i in 0..a.len()
        invariant
            a@.len() == b@.len(),
            rows_compute(*f, ea, a@),
            rows_compute(*f, eb, b@),
            wide(ea, n),
            wide(eb, n),
            want == gated_rows(ea, eb),
            out@.len() == i,
            forall|j: int| 0 <= j < i ==> computes_all(*f, want[j], (#[trigger] out@[j])@),
    {
        proof {
            assert(computes_all(*f, ea[i as int], a@[i as int]@));
            assert(computes_all(*f, eb[i as int], b@[i as int]@));
            assert(ea[i as int].len() == eb[i as int].len());
        }
        let row = gate_row(f, &a[i], &b[i], Ghost(ea[i as int]), Ghost(eb[i as int]));
        out.push(row);
    }
    out
}

/// The attention of a layer.
fn attend_layer<F: Float>(
    f: &F,
    l: &Layer,
    d: &LlamaDims,
    x: &Vec<Vec<u32>>,
    sin: &Vec<Vec<u32>>,
    cos: &Vec<Vec<u32>>,
    Ghost(ex): Ghost<Seq<Seq<Fx>>>,
) -> (r: Option<Vec<Vec<u32>>>)
    requires
        d.heads.wf(),
        l.wf(*d),
        rows_compute(*f, ex, x@),
        wide(ex, d.width()),
        x@.len() <= sin@.len(),
        x@.len() <= cos@.len(),
        forall|p: int|
            0 <= p < sin@.len() ==> computes_all(
                *f,
                sines(p as usize, d.heads.width, d.base),
                (#[trigger] sin@[p])@,
            ),
        forall|p: int|
            0 <= p < cos@.len() ==> computes_all(
                *f,
                cosines(p as usize, d.heads.width, d.base),
                (#[trigger] cos@[p])@,
            ),
    ensures
        wide(l.attended(*d, ex), d.width()),
        match r {
            Some(out) => rows_compute(*f, l.attended(*d, ex), out@),
            None => l.lost(*f, *d),
        },
{
    let w: usize = d.heads.queries * d.heads.width;
    let kw: usize = d.heads.keys * d.heads.width;
    let ghost y = normed_rows(ex, l.attn_norm@, d.eps);
    let ghost q0 = l.q@.projected_rows(y, d.width());
    let ghost k0 = l.k@.projected_rows(y, d.key_width());
    let ghost ev = l.v@.projected_rows(y, d.key_width());
    let ghost eq = turned_rows(q0, *d);
    let ghost ek = turned_rows(k0, *d);
    let ghost ea = d.heads.attention(eq, ek, ev);
    let ghost eo = l.output@.projected_rows(ea, d.width());
    proof {
        assert(l.attended(*d, ex) == added_rows(ex, eo));
        assert forall|i: int| 0 <= i < ex.len() implies (#[trigger] l.attended(*d, ex)[i]).len()
            == d.width() by {
            assert(ex[i].len() == d.width());
        }
    }
    let ys = norm_rows(f, x, &l.attn_norm, d.eps, Ghost(ex));
    let qs0 = match project_rows(f, &l.q, &ys, w, w, Ghost(y)) {
        Some(v) => v,
        None => {
            return None;
        },
    };
    let ks0 = match project_rows(f, &l.k, &ys, w, kw, Ghost(y)) {
        Some(v) => v,
        None => {
            return None;
        },
    };
    let vs = match project_rows(f, &l.v, &ys, w, kw, Ghost(y)) {
        Some(v) => v,
        None => {
            return None;
        },
    };
    let qs = turn_rows(f, &qs0, d.heads.queries, d, sin, cos, Ghost(q0));
    let ks = turn_rows(f, &ks0, d.heads.keys, d, sin, cos, Ghost(k0));
    proof {
        lemma_wide(*f, eq, qs@, d.width());
        lemma_wide(*f, ek, ks@, d.key_width());
        lemma_wide(*f, ev, vs@, d.key_width());
    }
    let xs = attend(f, &d.heads, &qs, &ks, &vs, Ghost(eq), Ghost(ek), Ghost(ev));
    let os = match project_rows(f, &l.output, &xs, w, w, Ghost(ea)) {
        Some(v) => v,
        None => {
            return None;
        },
    };
    Some(add_rows(f, x, &os, Ghost(d.width()), Ghost(ex), Ghost(eo)))
}

/// The inner part of a layer.
fn feed_layer<F: Float>(f: &F, l: &Layer, d: &LlamaDims, x: &Vec<Vec<u32>>, Ghost(ex): Ghost<
    Seq<Seq<Fx>>,
>) -> (r: Option<Vec<Vec<u32>>>)
    requires
        d.heads.wf(),
        l.wf(*d),
        rows_compute(*f, ex, x@),
        wide(ex, d.width()),
    ensures
        wide(l.fed(*d, ex), d.width()),
        match r {
            Some(out) => rows_compute(*f, l.fed(*d, ex), out@),
            None => l.lost(*f, *d),
        },
{
    let w: usize = d.heads.queries * d.heads.width;
    let ghost z = normed_rows(ex, l.ffn_norm@, d.eps);
    let ghost eg = l.gate@.projected_rows(z, d.inner as nat);
    let ghost eu = l.up@.projected_rows(z, d.inner as nat);
    let ghost em = gated_rows(eg, eu);
    let ghost eo = l.down@.projected_rows(em, d.width());
    proof {
        assert(l.fed(*d, ex) == added_rows(ex, eo));
        assert forall|i: int| 0 <= i < ex.len() implies (#[trigger] l.fed(*d, ex)[i]).len()
            == d.width() by {
            assert(ex[i].len() == d.width());
        }
    }
    let zs = norm_rows(f, x, &l.ffn_norm, d.eps, Ghost(ex));
    let gs = match project_rows(f, &l.gate, &zs, w, d.inner, Ghost(z)) {
        Some(v) => v,
        None => {
            return None;
        },
    };
    let us = match project_rows(f, &l.up, &zs, w, d.inner, Ghost(z)) {
        Some(v) => v,
        None => {
            return None;
        },
    };
    let ms = gate_rows(f, &gs, &us, Ghost(d.inner as nat), Ghost(eg), Ghost(eu));
    let os = match project_rows(f, &l.down, &ms, d.inner, w, Ghost(em)) {
        Some(v) => v,
        None => {
            return None;
        },
    };
    Some(add_rows(f, x, &os, Ghost(d.width()), Ghost(ex), Ghost(eo)))
}

impl Llama {
    /// The rows of the tokens of a prompt.
    fn embed_rows<F: Float>(&self, f: &F, tokens: &Vec<u32>) -> (out: Vec<Vec<u32>>)
        requires
            self.wf(),
            forall|i: int| 0 <= i < tokens@.len() ==> self.knows(#[trigger] tokens@[i]),
        ensures
            wide(self.rows(tokens@, 0), self.dims.width()),
            rows_compute(*f, self.rows(tokens@, 0), out@),
    {
        let w: usize = self.dims.heads.queries * self.dims.heads.width;
        let size: usize = self.embed.len();
        let ghost want = self.rows(tokens@, 0);
        let mut out: Vec<Vec<u32>> = Vec::new();
        for i in 0..tokens.len()
            invariant
                w == self.dims.width(),
                size == self.embed@.len(),
                forall|i: int| 0 <= i < tokens@.len() ==> self.knows(#[trigger] tokens@[i]),
                want == self.rows(tokens@, 0),
                out@.len() == i,
                forall|j: int| 0 <= j < i ==> computes_all(*f, want[j], (#[trigger] out@[j])@),
        {
            let t: usize = tokens[i] as usize;
            proof {
                assert(self.knows(tokens@[i as int]));
                assert((t + 1) * w == t * w + w && t * w >= 0) by (nonlinear_arith);
            }
            let row = part_of(&self.embed, t * w, w);
            out.push(row);
        }
        out
    }

    /// Reads a prompt: the scores of all tokens behind it, and its rows behind
    /// the last layer. There is none where the host loses a product.
    pub fn prefill<F: Float>(&self, f: &F, tokens: &Vec<u32>) -> (r: Option<
        (Vec<u32>, Vec<Vec<u32>>),
    >)
        requires
            self.wf(),
            0 < tokens@.len() <= MAX_PROMPT,
            forall|i: int| 0 <= i < tokens@.len() ==> self.knows(#[trigger] tokens@[i]),
        ensures
            match r {
                Some((logits, rows)) => computes_all(*f, self.logits(tokens@), logits@)
                    && rows_compute(*f, self.rows(tokens@, self.layers@.len()), rows@),
                None => self.lost(*f),
            },
    {
        let d = &self.dims;
        let n: usize = tokens.len();
        let (sin, cos) = rope_tables(f, MAX_PROMPT, d.heads.width, d.base);
        proof {
            assert forall|p: int| 0 <= p < sin@.len() implies computes_all(
                *f,
                sines(p as usize, d.heads.width, d.base),
                (#[trigger] sin@[p])@,
            ) by {}
            assert forall|p: int| 0 <= p < cos@.len() implies computes_all(
                *f,
                cosines(p as usize, d.heads.width, d.base),
                (#[trigger] cos@[p])@,
            ) by {}
        }
        let mut x = self.embed_rows(f, tokens);
        for l in 0..self.layers.len()
            invariant
                self.wf(),
                *d == self.dims,
                n == tokens@.len(),
                n <= MAX_PROMPT,
                sin@.len() == MAX_PROMPT,
                cos@.len() == MAX_PROMPT,
                forall|p: int|
                    0 <= p < sin@.len() ==> computes_all(
                        *f,
                        sines(p as usize, d.heads.width, d.base),
                        (#[trigger] sin@[p])@,
                    ),
                forall|p: int|
                    0 <= p < cos@.len() ==> computes_all(
                        *f,
                        cosines(p as usize, d.heads.width, d.base),
                        (#[trigger] cos@[p])@,
                    ),
                x@.len() == n,
                wide(self.rows(tokens@, l as nat), self.dims.width()),
                rows_compute(*f, self.rows(tokens@, l as nat), x@),
        {
            let layer = &self.layers[l];
            let ghost ex = self.rows(tokens@, l as nat);
            proof {
                assert(self.layers@[l as int].wf(self.dims));
            }
            let a = match attend_layer(f, layer, d, &x, &sin, &cos, Ghost(ex)) {
                Some(v) => v,
                None => {
                    return None;
                },
            };
            let ghost ea = layer.attended(*d, ex);
            x = match feed_layer(f, layer, d, &a, Ghost(ea)) {
                Some(v) => v,
                None => {
                    return None;
                },
            };
        }
        let ghost es = self.rows(tokens@, self.layers@.len());
        proof {
            assert(computes_all(*f, es[n - 1], x@[n - 1]@));
            assert(es[n - 1].len() == self.dims.width());
            assert(es.last() == es[n - 1]);
        }
        let normal = rms_norm(f, &x[n - 1], &self.output_norm, d.eps, Ghost(es[n - 1]));
        match project(
            f,
            &self.output,
            &normal,
            d.vocab,
            Ghost(normed(es[n - 1], self.output_norm@, d.eps)),
        ) {
            Some(logits) => Some((logits, x)),
            None => None,
        }
    }
}

} // verus!
