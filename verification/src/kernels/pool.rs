//! Two-dimensional pooling and its gradients.

use crate::error::{execution_error, Error};
use crate::float::{
    bits, computes, do_count, do_over, do_plus, greater, gt, leaves, over, sum_of, sum_where, Float,
    Fx, LOWEST, ONE, ZERO,
};
use crate::kernels::conv::product3;
use crate::kernels::movement::{lemma_numel_4, lemma_row_major, lemma_split};
use crate::kernels::reduce::{count_of, leaf_at};
use crate::kernels::window::{
    check_axis, column_of, lemma_image_parts, places, plane_of, row_of, sliding, Axis,
};
use crate::shape::{fits, numel, Shape};
use crate::sym::{
    fails, misfit, misfit_error, not_single, not_single_error, realized, yields, Outcome,
};
use crate::tensor::{AnyData, DataView, Tensor, TensorView};
use vstd::arithmetic::div_mod::*;
use vstd::arithmetic::mul::*;
use vstd::prelude::*;

verus! {

/// The sizes of a pooling.
#[derive(Debug, Clone, Copy)]
pub struct PoolGeometry {
    pub batch: usize,
    pub channels: usize,
    pub vertical: Axis,
    pub horizontal: Axis,
}

impl PoolGeometry {
    /// The places of the window.
    pub open spec fn taps(self) -> int {
        self.vertical.kernel * self.horizontal.kernel
    }

    /// The number of elements of the input.
    pub open spec fn inputs(self) -> int {
        self.batch * (self.channels * (self.vertical.len * self.horizontal.len))
    }

    /// The number of elements of the result.
    pub open spec fn outputs(self) -> int {
        self.batch * (self.channels * (self.vertical.out * self.horizontal.out))
    }

    /// All sizes are machine numbers.
    pub open spec fn fits(self) -> bool {
        &&& self.vertical.fits()
        &&& self.horizontal.fits()
        &&& self.taps() <= usize::MAX
        &&& self.vertical.len * self.horizontal.len <= usize::MAX
        &&& self.channels * (self.vertical.len * self.horizontal.len) <= usize::MAX
        &&& self.inputs() <= usize::MAX
        &&& self.vertical.out * self.horizontal.out <= usize::MAX
        &&& self.channels * (self.vertical.out * self.horizontal.out) <= usize::MAX
        &&& self.outputs() <= usize::MAX
    }

    /// Tap `t` of result element `i` falls on an input element.
    pub open spec fn hits(self, i: int, t: int) -> bool {
        let v = self.vertical;
        let h = self.horizontal;
        &&& v.hits(row_of(v.out as int, h.out as int, i), t / h.kernel as int)
        &&& h.hits(column_of(v.out as int, h.out as int, i), t % h.kernel as int)
    }

    /// The input element that tap `t` of result element `i` falls on.
    pub open spec fn input_at(self, i: int, t: int) -> int {
        let v = self.vertical;
        let h = self.horizontal;
        plane_of(v.out as int, h.out as int, i) * (v.len * h.len) + (v.element(
            row_of(v.out as int, h.out as int, i),
            t / h.kernel as int,
        ) * h.len + h.element(column_of(v.out as int, h.out as int, i), t % h.kernel as int))
    }

    /// Whether all sizes are machine numbers.
    pub fn check(&self) -> (ok: bool)
        ensures
            ok == self.fits(),
    {
        proof {
            lemma_mul_nonnegative(self.vertical.len as int, self.horizontal.len as int);
            lemma_mul_nonnegative(self.vertical.out as int, self.horizontal.out as int);
        }
        if !check_axis(&self.vertical) || !check_axis(&self.horizontal) {
            return false;
        }
        if self.vertical.kernel.checked_mul(self.horizontal.kernel).is_none() {
            return false;
        }
        match product3(self.channels, self.vertical.len, self.horizontal.len) {
            Some(p) => {
                if self.batch.checked_mul(p).is_none() {
                    return false;
                }
            },
            None => {
                return false;
            },
        }
        match product3(self.channels, self.vertical.out, self.horizontal.out) {
            Some(p) => self.batch.checked_mul(p).is_some(),
            None => false,
        }
    }

    /// The number of places of the window.
    pub fn tap_count(&self) -> (n: usize)
        requires
            self.fits(),
        ensures
            n == self.taps(),
    {
        self.vertical.kernel * self.horizontal.kernel
    }

    /// The number of elements of the result.
    pub fn output_count(&self) -> (n: usize)
        requires
            self.fits(),
        ensures
            n == self.outputs(),
    {
        self.batch * (self.channels * (self.vertical.out * self.horizontal.out))
    }

    /// The input element that a tap falls on, if it falls on one.
    pub fn input_position(&self, i: usize, t: usize) -> (p: Option<usize>)
        requires
            self.fits(),
            i < self.outputs(),
            t < self.taps(),
        ensures
            match p {
                Some(v) => self.hits(i as int, t as int) && v == self.input_at(i as int, t as int)
                    && v < self.inputs(),
                None => !self.hits(i as int, t as int),
            },
    {
        let v: Axis = self.vertical;
        let h: Axis = self.horizontal;
        proof {
            lemma_image_parts(
                self.batch as int,
                self.channels as int,
                v.out as int,
                h.out as int,
                i as int,
            );
            lemma_split(t as int, v.kernel as int, h.kernel as int);
        }
        let size: usize = v.out * h.out;
        let place: usize = i % size;
        let q: usize = i / size;
        let ih: usize = match v.tap(place / h.out, t / h.kernel) {
            Some(e) => e,
            None => {
                return None;
            },
        };
        let iw: usize = match h.tap(place % h.out, t % h.kernel) {
            Some(e) => e,
            None => {
                return None;
            },
        };
        let plane: usize = v.len * h.len;
        proof {
            lemma_row_major(ih as int, iw as int, v.len as int, h.len as int);
            lemma_row_major(
                q as int,
                ih * h.len + iw,
                self.batch * self.channels,
                plane as int,
            );
            lemma_mul_nonnegative(ih as int, h.len as int);
            lemma_mul_nonnegative(q as int, plane as int);
            assert((self.batch * self.channels) * plane == self.batch * (self.channels * plane))
                by (nonlinear_arith);
        }
        Some(q * plane + (ih * h.len + iw))
    }
}

/// The sizes of a pooling, where the input is a batch of images and the
/// window has a place.
pub open spec fn pool_geometry(x: Seq<usize>, pool: usize, stride: usize, padding: usize) -> Option<
    PoolGeometry,
> {
    match (places(x[2], pool, stride, padding), places(x[3], pool, stride, padding)) {
        (Some(v), Some(h)) => if v <= usize::MAX && h <= usize::MAX {
            Some(
                PoolGeometry {
                    batch: x[0],
                    channels: x[1],
                    vertical: Axis { out: v as usize, kernel: pool, stride, pad: padding, len: x[2] },
                    horizontal: Axis {
                        out: h as usize,
                        kernel: pool,
                        stride,
                        pad: padding,
                        len: x[3],
                    },
                },
            )
        } else {
            None
        },
        _ => None,
    }
}

/// The sizes of a pooling.
fn pool_sizes(x: &Vec<usize>, pool: usize, stride: usize, padding: usize) -> (g: Option<
    PoolGeometry,
>)
    requires
        x@.len() == 4,
    ensures
        match g {
            Some(v) => pool_geometry(x@, pool, stride, padding) == Some(v) && v.fits(),
            None => match pool_geometry(x@, pool, stride, padding) {
                Some(v) => !v.fits(),
                None => true,
            },
        },
{
    match (sliding(x[2], pool, stride, padding), sliding(x[3], pool, stride, padding)) {
        (Some(vertical), Some(horizontal)) => {
            let g = PoolGeometry { batch: x[0], channels: x[1], vertical, horizontal };
            if g.check() {
                Some(g)
            } else {
                None
            }
        },
        _ => None,
    }
}

/// The largest number under the first `n` taps of result element `i`, and the
/// first input element that has it. Nothing is found where no number exceeds
/// the smallest finite one.
pub open spec fn largest(g: PoolGeometry, x: Seq<u32>, i: int, n: nat) -> (u32, Option<int>)
    decreases n,
{
    if n == 0 {
        (LOWEST, None)
    } else {
        let before = largest(g, x, i, (n - 1) as nat);
        let at = g.input_at(i, n - 1);
        if g.hits(i, n - 1) && greater(x[at], before.0) {
            (x[at], Some(at))
        } else {
            before
        }
    }
}

/// The largest number under the window and where it stands.
fn find_largest(g: &PoolGeometry, x: &Vec<u32>, i: usize) -> (r: (u32, Option<usize>))
    requires
        g.fits(),
        x@.len() == g.inputs(),
        i < g.outputs(),
    ensures
        r.0 == largest(*g, x@, i as int, g.taps() as nat).0,
        match r.1 {
            Some(p) => largest(*g, x@, i as int, g.taps() as nat).1 == Some(p as int) && p
                < x@.len(),
            None => largest(*g, x@, i as int, g.taps() as nat).1 is None,
        },
{
    let taps: usize = g.tap_count();
    let mut best: u32 = LOWEST;
    let mut found: Option<usize> = None;
    for t in 0..taps
        invariant
            g.fits(),
            taps == g.taps(),
            x@.len() == g.inputs(),
            i < g.outputs(),
            best == largest(*g, x@, i as int, t as nat).0,
            match found {
                Some(p) => largest(*g, x@, i as int, t as nat).1 == Some(p as int) && p < x@.len(),
                None => largest(*g, x@, i as int, t as nat).1 is None,
            },
    {
        if let Some(p) = g.input_position(i, t) {
            let v: u32 = x[p];
            if gt(v, best) {
                best = v;
                found = Some(p);
            }
        }
    }
    (best, found)
}

/// What a maximum pooling yields.
pub open spec fn max_pool2d_outcome(
    x: TensorView,
    pool: usize,
    stride: usize,
    padding: usize,
) -> Outcome {
    if x.shape.len() != 4 {
        fails("MaxPool2d input must be 4D [B, C, H, W]"@)
    } else {
        match pool_geometry(x.shape, pool, stride, padding) {
            None => misfit(),
            Some(g) => if !g.fits() {
                misfit()
            } else {
                match x.data {
                    DataView::F32(d) => yields(
                        seq![g.batch, g.channels, g.vertical.out, g.horizontal.out],
                        leaves(
                            Seq::new(
                                g.outputs() as nat,
                                |i: int| largest(g, d, i, g.taps() as nat).0,
                            ),
                        ),
                    ),
                    DataView::F16(_) => not_single(),
                }
            },
        }
    }
}

/// The shape of a pooling's result.
fn pooled_shape(g: &PoolGeometry) -> (s: Shape)
    requires
        g.fits(),
    ensures
        s@ == seq![g.batch, g.channels, g.vertical.out, g.horizontal.out],
        fits(s@),
        numel(s@) == g.outputs(),
{
    let s = Shape::new(vec![g.batch, g.channels, g.vertical.out, g.horizontal.out]);
    proof {
        assert(s@ =~= seq![g.batch, g.channels, g.vertical.out, g.horizontal.out]);
        lemma_numel_4(g.batch, g.channels, g.vertical.out, g.horizontal.out);
    }
    s
}

/// The largest number under each place of a window.
pub fn max_pool2d<F: Float>(f: &F, x: &Tensor, pool: usize, stride: usize, padding: usize) -> (r:
    Result<Tensor, Error>)
    requires
        x.wf(),
    ensures
        realized(*f, max_pool2d_outcome(x@, pool, stride, padding), r),
{
    if x.shape.dims.len() != 4 {
        return Err(execution_error("MaxPool2d input must be 4D [B, C, H, W]"));
    }
    let g: PoolGeometry = match pool_sizes(&x.shape.dims, pool, stride, padding) {
        Some(g) => g,
        None => {
            return Err(misfit_error());
        },
    };
    match &x.data {
        AnyData::F32(d) => {
            proof {
                let s = x@.shape;
                assert(s =~= seq![s[0], s[1], s[2], s[3]]);
                lemma_numel_4(s[0], s[1], s[2], s[3]);
            }
            let count: usize = g.output_count();
            let mut out: Vec<u32> = Vec::new();
            for i in 0..count
                invariant
                    g.fits(),
                    count == g.outputs(),
                    d@.len() == g.inputs(),
                    out@.len() == i,
                    forall|j: int|
                        0 <= j < i ==> #[trigger] out@[j] == largest(g, d@, j, g.taps() as nat).0,
            {
                out.push(find_largest(&g, d, i).0);
            }
            Ok(Tensor::new(out, pooled_shape(&g)))
        },
        AnyData::F16(_) => Err(not_single_error()),
    }
}

/// The sizes of a pooling whose result has the shape of `dy`.
pub open spec fn pool_grad_geometry(
    x: Seq<usize>,
    dy: Seq<usize>,
    pool: usize,
    stride: usize,
    padding: usize,
) -> PoolGeometry {
    PoolGeometry {
        batch: x[0],
        channels: x[1],
        vertical: Axis { out: dy[2], kernel: pool, stride, pad: padding, len: x[2] },
        horizontal: Axis { out: dy[3], kernel: pool, stride, pad: padding, len: x[3] },
    }
}

/// The operands of a pooling gradient fit together.
pub open spec fn pool_grad_fits(
    dy: TensorView,
    x: TensorView,
    pool: usize,
    stride: usize,
    padding: usize,
) -> bool {
    &&& x.shape.len() >= 4
    &&& dy.shape.len() >= 4
    &&& {
        let g = pool_grad_geometry(x.shape, dy.shape, pool, stride, padding);
        g.fits() && dy.data.len() >= g.outputs() && x.data.len() == g.inputs()
    }
}

/// The sizes of a pooling gradient, if its operands fit together.
fn pool_grad_sizes(dy: &Tensor, x: &Tensor, pool: usize, stride: usize, padding: usize) -> (g:
    Option<PoolGeometry>)
    ensures
        match g {
            Some(v) => pool_grad_fits(dy@, x@, pool, stride, padding) && v == pool_grad_geometry(
                x@.shape,
                dy@.shape,
                pool,
                stride,
                padding,
            ),
            None => !pool_grad_fits(dy@, x@, pool, stride, padding),
        },
{
    let xs: &Vec<usize> = &x.shape.dims;
    let ds: &Vec<usize> = &dy.shape.dims;
    if xs.len() < 4 || ds.len() < 4 {
        return None;
    }
    let g = PoolGeometry {
        batch: xs[0],
        channels: xs[1],
        vertical: Axis { out: ds[2], kernel: pool, stride, pad: padding, len: xs[2] },
        horizontal: Axis { out: ds[3], kernel: pool, stride, pad: padding, len: xs[3] },
    };
    if !g.check() || count_of(dy) < g.output_count() || count_of(x) != g.batch * (g.channels * (
    g.vertical.len * g.horizontal.len)) {
        return None;
    }
    Some(g)
}

/// The result elements whose largest number stands at input element `j`.
pub open spec fn largest_at(g: PoolGeometry, x: Seq<u32>, j: int) -> spec_fn(int) -> bool {
    |i: int| largest(g, x, i, g.taps() as nat).1 == Some(j)
}

/// What the gradient of a maximum pooling yields.
pub open spec fn max_pool2d_grad_outcome(
    dy: TensorView,
    x: TensorView,
    pool: usize,
    stride: usize,
    padding: usize,
) -> Outcome {
    if !pool_grad_fits(dy, x, pool, stride, padding) {
        misfit()
    } else {
        let g = pool_grad_geometry(x.shape, dy.shape, pool, stride, padding);
        match (dy.data, x.data) {
            (DataView::F32(gd), DataView::F32(xd)) => yields(
                x.shape,
                Seq::new(
                    xd.len(),
                    |j: int|
                        sum_where(
                            g.outputs() as nat,
                            bits(ZERO),
                            largest_at(g, xd, j),
                            leaf_at(gd),
                        ),
                ),
            ),
            _ => not_single(),
        }
    }
}

/// The gradient of a maximum pooling: every element of `dy` goes where the
/// largest number stood.
pub fn max_pool2d_grad<F: Float>(
    f: &F,
    dy: &Tensor,
    x: &Tensor,
    pool: usize,
    stride: usize,
    padding: usize,
) -> (r: Result<Tensor, Error>)
    requires
        dy.wf(),
        x.wf(),
    ensures
        realized(*f, max_pool2d_grad_outcome(dy@, x@, pool, stride, padding), r),
{
    let g: PoolGeometry = match pool_grad_sizes(dy, x, pool, stride, padding) {
        Some(g) => g,
        None => {
            return Err(misfit_error());
        },
    };
    match (&dy.data, &x.data) {
        (AnyData::F32(gd), AnyData::F32(xd)) => {
            let count: usize = g.output_count();
            let size: usize = xd.len();
            let mut out: Vec<u32> = vec![ZERO; size];
            for i in 0..count
                invariant
                    g.fits(),
                    count == g.outputs(),
                    xd@.len() == g.inputs(),
                    gd@.len() >= g.outputs(),
                    out@.len() == xd@.len(),
                    forall|j: int|
                        0 <= j < out@.len() ==> computes(
                            *f,
                            sum_where(i as nat, bits(ZERO), largest_at(g, xd@, j), leaf_at(gd@)),
                            #[trigger] out@[j],
                        ),
            {
                match find_largest(&g, xd, i).1 {
                    Some(p) => {
                        let d: u32 = gd[i];
                        let ghost here = largest_at(g, xd@, p as int);
                        let v: u32 = do_plus(
                            f,
                            out[p],
                            d,
                            Ghost(sum_where(i as nat, bits(ZERO), here, leaf_at(gd@))),
                            Ghost(bits(d)),
                        );
                        out.set(p, v);
                        proof {
                            assert(here(i as int));
                            assert forall|j: int| 0 <= j < out@.len() implies computes(
                                *f,
                                sum_where(
                                    (i + 1) as nat,
                                    bits(ZERO),
                                    largest_at(g, xd@, j),
                                    leaf_at(gd@),
                                ),
                                #[trigger] out@[j],
                            ) by {
                                if j != p {
                                    assert(!largest_at(g, xd@, j)(i as int));
                                }
                            }
                        }
                    },
                    None => {
                        proof {
                            assert forall|j: int| 0 <= j < out@.len() implies computes(
                                *f,
                                sum_where(
                                    (i + 1) as nat,
                                    bits(ZERO),
                                    largest_at(g, xd@, j),
                                    leaf_at(gd@),
                                ),
                                #[trigger] out@[j],
                            ) by {
                                assert(!largest_at(g, xd@, j)(i as int));
                            }
                        }
                    },
                }
            }
            Ok(Tensor::new(out, x.shape.copy()))
        },
        _ => Err(not_single_error()),
    }
}

/// One, `n` times.
pub open spec fn one_each() -> spec_fn(int) -> Fx {
    |t: int| bits(ONE)
}

/// The taps of result element `i` that fall on an input element.
pub open spec fn pool_hits(g: PoolGeometry, i: int) -> spec_fn(int) -> bool {
    |t: int| g.hits(i, t)
}

/// The input elements under the taps of result element `i`.
pub open spec fn pool_terms(g: PoolGeometry, x: Seq<u32>, i: int) -> spec_fn(int) -> Fx {
    |t: int| bits(x[g.input_at(i, t)])
}

/// Result element `i` of an average pooling: the sum of what is under the
/// window over the number of its places, padding counted.
pub open spec fn average(g: PoolGeometry, x: Seq<u32>, i: int) -> Fx {
    over(
        sum_where(g.taps() as nat, bits(ZERO), pool_hits(g, i), pool_terms(g, x, i)),
        sum_of(g.taps() as nat, one_each()),
    )
}

/// What an average pooling yields.
pub open spec fn avg_pool2d_outcome(
    x: TensorView,
    pool: usize,
    stride: usize,
    padding: usize,
) -> Outcome {
    if x.shape.len() != 4 {
        fails("AvgPool2d input must be 4D [B, C, H, W]"@)
    } else {
        match pool_geometry(x.shape, pool, stride, padding) {
            None => misfit(),
            Some(g) => if !g.fits() {
                misfit()
            } else {
                match x.data {
                    DataView::F32(d) => yields(
                        seq![g.batch, g.channels, g.vertical.out, g.horizontal.out],
                        Seq::new(g.outputs() as nat, |i: int| average(g, d, i)),
                    ),
                    DataView::F16(_) => not_single(),
                }
            },
        }
    }
}

/// The average under one place of the window.
fn average_at<F: Float>(f: &F, g: &PoolGeometry, x: &Vec<u32>, i: usize) -> (r: u32)
    requires
        g.fits(),
        x@.len() == g.inputs(),
        i < g.outputs(),
    ensures
        computes(*f, average(*g, x@, i as int), r),
{
    let taps: usize = g.tap_count();
    let ghost hit = pool_hits(*g, i as int);
    let ghost terms = pool_terms(*g, x@, i as int);
    let mut sum: u32 = ZERO;
    let mut count: u32 = ZERO;
    for t in 0..taps
        invariant
            g.fits(),
            taps == g.taps(),
            x@.len() == g.inputs(),
            i < g.outputs(),
            hit == pool_hits(*g, i as int),
            terms == pool_terms(*g, x@, i as int),
            computes(*f, sum_where(t as nat, bits(ZERO), hit, terms), sum),
            computes(*f, sum_of(t as nat, one_each()), count),
    {
        match g.input_position(i, t) {
            Some(p) => {
                let v: u32 = x[p];
                proof {
                    assert(hit(t as int));
                    assert(terms(t as int) == bits(v));
                }
                sum = do_plus(
                    f,
                    sum,
                    v,
                    Ghost(sum_where(t as nat, bits(ZERO), hit, terms)),
                    Ghost(bits(v)),
                );
            },
            None => {
                proof {
                    assert(!hit(t as int));
                }
            },
        }
        count = do_plus(f, count, ONE, Ghost(sum_of(t as nat, one_each())), Ghost(bits(ONE)));
    }
    do_over(
        f,
        sum,
        count,
        Ghost(sum_where(taps as nat, bits(ZERO), hit, terms)),
        Ghost(sum_of(taps as nat, one_each())),
    )
}

/// The average under each place of a window.
pub fn avg_pool2d<F: Float>(f: &F, x: &Tensor, pool: usize, stride: usize, padding: usize) -> (r:
    Result<Tensor, Error>)
    requires
        x.wf(),
    ensures
        realized(*f, avg_pool2d_outcome(x@, pool, stride, padding), r),
{
    if x.shape.dims.len() != 4 {
        return Err(execution_error("AvgPool2d input must be 4D [B, C, H, W]"));
    }
    let g: PoolGeometry = match pool_sizes(&x.shape.dims, pool, stride, padding) {
        Some(g) => g,
        None => {
            return Err(misfit_error());
        },
    };
    match &x.data {
        AnyData::F32(d) => {
            proof {
                let s = x@.shape;
                assert(s =~= seq![s[0], s[1], s[2], s[3]]);
                lemma_numel_4(s[0], s[1], s[2], s[3]);
            }
            let count: usize = g.output_count();
            let mut out: Vec<u32> = Vec::new();
            for i in 0..count
                invariant
                    g.fits(),
                    count == g.outputs(),
                    d@.len() == g.inputs(),
                    out@.len() == i,
                    forall|j: int|
                        0 <= j < i ==> computes(*f, average(g, d@, j), #[trigger] out@[j]),
            {
                out.push(average_at(f, &g, d, i));
            }
            Ok(Tensor::new(out, pooled_shape(&g)))
        },
        AnyData::F16(_) => Err(not_single_error()),
    }
}

/// Step `u` of an average's gradient, counted through the result elements and
/// their taps, goes to input element `j`.
pub open spec fn spreads_to(g: PoolGeometry, j: int) -> spec_fn(int) -> bool {
    |u: int|
        g.hits(u / g.taps(), u % g.taps()) && g.input_at(u / g.taps(), u % g.taps()) == j
}

/// What step `u` adds: an equal share of the result's gradient.
pub open spec fn shares(g: PoolGeometry, dy: Seq<u32>) -> spec_fn(int) -> Fx {
    |u: int| over(bits(dy[u / g.taps()]), Fx::Count(g.taps() as usize))
}

/// What the gradient of an average pooling yields.
pub open spec fn avg_pool2d_grad_outcome(
    dy: TensorView,
    x: TensorView,
    pool: usize,
    stride: usize,
    padding: usize,
) -> Outcome {
    if !pool_grad_fits(dy, x, pool, stride, padding) {
        misfit()
    } else {
        let g = pool_grad_geometry(x.shape, dy.shape, pool, stride, padding);
        match dy.data {
            DataView::F32(gd) => yields(
                x.shape,
                Seq::new(
                    x.data.len(),
                    |j: int|
                        sum_where(
                            (g.outputs() * g.taps()) as nat,
                            bits(ZERO),
                            spreads_to(g, j),
                            shares(g, gd),
                        ),
                ),
            ),
            DataView::F16(_) => not_single(),
        }
    }
}

/// Adds the shares of result element `i`.
fn add_shares<F: Float>(f: &F, g: &PoolGeometry, dy: &Vec<u32>, i: usize, out: &mut Vec<u32>)
    requires
        g.fits(),
        i < g.outputs(),
        dy@.len() >= g.outputs(),
        old(out)@.len() == g.inputs(),
        forall|j: int|
            0 <= j < old(out)@.len() ==> computes(
                *f,
                sum_where((i * g.taps()) as nat, bits(ZERO), spreads_to(*g, j), shares(*g, dy@)),
                #[trigger] old(out)@[j],
            ),
    ensures
        final(out)@.len() == g.inputs(),
        forall|j: int|
            0 <= j < final(out)@.len() ==> computes(
                *f,
                sum_where(
                    ((i + 1) * g.taps()) as nat,
                    bits(ZERO),
                    spreads_to(*g, j),
                    shares(*g, dy@),
                ),
                #[trigger] final(out)@[j],
            ),
{
    let taps: usize = g.tap_count();
    let d: u32 = dy[i];
    let n: u32 = do_count(f, taps);
    let share: u32 = do_over(f, d, n, Ghost(bits(d)), Ghost(Fx::Count(taps)));
    let ghost es = over(bits(d), Fx::Count(taps));
    let ghost terms = shares(*g, dy@);
    let ghost base = i * taps;
    proof {
        lemma_mul_nonnegative(i as int, taps as int);
        assert((i + 1) * taps == i * taps + taps) by (nonlinear_arith);
    }
    for t in 0..taps
        invariant
            g.fits(),
            taps == g.taps(),
            i < g.outputs(),
            dy@.len() >= g.outputs(),
            es == over(bits(dy@[i as int]), Fx::Count(taps)),
            computes(*f, es, share),
            terms == shares(*g, dy@),
            base == i * taps,
            base >= 0,
            out@.len() == g.inputs(),
            forall|j: int|
                0 <= j < out@.len() ==> computes(
                    *f,
                    sum_where((base + t) as nat, bits(ZERO), spreads_to(*g, j), terms),
                    #[trigger] out@[j],
                ),
    {
        let ghost u = base + t;
        proof {
            lemma_row_major(i as int, t as int, i + 1, taps as int);
            assert(u / taps as int == i && u % taps as int == t);
        }
        match g.input_position(i, t) {
            Some(p) => {
                let v: u32 = do_plus(
                    f,
                    out[p],
                    share,
                    Ghost(sum_where(u as nat, bits(ZERO), spreads_to(*g, p as int), terms)),
                    Ghost(es),
                );
                out.set(p, v);
                proof {
                    assert(terms(u) == es);
                    assert(spreads_to(*g, p as int)(u));
                    assert forall|j: int| 0 <= j < out@.len() implies computes(
                        *f,
                        sum_where((base + t + 1) as nat, bits(ZERO), spreads_to(*g, j), terms),
                        #[trigger] out@[j],
                    ) by {
                        if j != p {
                            assert(!spreads_to(*g, j)(u));
                        }
                    }
                }
            },
            None => {
                proof {
                    assert forall|j: int| 0 <= j < out@.len() implies computes(
                        *f,
                        sum_where((base + t + 1) as nat, bits(ZERO), spreads_to(*g, j), terms),
                        #[trigger] out@[j],
                    ) by {
                        assert(!spreads_to(*g, j)(u));
                    }
                }
            },
        }
    }
}

/// The gradient of an average pooling: every element of `dy` is spread
/// equally over the places of its window. Of `x` only the shape matters.
pub fn avg_pool2d_grad<F: Float>(
    f: &F,
    dy: &Tensor,
    x: &Tensor,
    pool: usize,
    stride: usize,
    padding: usize,
) -> (r: Result<Tensor, Error>)
    requires
        dy.wf(),
        x.wf(),
    ensures
        realized(*f, avg_pool2d_grad_outcome(dy@, x@, pool, stride, padding), r),
{
    let g: PoolGeometry = match pool_grad_sizes(dy, x, pool, stride, padding) {
        Some(g) => g,
        None => {
            return Err(misfit_error());
        },
    };
    match &dy.data {
        AnyData::F32(gd) => {
            let count: usize = g.output_count();
            let size: usize = count_of(x);
            let mut out: Vec<u32> = vec![ZERO; size];
            proof {
                lemma_mul_basics(g.taps());
            }
            for i in 0..count
                invariant
                    g.fits(),
                    count == g.outputs(),
                    gd@.len() >= g.outputs(),
                    out@.len() == g.inputs(),
                    forall|j: int|
                        0 <= j < out@.len() ==> computes(
                            *f,
                            sum_where(
                                (i * g.taps()) as nat,
                                bits(ZERO),
                                spreads_to(g, j),
                                shares(g, gd@),
                            ),
                            #[trigger] out@[j],
                        ),
            {
                add_shares(f, &g, gd, i, &mut out);
            }
            Ok(Tensor::new(out, x.shape.copy()))
        },
        AnyData::F16(_) => Err(not_single_error()),
    }
}

} // verus!
