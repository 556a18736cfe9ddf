//! Two-dimensional convolution and its gradients.

use crate::error::Error;
use crate::float::{bits, computes, do_plus, do_times, plus, sum_where, times, Float, Fx, ZERO};
use crate::kernels::movement::{
    lemma_numel_1, lemma_numel_4, lemma_row_major, lemma_split,
};
use crate::kernels::reduce::{count_of, leaf_at};
use crate::kernels::window::{
    check_axis, column_of, image_position, lemma_image_parts, lemma_image_position, places,
    plane_of, row_of, sliding, Axis,
};
use crate::shape::{fits, Shape};
use crate::sym::{misfit, misfit_error, not_single, not_single_error, realized, yields, Outcome};
use crate::tensor::{AnyData, DataView, Tensor, TensorView};
use vstd::arithmetic::mul::*;
use vstd::prelude::*;

verus! {

/// The sizes of a convolution.
#[derive(Debug, Clone, Copy)]
pub struct ConvGeometry {
    pub batch: usize,
    pub in_channels: usize,
    pub out_channels: usize,
    pub vertical: Axis,
    pub horizontal: Axis,
}

impl ConvGeometry {
    /// The taps of one output channel: one for every input channel and every
    /// place of the kernel.
    pub open spec fn taps(self) -> int {
        self.in_channels * (self.vertical.kernel * self.horizontal.kernel)
    }

    /// The number of elements of the input.
    pub open spec fn inputs(self) -> int {
        self.batch * (self.in_channels * (self.vertical.len * self.horizontal.len))
    }

    /// The number of elements of the result.
    pub open spec fn outputs(self) -> int {
        self.batch * (self.out_channels * (self.vertical.out * self.horizontal.out))
    }

    /// All sizes are machine numbers.
    pub open spec fn fits(self) -> bool {
        &&& self.vertical.fits()
        &&& self.horizontal.fits()
        &&& self.vertical.kernel * self.horizontal.kernel <= usize::MAX
        &&& self.taps() <= usize::MAX
        &&& self.out_channels * self.taps() <= usize::MAX
        &&& self.vertical.len * self.horizontal.len <= usize::MAX
        &&& self.in_channels * (self.vertical.len * self.horizontal.len) <= usize::MAX
        &&& self.inputs() <= usize::MAX
        &&& self.vertical.out * self.horizontal.out <= usize::MAX
        &&& self.out_channels * (self.vertical.out * self.horizontal.out) <= usize::MAX
        &&& self.outputs() <= usize::MAX
    }

    /// The image that result element `i` belongs to.
    pub open spec fn image(self, i: int) -> int {
        plane_of(self.vertical.out as int, self.horizontal.out as int, i) / self.out_channels as int
    }

    /// The output channel that result element `i` belongs to.
    pub open spec fn channel(self, i: int) -> int {
        plane_of(self.vertical.out as int, self.horizontal.out as int, i) % self.out_channels as int
    }

    /// Tap `t` of result element `i` falls on an input element.
    pub open spec fn hits(self, i: int, t: int) -> bool {
        let v = self.vertical;
        let h = self.horizontal;
        &&& v.hits(
            row_of(v.out as int, h.out as int, i),
            row_of(v.kernel as int, h.kernel as int, t),
        )
        &&& h.hits(
            column_of(v.out as int, h.out as int, i),
            column_of(v.kernel as int, h.kernel as int, t),
        )
    }

    /// The input element that tap `t` of result element `i` falls on.
    pub open spec fn input_at(self, i: int, t: int) -> int {
        let v = self.vertical;
        let h = self.horizontal;
        image_position(
            self.in_channels as int,
            v.len as int,
            h.len as int,
            self.image(i),
            plane_of(v.kernel as int, h.kernel as int, t),
            v.element(
                row_of(v.out as int, h.out as int, i),
                row_of(v.kernel as int, h.kernel as int, t),
            ),
            h.element(
                column_of(v.out as int, h.out as int, i),
                column_of(v.kernel as int, h.kernel as int, t),
            ),
        )
    }

    /// The weight of tap `t` of result element `i`.
    pub open spec fn weight_at(self, i: int, t: int) -> int {
        self.channel(i) * self.taps() + t
    }

    /// Whether all sizes are machine numbers.
    pub fn check(&self) -> (ok: bool)
        ensures
            ok == self.fits(),
    {
        let ghost kk = self.vertical.kernel * self.horizontal.kernel;
        let ghost ll = self.vertical.len * self.horizontal.len;
        let ghost oo = self.vertical.out * self.horizontal.out;
        proof {
            lemma_mul_nonnegative(self.vertical.kernel as int, self.horizontal.kernel as int);
            lemma_mul_nonnegative(self.vertical.len as int, self.horizontal.len as int);
            lemma_mul_nonnegative(self.vertical.out as int, self.horizontal.out as int);
        }
        if !check_axis(&self.vertical) || !check_axis(&self.horizontal) {
            return false;
        }
        let taps: usize = match product3(
            self.in_channels,
            self.vertical.kernel,
            self.horizontal.kernel,
        ) {
            Some(t) => t,
            None => {
                return false;
            },
        };
        if self.out_channels.checked_mul(taps).is_none() {
            return false;
        }
        match product3(self.in_channels, self.vertical.len, self.horizontal.len) {
            Some(p) => {
                if self.batch.checked_mul(p).is_none() {
                    return false;
                }
            },
            None => {
                return false;
            },
        }
        match product3(self.out_channels, self.vertical.out, self.horizontal.out) {
            Some(p) => self.batch.checked_mul(p).is_some(),
            None => false,
        }
    }

    /// The number of taps of one output channel.
    pub fn tap_count(&self) -> (n: usize)
        requires
            self.fits(),
        ensures
            n == self.taps(),
    {
        self.in_channels * (self.vertical.kernel * self.horizontal.kernel)
    }

    /// The number of elements of the result.
    pub fn output_count(&self) -> (n: usize)
        requires
            self.fits(),
        ensures
            n == self.outputs(),
    {
        self.batch * (self.out_channels * (self.vertical.out * self.horizontal.out))
    }

    /// The output channel of a result element.
    pub fn channel_of(&self, i: usize) -> (c: usize)
        requires
            self.fits(),
            i < self.outputs(),
        ensures
            c == self.channel(i as int),
            c < self.out_channels,
    {
        proof {
            lemma_image_parts(
                self.batch as int,
                self.out_channels as int,
                self.vertical.out as int,
                self.horizontal.out as int,
                i as int,
            );
        }
        let plane: usize = i / (self.vertical.out * self.horizontal.out);
        plane % self.out_channels
    }

    /// The input element that a tap falls on, if it falls on one.
    pub fn input_position(&self, i: usize, t: usize) -> (p: Option<usize>)
        requires
            self.fits(),
            i < self.outputs(),
            t < self.taps(),
        ensures
            match p {
                Some(v) => self.hits(i as int, t as int) && v == self.input_at(i as int, t as int)
                    && v < self.inputs(),
                None => !self.hits(i as int, t as int),
            },
    {
        let v: Axis = self.vertical;
        let h: Axis = self.horizontal;
        proof {
            lemma_image_parts(
                self.batch as int,
                self.out_channels as int,
                v.out as int,
                h.out as int,
                i as int,
            );
            assert(1 * (self.in_channels * (v.kernel * h.kernel)) == self.taps());
            lemma_image_parts(
                1,
                self.in_channels as int,
                v.kernel as int,
                h.kernel as int,
                t as int,
            );
            lemma_split(t as int, self.in_channels as int, v.kernel * h.kernel);
        }
        let size: usize = v.out * h.out;
        let place: usize = i % size;
        let b: usize = (i / size) / self.out_channels;
        let kernel: usize = v.kernel * h.kernel;
        let k: usize = t % kernel;
        let c: usize = t / kernel;
        let ih: usize = match v.tap(place / h.out, k / h.kernel) {
            Some(e) => e,
            None => {
                return None;
            },
        };
        let iw: usize = match h.tap(place % h.out, k % h.kernel) {
            Some(e) => e,
            None => {
                return None;
            },
        };
        proof {
            lemma_image_position(
                self.batch as int,
                self.in_channels as int,
                v.len as int,
                h.len as int,
                b as int,
                c as int,
                ih as int,
                iw as int,
            );
        }
        let plane: usize = v.len * h.len;
        Some(b * (self.in_channels * plane) + (c * plane + (ih * h.len + iw)))
    }
}

/// `a * (b * c)`, if it and `b * c` are machine numbers.
pub fn product3(a: usize, b: usize, c: usize) -> (p: Option<usize>)
    ensures
        match p {
            Some(v) => v == a * (b * c) && b * c <= usize::MAX,
            None => a * (b * c) > usize::MAX || b * c > usize::MAX,
        },
{
    match b.checked_mul(c) {
        Some(d) => a.checked_mul(d),
        None => None,
    }
}

/// The bias of output channel `c`, zero where there is none.
pub open spec fn bias_at(bias: Option<Seq<u32>>, c: int) -> u32 {
    match bias {
        Some(b) => b[c],
        None => ZERO,
    }
}

/// Where tap `t` of result element `i` falls on an input element, the element
/// and the weight are there.
pub open spec fn tap_within(g: ConvGeometry, inputs: nat, weights: nat, i: int, t: int) -> bool {
    g.hits(i, t) ==> g.input_at(i, t) < inputs && g.weight_at(i, t) < weights
}

/// All that result element `i` is computed from is there.
pub open spec fn taps_within(g: ConvGeometry, inputs: nat, weights: nat, i: int) -> bool {
    forall|t: int| 0 <= t < g.taps() ==> #[trigger] tap_within(g, inputs, weights, i, t)
}

/// All that the result is computed from is there.
pub open spec fn all_within(g: ConvGeometry, inputs: nat, weights: nat) -> bool {
    forall|i: int| 0 <= i < g.outputs() ==> #[trigger] taps_within(g, inputs, weights, i)
}

/// The taps of result element `i` that fall on an input element.
pub open spec fn tap_hits(g: ConvGeometry, i: int) -> spec_fn(int) -> bool {
    |t: int| g.hits(i, t)
}

/// What tap `t` adds to result element `i`.
pub open spec fn tap_terms(g: ConvGeometry, x: Seq<u32>, w: Seq<u32>, i: int) -> spec_fn(
    int,
) -> Fx {
    |t: int| times(bits(x[g.input_at(i, t)]), bits(w[g.weight_at(i, t)]))
}

/// Result element `i` of a convolution.
pub open spec fn conv_element(
    g: ConvGeometry,
    x: Seq<u32>,
    w: Seq<u32>,
    bias: Option<Seq<u32>>,
    i: int,
) -> Fx {
    plus(
        sum_where(g.taps() as nat, bits(ZERO), tap_hits(g, i), tap_terms(g, x, w, i)),
        bits(bias_at(bias, g.channel(i))),
    )
}

/// The sizes of a convolution of `x` with `w`, where both are batches of
/// images and the window has a place.
pub open spec fn conv_geometry(
    x: Seq<usize>,
    w: Seq<usize>,
    stride: usize,
    padding: usize,
) -> Option<ConvGeometry> {
    if x.len() != 4 || w.len() != 4 {
        None
    } else {
        match (places(x[2], w[2], stride, padding), places(x[3], w[3], stride, padding)) {
            (Some(v), Some(h)) => if v <= usize::MAX && h <= usize::MAX {
                Some(
                    ConvGeometry {
                        batch: x[0],
                        in_channels: x[1],
                        out_channels: w[0],
                        vertical: Axis {
                            out: v as usize,
                            kernel: w[2],
                            stride,
                            pad: padding,
                            len: x[2],
                        },
                        horizontal: Axis {
                            out: h as usize,
                            kernel: w[3],
                            stride,
                            pad: padding,
                            len: x[3],
                        },
                    },
                )
            } else {
                None
            },
            _ => None,
        }
    }
}

/// What a convolution yields.
pub open spec fn conv2d_outcome(
    x: TensorView,
    w: TensorView,
    bias: Option<TensorView>,
    stride: usize,
    padding: usize,
) -> Outcome {
    match conv_geometry(x.shape, w.shape, stride, padding) {
        None => misfit(),
        Some(g) => if !g.fits() || (bias matches Some(b) && g.batch > 0 && b.data.len()
            < g.out_channels) {
            misfit()
        } else {
            match (x.data, w.data, bias_data(bias)) {
                (DataView::F32(xd), DataView::F32(wd), Some(bd)) => if all_within(
                    g,
                    xd.len(),
                    wd.len(),
                ) {
                    yields(
                        seq![g.batch, g.out_channels, g.vertical.out, g.horizontal.out],
                        Seq::new(g.outputs() as nat, |i: int| conv_element(g, xd, wd, bd, i)),
                    )
                } else {
                    misfit()
                },
                _ => not_single(),
            }
        },
    }
}

/// The numbers of a bias, if it has none or they are single precision.
pub open spec fn bias_data(bias: Option<TensorView>) -> Option<Option<Seq<u32>>> {
    match bias {
        None => Some(None),
        Some(b) => match b.data {
            DataView::F32(d) => Some(Some(d)),
            DataView::F16(_) => None,
        },
    }
}

/// The sizes of a convolution.
fn conv_sizes(x: &Vec<usize>, w: &Vec<usize>, stride: usize, padding: usize) -> (g: Option<
    ConvGeometry,
>)
    ensures
        match g {
            Some(v) => conv_geometry(x@, w@, stride, padding) == Some(v),
            None => conv_geometry(x@, w@, stride, padding) is None,
        },
{
    if x.len() != 4 || w.len() != 4 {
        return None;
    }
    match (sliding(x[2], w[2], stride, padding), sliding(x[3], w[3], stride, padding)) {
        (Some(vertical), Some(horizontal)) => Some(
            ConvGeometry {
                batch: x[0],
                in_channels: x[1],
                out_channels: w[0],
                vertical,
                horizontal,
            },
        ),
        _ => None,
    }
}

/// Result element `i` of a convolution of numbers, if all that it is computed
/// from is there.
fn conv_at<F: Float>(
    f: &F,
    g: &ConvGeometry,
    x: &Vec<u32>,
    w: &Vec<u32>,
    bias: Option<&Vec<u32>>,
    i: usize,
    Ghost(bv): Ghost<Option<Seq<u32>>>,
) -> (r: Option<u32>)
    requires
        g.fits(),
        match bias {
            Some(b) => bv == Some(b@) && b@.len() >= g.out_channels,
            None => bv is None,
        },
        i < g.outputs(),
    ensures
        match r {
            Some(v) => taps_within(*g, x@.len(), w@.len(), i as int) && computes(
                *f,
                conv_element(*g, x@, w@, bv, i as int),
                v,
            ),
            None => !taps_within(*g, x@.len(), w@.len(), i as int),
        },
{
    let taps: usize = g.tap_count();
    let oc: usize = g.channel_of(i);
    let ghost hit = tap_hits(*g, i as int);
    let ghost terms = tap_terms(*g, x@, w@, i as int);
    let mut sum: u32 = ZERO;
    for t in 0..taps
        invariant
            g.fits(),
            taps == g.taps(),
            i < g.outputs(),
            oc == g.channel(i as int),
            oc < g.out_channels,
            hit == tap_hits(*g, i as int),
            terms == tap_terms(*g, x@, w@, i as int),
            computes(*f, sum_where(t as nat, bits(ZERO), hit, terms), sum),
            forall|k: int|
                0 <= k < t ==> #[trigger] tap_within(*g, x@.len(), w@.len(), i as int, k),
    {
        match g.input_position(i, t) {
            Some(p) => {
                proof {
                    lemma_row_major(oc as int, t as int, g.out_channels as int, taps as int);
                    lemma_mul_nonnegative(oc as int, taps as int);
                }
                let at: usize = oc * taps + t;
                if p >= x.len() || at >= w.len() {
                    proof {
                        assert(!tap_within(*g, x@.len(), w@.len(), i as int, t as int));
                    }
                    return None;
                }
                let a: u32 = x[p];
                let b: u32 = w[at];
                let m: u32 = do_times(f, a, b, Ghost(bits(a)), Ghost(bits(b)));
                proof {
                    assert(hit(t as int));
                    assert(terms(t as int) == times(bits(a), bits(b)));
                }
                sum = do_plus(
                    f,
                    sum,
                    m,
                    Ghost(sum_where(t as nat, bits(ZERO), hit, terms)),
                    Ghost(times(bits(a), bits(b))),
                );
            },
            None => {
                proof {
                    assert(!hit(t as int));
                }
            },
        }
    }
    let b: u32 = match bias {
        Some(v) => v[oc],
        None => ZERO,
    };
    Some(
        do_plus(
            f,
            sum,
            b,
            Ghost(sum_where(taps as nat, bits(ZERO), hit, terms)),
            Ghost(bits(b)),
        ),
    )
}

/// Convolution of a batch of images, with an optional bias.
pub fn conv2d<F: Float>(
    f: &F,
    x: &Tensor,
    w: &Tensor,
    bias: Option<&Tensor>,
    stride: usize,
    padding: usize,
) -> (r: Result<Tensor, Error>)
    requires
        x.wf(),
        w.wf(),
        bias matches Some(b) ==> b.wf(),
    ensures
        realized(
            *f,
            conv2d_outcome(
                x@,
                w@,
                match bias {
                    Some(b) => Some(b@),
                    None => None,
                },
                stride,
                padding,
            ),
            r,
        ),
{
    let g: ConvGeometry = match conv_sizes(&x.shape.dims, &w.shape.dims, stride, padding) {
        Some(g) => g,
        None => {
            return Err(misfit_error());
        },
    };
    if !g.check() {
        return Err(misfit_error());
    }
    if let Some(b) = bias {
        if g.batch > 0 && count_of(b) < g.out_channels {
            return Err(misfit_error());
        }
    }
    let ghost bv: Option<Seq<u32>> = match bias {
        Some(b) => Some(b@.singles()),
        None => None,
    };
    let b_data: Option<&Vec<u32>> = match bias {
        Some(b) => match &b.data {
            AnyData::F32(d) => Some(d),
            AnyData::F16(_) => {
                return Err(not_single_error());
            },
        },
        None => None,
    };
    match (&x.data, &w.data) {
        (AnyData::F32(xd), AnyData::F32(wd)) => {
            let count: usize = g.output_count();
            let mut out: Vec<u32> = Vec::new();
            for i in 0..count
                invariant
                    g.fits(),
                    count == g.outputs(),
                    x@.data == DataView::F32(xd@),
                    w@.data == DataView::F32(wd@),
                    conv_geometry(x@.shape, w@.shape, stride, padding) == Some(g),
                    bias matches Some(b) ==> (g.batch > 0 ==> b@.data.len() >= g.out_channels),
                    bias_data(
                        match bias {
                            Some(b) => Some(b@),
                            None => None,
                        },
                    ) == Some(bv),
                    match b_data {
                        Some(b) => bv == Some(b@) && (g.batch > 0 ==> b@.len() >= g.out_channels),
                        None => bv is None,
                    },
                    forall|j: int|
                        0 <= j < i ==> #[trigger] taps_within(g, xd@.len(), wd@.len(), j),
                    out@.len() == i,
                    forall|j: int|
                        0 <= j < i ==> computes(
                            *f,
                            conv_element(g, xd@, wd@, bv, j),
                            #[trigger] out@[j],
                        ),
            {
                proof {
                    lemma_mul_nonzero(
                        g.batch as int,
                        g.out_channels * (g.vertical.out * g.horizontal.out),
                    );
                }
                match conv_at(f, &g, xd, wd, b_data, i, Ghost(bv)) {
                    Some(v) => out.push(v),
                    None => {
                        proof {
                            assert(!all_within(g, xd@.len(), wd@.len()));
                        }
                        return Err(misfit_error());
                    },
                }
            }
            let shape = Shape::new(
                vec![g.batch, g.out_channels, g.vertical.out, g.horizontal.out],
            );
            proof {
                assert(shape@ =~= seq![
                    g.batch,
                    g.out_channels,
                    g.vertical.out,
                    g.horizontal.out,
                ]);
                lemma_numel_4(g.batch, g.out_channels, g.vertical.out, g.horizontal.out);
            }
            Ok(Tensor::new(out, shape))
        },
        _ => Err(not_single_error()),
    }
}

/// The sizes of a convolution whose result has the shape of `dy`.
pub open spec fn grad_geometry(
    x: Seq<usize>,
    w: Seq<usize>,
    dy: Seq<usize>,
    stride: usize,
    padding: usize,
) -> ConvGeometry {
    ConvGeometry {
        batch: x[0],
        in_channels: x[1],
        out_channels: w[0],
        vertical: Axis { out: dy[2], kernel: w[2], stride, pad: padding, len: x[2] },
        horizontal: Axis { out: dy[3], kernel: w[3], stride, pad: padding, len: x[3] },
    }
}

/// The operands of a convolution gradient fit together.
pub open spec fn grad_fits(
    x: TensorView,
    w: TensorView,
    dy: TensorView,
    stride: usize,
    padding: usize,
) -> bool {
    &&& x.shape.len() >= 4
    &&& w.shape.len() >= 4
    &&& dy.shape.len() >= 4
    &&& {
        let g = grad_geometry(x.shape, w.shape, dy.shape, stride, padding);
        g.fits() && dy.data.len() >= g.outputs()
    }
}

/// Step `u` of a gradient, counted through the result elements and their
/// taps, goes to input element `j`.
pub open spec fn goes_to_input(g: ConvGeometry, j: int) -> spec_fn(int) -> bool {
    |u: int|
        g.hits(u / g.taps(), u % g.taps()) && g.input_at(u / g.taps(), u % g.taps()) == j
}

/// What step `u` adds to the gradient of the input.
pub open spec fn input_grad_terms(g: ConvGeometry, w: Seq<u32>, dy: Seq<u32>) -> spec_fn(
    int,
) -> Fx {
    |u: int|
        times(bits(dy[u / g.taps()]), bits(w[g.weight_at(u / g.taps(), u % g.taps())]))
}

/// Step `u` of a gradient goes to weight `j`.
pub open spec fn goes_to_weight(g: ConvGeometry, j: int) -> spec_fn(int) -> bool {
    |u: int|
        g.hits(u / g.taps(), u % g.taps()) && g.weight_at(u / g.taps(), u % g.taps()) == j
}

/// What step `u` adds to the gradient of the weights.
pub open spec fn weight_grad_terms(g: ConvGeometry, x: Seq<u32>, dy: Seq<u32>) -> spec_fn(
    int,
) -> Fx {
    |u: int|
        times(bits(x[g.input_at(u / g.taps(), u % g.taps())]), bits(dy[u / g.taps()]))
}

/// What the gradient of a convolution with respect to its input yields.
pub open spec fn conv2d_grad_x_outcome(
    x: TensorView,
    w: TensorView,
    dy: TensorView,
    stride: usize,
    padding: usize,
) -> Outcome {
    if !grad_fits(x, w, dy, stride, padding) {
        misfit()
    } else {
        let g = grad_geometry(x.shape, w.shape, dy.shape, stride, padding);
        match (x.data, w.data, dy.data) {
            (DataView::F32(xd), DataView::F32(wd), DataView::F32(gd)) => if all_within(
                g,
                xd.len(),
                wd.len(),
            ) {
                yields(
                    x.shape,
                    Seq::new(
                        xd.len(),
                        |j: int|
                            sum_where(
                                (g.outputs() * g.taps()) as nat,
                                bits(ZERO),
                                goes_to_input(g, j),
                                input_grad_terms(g, wd, gd),
                            ),
                    ),
                )
            } else {
                misfit()
            },
            _ => not_single(),
        }
    }
}

/// What the gradient of a convolution with respect to its weights yields.
pub open spec fn conv2d_grad_w_outcome(
    x: TensorView,
    w: TensorView,
    dy: TensorView,
    stride: usize,
    padding: usize,
) -> Outcome {
    if !grad_fits(x, w, dy, stride, padding) {
        misfit()
    } else {
        let g = grad_geometry(x.shape, w.shape, dy.shape, stride, padding);
        match (x.data, w.data, dy.data) {
            (DataView::F32(xd), DataView::F32(wd), DataView::F32(gd)) => if all_within(
                g,
                xd.len(),
                wd.len(),
            ) {
                yields(
                    w.shape,
                    Seq::new(
                        wd.len(),
                        |j: int|
                            sum_where(
                                (g.outputs() * g.taps()) as nat,
                                bits(ZERO),
                                goes_to_weight(g, j),
                                weight_grad_terms(g, xd, gd),
                            ),
                    ),
                )
            } else {
                misfit()
            },
            _ => not_single(),
        }
    }
}

/// The sizes of a convolution gradient, if its operands fit together.
fn grad_sizes(x: &Tensor, w: &Tensor, dy: &Tensor, stride: usize, padding: usize) -> (g: Option<
    ConvGeometry,
>)
    ensures
        match g {
            Some(v) => grad_fits(x@, w@, dy@, stride, padding) && v == grad_geometry(
                x@.shape,
                w@.shape,
                dy@.shape,
                stride,
                padding,
            ),
            None => !grad_fits(x@, w@, dy@, stride, padding),
        },
{
    let xs: &Vec<usize> = &x.shape.dims;
    let ws: &Vec<usize> = &w.shape.dims;
    let ds: &Vec<usize> = &dy.shape.dims;
    if xs.len() < 4 || ws.len() < 4 || ds.len() < 4 {
        return None;
    }
    let g = ConvGeometry {
        batch: xs[0],
        in_channels: xs[1],
        out_channels: ws[0],
        vertical: Axis { out: ds[2], kernel: ws[2], stride, pad: padding, len: xs[2] },
        horizontal: Axis { out: ds[3], kernel: ws[3], stride, pad: padding, len: xs[3] },
    };
    if !g.check() || count_of(dy) < g.output_count() {
        return None;
    }
    Some(g)
}

/// Adds the steps of result element `i` to the gradient of the input, if all
/// that they need is there.
fn add_input_steps<F: Float>(
    f: &F,
    g: &ConvGeometry,
    w: &Vec<u32>,
    dy: &Vec<u32>,
    i: usize,
    out: &mut Vec<u32>,
) -> (ok: bool)
    requires
        g.fits(),
        i < g.outputs(),
        dy@.len() >= g.outputs(),
        forall|j: int|
            0 <= j < old(out)@.len() ==> computes(
                *f,
                sum_where(
                    (i * g.taps()) as nat,
                    bits(ZERO),
                    goes_to_input(*g, j),
                    input_grad_terms(*g, w@, dy@),
                ),
                #[trigger] old(out)@[j],
            ),
    ensures
        final(out)@.len() == old(out)@.len(),
        ok == taps_within(*g, old(out)@.len(), w@.len(), i as int),
        ok ==> forall|j: int|
            0 <= j < final(out)@.len() ==> computes(
                *f,
                sum_where(
                    ((i + 1) * g.taps()) as nat,
                    bits(ZERO),
                    goes_to_input(*g, j),
                    input_grad_terms(*g, w@, dy@),
                ),
                #[trigger] final(out)@[j],
            ),
{
    let taps: usize = g.tap_count();
    let oc: usize = g.channel_of(i);
    let d: u32 = dy[i];
    let ghost terms = input_grad_terms(*g, w@, dy@);
    let ghost base = i * taps;
    proof {
        lemma_mul_nonnegative(i as int, taps as int);
        assert((i + 1) * taps == i * taps + taps) by (nonlinear_arith);
    }
    for t in 0..taps
        invariant
            g.fits(),
            taps == g.taps(),
            i < g.outputs(),
            oc == g.channel(i as int),
            oc < g.out_channels,
            dy@.len() >= g.outputs(),
            d == dy@[i as int],
            terms == input_grad_terms(*g, w@, dy@),
            base == i * taps,
            base >= 0,
            out@.len() == old(out)@.len(),
            forall|j: int|
                0 <= j < out@.len() ==> computes(
                    *f,
                    sum_where((base + t) as nat, bits(ZERO), goes_to_input(*g, j), terms),
                    #[trigger] out@[j],
                ),
            forall|k: int|
                0 <= k < t ==> #[trigger] tap_within(*g, old(out)@.len(), w@.len(), i as int, k),
    {
        let ghost u = base + t;
        proof {
            lemma_row_major(i as int, t as int, i + 1, taps as int);
            assert(u / taps as int == i && u % taps as int == t);
        }
        match g.input_position(i, t) {
            Some(p) => {
                proof {
                    lemma_row_major(oc as int, t as int, g.out_channels as int, taps as int);
                    lemma_mul_nonnegative(oc as int, taps as int);
                }
                let at: usize = oc * taps + t;
                if p >= out.len() || at >= w.len() {
                    proof {
                        assert(!tap_within(*g, old(out)@.len(), w@.len(), i as int, t as int));
                    }
                    return false;
                }
                let b: u32 = w[at];
                let m: u32 = do_times(f, d, b, Ghost(bits(d)), Ghost(bits(b)));
                let v: u32 = do_plus(
                    f,
                    out[p],
                    m,
                    Ghost(sum_where(u as nat, bits(ZERO), goes_to_input(*g, p as int), terms)),
                    Ghost(times(bits(d), bits(b))),
                );
                out.set(p, v);
                proof {
                    assert(terms(u) == times(bits(d), bits(b)));
                    assert(goes_to_input(*g, p as int)(u));
                    assert forall|j: int| 0 <= j < out@.len() implies computes(
                        *f,
                        sum_where((base + t + 1) as nat, bits(ZERO), goes_to_input(*g, j), terms),
                        #[trigger] out@[j],
                    ) by {
                        if j != p {
                            assert(!goes_to_input(*g, j)(u));
                        }
                    }
                }
            },
            None => {
                proof {
                    assert forall|j: int| 0 <= j < out@.len() implies computes(
                        *f,
                        sum_where((base + t + 1) as nat, bits(ZERO), goes_to_input(*g, j), terms),
                        #[trigger] out@[j],
                    ) by {
                        assert(!goes_to_input(*g, j)(u));
                    }
                }
            },
        }
    }
    true
}

/// Adds the steps of result element `i` to the gradient of the weights, if all
/// that they need is there.
fn add_weight_steps<F: Float>(
    f: &F,
    g: &ConvGeometry,
    x: &Vec<u32>,
    dy: &Vec<u32>,
    i: usize,
    out: &mut Vec<u32>,
) -> (ok: bool)
    requires
        g.fits(),
        i < g.outputs(),
        dy@.len() >= g.outputs(),
        forall|j: int|
            0 <= j < old(out)@.len() ==> computes(
                *f,
                sum_where(
                    (i * g.taps()) as nat,
                    bits(ZERO),
                    goes_to_weight(*g, j),
                    weight_grad_terms(*g, x@, dy@),
                ),
                #[trigger] old(out)@[j],
            ),
    ensures
        final(out)@.len() == old(out)@.len(),
        ok == taps_within(*g, x@.len(), old(out)@.len(), i as int),
        ok ==> forall|j: int|
            0 <= j < final(out)@.len() ==> computes(
                *f,
                sum_where(
                    ((i + 1) * g.taps()) as nat,
                    bits(ZERO),
                    goes_to_weight(*g, j),
                    weight_grad_terms(*g, x@, dy@),
                ),
                #[trigger] final(out)@[j],
            ),
{
    let taps: usize = g.tap_count();
    let oc: usize = g.channel_of(i);
    let d: u32 = dy[i];
    let ghost terms = weight_grad_terms(*g, x@, dy@);
    let ghost base = i * taps;
    proof {
        lemma_mul_nonnegative(i as int, taps as int);
        assert((i + 1) * taps == i * taps + taps) by (nonlinear_arith);
    }
    for t in 0..taps
        invariant
            g.fits(),
            taps == g.taps(),
            i < g.outputs(),
            oc == g.channel(i as int),
            oc < g.out_channels,
            dy@.len() >= g.outputs(),
            d == dy@[i as int],
            terms == weight_grad_terms(*g, x@, dy@),
            base == i * taps,
            base >= 0,
            out@.len() == old(out)@.len(),
            forall|j: int|
                0 <= j < out@.len() ==> computes(
                    *f,
                    sum_where((base + t) as nat, bits(ZERO), goes_to_weight(*g, j), terms),
                    #[trigger] out@[j],
                ),
            forall|k: int|
                0 <= k < t ==> #[trigger] tap_within(*g, x@.len(), old(out)@.len(), i as int, k),
    {
        let ghost u = base + t;
        proof {
            lemma_row_major(i as int, t as int, i + 1, taps as int);
            assert(u / taps as int == i && u % taps as int == t);
            lemma_row_major(oc as int, t as int, g.out_channels as int, taps as int);
            lemma_mul_nonnegative(oc as int, taps as int);
        }
        match g.input_position(i, t) {
            Some(p) => {
                let at: usize = oc * taps + t;
                if p >= x.len() || at >= out.len() {
                    proof {
                        assert(!tap_within(*g, x@.len(), old(out)@.len(), i as int, t as int));
                    }
                    return false;
                }
                let a: u32 = x[p];
                let m: u32 = do_times(f, a, d, Ghost(bits(a)), Ghost(bits(d)));
                let v: u32 = do_plus(
                    f,
                    out[at],
                    m,
                    Ghost(sum_where(u as nat, bits(ZERO), goes_to_weight(*g, at as int), terms)),
                    Ghost(times(bits(a), bits(d))),
                );
                out.set(at, v);
                proof {
                    assert(terms(u) == times(bits(a), bits(d)));
                    assert(goes_to_weight(*g, at as int)(u));
                    assert forall|j: int| 0 <= j < out@.len() implies computes(
                        *f,
                        sum_where((base + t + 1) as nat, bits(ZERO), goes_to_weight(*g, j), terms),
                        #[trigger] out@[j],
                    ) by {
                        if j != at {
                            assert(!goes_to_weight(*g, j)(u));
                        }
                    }
                }
            },
            None => {
                proof {
                    assert forall|j: int| 0 <= j < out@.len() implies computes(
                        *f,
                        sum_where((base + t + 1) as nat, bits(ZERO), goes_to_weight(*g, j), terms),
                        #[trigger] out@[j],
                    ) by {
                        assert(!goes_to_weight(*g, j)(u));
                    }
                }
            },
        }
    }
    true
}

/// The gradient of a convolution with respect to its input.
pub fn conv2d_grad_x<F: Float>(
    f: &F,
    x: &Tensor,
    w: &Tensor,
    dy: &Tensor,
    stride: usize,
    padding: usize,
) -> (r: Result<Tensor, Error>)
    requires
        x.wf(),
        w.wf(),
        dy.wf(),
    ensures
        realized(*f, conv2d_grad_x_outcome(x@, w@, dy@, stride, padding), r),
{
    let g: ConvGeometry = match grad_sizes(x, w, dy, stride, padding) {
        Some(g) => g,
        None => {
            return Err(misfit_error());
        },
    };
    match (&x.data, &w.data, &dy.data) {
        (AnyData::F32(xd), AnyData::F32(wd), AnyData::F32(gd)) => {
            let count: usize = g.output_count();
            let size: usize = xd.len();
            let mut out: Vec<u32> = vec![ZERO; size];
            proof {
                lemma_mul_basics(g.taps());
            }
            for i in 0..count
                invariant
                    x@.data == DataView::F32(xd@),
                    w@.data == DataView::F32(wd@),
                    dy@.data == DataView::F32(gd@),
                    grad_fits(x@, w@, dy@, stride, padding),
                    g == grad_geometry(x@.shape, w@.shape, dy@.shape, stride, padding),
                    g.fits(),
                    count == g.outputs(),
                    gd@.len() >= g.outputs(),
                    out@.len() == xd@.len(),
                    forall|j: int|
                        0 <= j < i ==> #[trigger] taps_within(g, xd@.len(), wd@.len(), j),
                    forall|j: int|
                        0 <= j < out@.len() ==> computes(
                            *f,
                            sum_where(
                                (i * g.taps()) as nat,
                                bits(ZERO),
                                goes_to_input(g, j),
                                input_grad_terms(g, wd@, gd@),
                            ),
                            #[trigger] out@[j],
                        ),
            {
                if !add_input_steps(f, &g, wd, gd, i, &mut out) {
                    proof {
                        assert(!all_within(g, xd@.len(), wd@.len()));
                    }
                    return Err(misfit_error());
                }
            }
            Ok(Tensor::new(out, x.shape.copy()))
        },
        _ => Err(not_single_error()),
    }
}

/// The gradient of a convolution with respect to its weights.
pub fn conv2d_grad_w<F: Float>(
    f: &F,
    x: &Tensor,
    w: &Tensor,
    dy: &Tensor,
    stride: usize,
    padding: usize,
) -> (r: Result<Tensor, Error>)
    requires
        x.wf(),
        w.wf(),
        dy.wf(),
    ensures
        realized(*f, conv2d_grad_w_outcome(x@, w@, dy@, stride, padding), r),
{
    let g: ConvGeometry = match grad_sizes(x, w, dy, stride, padding) {
        Some(g) => g,
        None => {
            return Err(misfit_error());
        },
    };
    match (&x.data, &w.data, &dy.data) {
        (AnyData::F32(xd), AnyData::F32(wd), AnyData::F32(gd)) => {
            let count: usize = g.output_count();
            let size: usize = wd.len();
            let mut out: Vec<u32> = vec![ZERO; size];
            proof {
                lemma_mul_basics(g.taps());
            }
            for i in 0..count
                invariant
                    x@.data == DataView::F32(xd@),
                    w@.data == DataView::F32(wd@),
                    dy@.data == DataView::F32(gd@),
                    grad_fits(x@, w@, dy@, stride, padding),
                    g == grad_geometry(x@.shape, w@.shape, dy@.shape, stride, padding),
                    g.fits(),
                    count == g.outputs(),
                    gd@.len() >= g.outputs(),
                    out@.len() == wd@.len(),
                    forall|j: int|
                        0 <= j < i ==> #[trigger] taps_within(g, xd@.len(), wd@.len(), j),
                    forall|j: int|
                        0 <= j < out@.len() ==> computes(
                            *f,
                            sum_where(
                                (i * g.taps()) as nat,
                                bits(ZERO),
                                goes_to_weight(g, j),
                                weight_grad_terms(g, xd@, gd@),
                            ),
                            #[trigger] out@[j],
                        ),
            {
                if !add_weight_steps(f, &g, xd, gd, i, &mut out) {
                    proof {
                        assert(!all_within(g, xd@.len(), wd@.len()));
                    }
                    return Err(misfit_error());
                }
            }
            Ok(Tensor::new(out, w.shape.copy()))
        },
        _ => Err(not_single_error()),
    }
}

/// The elements of output channel `c`.
pub open spec fn in_channel(channels: int, height: int, width: int, c: int) -> spec_fn(int) -> bool {
    |i: int| plane_of(height, width, i) % channels == c
}

/// The number of elements of a batch of images, by the first four axes.
pub open spec fn image_elements(s: Seq<usize>) -> int {
    s[0] * (s[1] * (s[2] * s[3]))
}

/// The tensor holds a batch of images by its first four axes.
pub open spec fn images_within(x: TensorView) -> bool {
    &&& x.shape.len() >= 4
    &&& x.shape[2] * x.shape[3] <= usize::MAX
    &&& x.shape[1] * (x.shape[2] * x.shape[3]) <= usize::MAX
    &&& image_elements(x.shape) <= x.data.len()
}

/// What the gradient of a convolution with respect to its bias yields: the
/// sum of every channel.
pub open spec fn conv2d_grad_b_outcome(dy: TensorView) -> Outcome {
    if !images_within(dy) {
        misfit()
    } else {
        match dy.data {
            DataView::F32(gd) => yields(
                seq![dy.shape[1]],
                Seq::new(
                    dy.shape[1] as nat,
                    |c: int|
                        sum_where(
                            image_elements(dy.shape) as nat,
                            bits(ZERO),
                            in_channel(
                                dy.shape[1] as int,
                                dy.shape[2] as int,
                                dy.shape[3] as int,
                                c,
                            ),
                            leaf_at(gd),
                        ),
                ),
            ),
            DataView::F16(_) => not_single(),
        }
    }
}

/// The gradient of a convolution with respect to its bias.
pub fn conv2d_grad_b<F: Float>(f: &F, dy: &Tensor) -> (r: Result<Tensor, Error>)
    requires
        dy.wf(),
    ensures
        realized(*f, conv2d_grad_b_outcome(dy@), r),
{
    if dy.shape.dims.len() < 4 {
        return Err(misfit_error());
    }
    let batch: usize = dy.shape.dims[0];
    let channels: usize = dy.shape.dims[1];
    let height: usize = dy.shape.dims[2];
    let width: usize = dy.shape.dims[3];
    let image: usize = match product3(channels, height, width) {
        Some(p) => p,
        None => {
            return Err(misfit_error());
        },
    };
    let held: usize = count_of(dy);
    let count: usize = match batch.checked_mul(image) {
        Some(n) => n,
        None => {
            return Err(misfit_error());
        },
    };
    if count > held {
        return Err(misfit_error());
    }
    match &dy.data {
        AnyData::F32(gd) => {
            let plane: usize = height * width;
            let mut out: Vec<u32> = vec![ZERO; channels];
            for i in 0..count
                invariant
                    count == batch * (channels * (height * width)),
                    count <= gd@.len(),
                    plane == height * width,
                    out@.len() == channels,
                    forall|c: int|
                        0 <= c < channels ==> computes(
                            *f,
                            sum_where(
                                i as nat,
                                bits(ZERO),
                                in_channel(channels as int, height as int, width as int, c),
                                leaf_at(gd@),
                            ),
                            #[trigger] out@[c],
                        ),
            {
                proof {
                    lemma_image_parts(
                        batch as int,
                        channels as int,
                        height as int,
                        width as int,
                        i as int,
                    );
                }
                let c: usize = (i / plane) % channels;
                let d: u32 = gd[i];
                let ghost here = in_channel(channels as int, height as int, width as int, c as int);
                let v: u32 = do_plus(
                    f,
                    out[c],
                    d,
                    Ghost(sum_where(i as nat, bits(ZERO), here, leaf_at(gd@))),
                    Ghost(bits(d)),
                );
                out.set(c, v);
                proof {
                    assert(here(i as int));
                    assert forall|k: int| 0 <= k < channels implies computes(
                        *f,
                        sum_where(
                            (i + 1) as nat,
                            bits(ZERO),
                            in_channel(channels as int, height as int, width as int, k),
                            leaf_at(gd@),
                        ),
                        #[trigger] out@[k],
                    ) by {
                        if k != c {
                            assert(!in_channel(channels as int, height as int, width as int, k)(
                                i as int,
                            ));
                        }
                    }
                }
            }
            let shape = Shape::new(vec![channels]);
            proof {
                assert(shape@ =~= seq![channels]);
                lemma_numel_1(channels);
            }
            Ok(Tensor::new(out, shape))
        },
        AnyData::F16(_) => Err(not_single_error()),
    }
}

} // verus!
