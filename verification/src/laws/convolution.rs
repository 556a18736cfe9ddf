//! What a convolution and its gradients are.

use crate::exact::{
    all_finite, exact, is_finite, is_number, lemma_constants, lemma_finite, lemma_rsum_planes,
    lemma_rsum_rows, lemma_rsum_same, lemma_rsum_scale, lemma_rsum_zero, lemma_scatter,
    lemma_sum_where, number, real_of, rsum, Exact, Value,
};
use crate::float::Fx;
use crate::kernels::conv::{
    all_within, bias_at, conv2d_grad_b_outcome, conv2d_grad_w_outcome, conv2d_grad_x_outcome,
    conv2d_outcome, conv_element, conv_geometry, goes_to_input, goes_to_weight, grad_fits,
    grad_geometry, image_elements, images_within, in_channel, input_grad_terms, tap_hits,
    tap_terms, tap_within, taps_within, weight_grad_terms, ConvGeometry,
};
use crate::kernels::movement::{lemma_row_major, lemma_split};
use crate::kernels::reduce::leaf_at;
use crate::kernels::window::{column_of, lemma_image_parts, plane_of, row_of};
use crate::sym::Outcome;
use crate::tensor::TensorView;
use vstd::arithmetic::div_mod::*;
use vstd::prelude::*;

verus! {

/// Where element `(b, c, y, x)` of a batch of images stands.
pub open spec fn place_in(channels: int, height: int, width: int, b: int, c: int, y: int, x: int) -> int {
    ((b * channels + c) * height + y) * width + x
}

/// Element `(b, c, y, x)` of a batch of images; zero outside of the image.
pub open spec fn pixel(d: Seq<u32>, s: Seq<usize>, b: int, c: int, y: int, x: int) -> real {
    if 0 <= y < s[2] && 0 <= x < s[3] {
        real_of(d[place_in(s[1] as int, s[2] as int, s[3] as int, b, c, y, x)])
    } else {
        0real
    }
}

/// The bias of a channel; zero where there is none.
pub open spec fn bias_of(bias: Option<TensorView>, c: int) -> real {
    match bias {
        Some(b) => real_of(b.singles()[c]),
        None => 0real,
    }
}

/// The bias is a list of finite numbers, where there is one.
pub open spec fn finite_bias(bias: Option<TensorView>) -> bool {
    bias matches Some(b) ==> all_finite(b.singles())
}

/// The parts of a place.
pub proof fn lemma_parts(height: int, width: int, p: int, y: int, x: int)
    requires
        0 <= p,
        0 <= y < height,
        0 <= x < width,
    ensures
        ({
            let i = (p * height + y) * width + x;
            &&& i == p * (height * width) + (y * width + x)
            &&& 0 <= y * width + x < height * width
            &&& plane_of(height, width, i) == p
            &&& row_of(height, width, i) == y
            &&& column_of(height, width, i) == x
        }),
{
    let i = (p * height + y) * width + x;
    assert(i == p * (height * width) + (y * width + x)) by (nonlinear_arith)
        requires
            i == (p * height + y) * width + x,
    ;
    lemma_row_major(y, x, height, width);
    lemma_fundamental_div_mod_converse(i, height * width, p, y * width + x);
}

/// The two ways to count a place agree.
pub proof fn lemma_place(channels: int, height: int, width: int, b: int, c: int, y: int, x: int)
    ensures
        place_in(channels, height, width, b, c, y, x) == b * (channels * (height * width)) + (c * (
        height * width) + (y * width + x)),
{
    let hw = height * width;
    assert(((b * channels + c) * height + y) * width + x == (b * channels + c) * hw + (y * width
        + x)) by (nonlinear_arith)
        requires
            hw == height * width,
    ;
    assert((b * channels + c) * hw == b * (channels * hw) + c * hw) by (nonlinear_arith);
}

/// Where a tap falls, and what it is weighted with.
proof fn lemma_tap(g: ConvGeometry, b: int, c: int, y: int, x: int, ic: int, ky: int, kx: int)
    requires
        0 <= b,
        0 <= c < g.out_channels,
        0 <= y < g.vertical.out,
        0 <= x < g.horizontal.out,
        0 <= ic < g.in_channels,
        0 <= ky < g.vertical.kernel,
        0 <= kx < g.horizontal.kernel,
    ensures
        ({
            let (v, h) = (g.vertical, g.horizontal);
            let i = place_in(g.out_channels as int, v.out as int, h.out as int, b, c, y, x);
            let t = ic * (v.kernel * h.kernel) + (ky * h.kernel + kx);
            let iy = y * v.stride + ky - v.pad;
            let ix = x * h.stride + kx - h.pad;
            &&& g.channel(i) == c
            &&& g.hits(i, t) <==> 0 <= iy < v.len && 0 <= ix < h.len
            &&& g.input_at(i, t) == place_in(
                g.in_channels as int,
                v.len as int,
                h.len as int,
                b,
                ic,
                iy,
                ix,
            )
            &&& g.weight_at(i, t) == place_in(
                g.in_channels as int,
                v.kernel as int,
                h.kernel as int,
                c,
                ic,
                ky,
                kx,
            )
            &&& 0 <= t < g.taps()
        }),
{
    let (v, h) = (g.vertical, g.horizontal);
    let oc = g.out_channels as int;
    let i = place_in(oc, v.out as int, h.out as int, b, c, y, x);
    let t = ic * (v.kernel * h.kernel) + (ky * h.kernel + kx);
    let p = b * oc + c;
    assert(p >= 0) by (nonlinear_arith)
        requires
            p == b * oc + c,
            b >= 0,
            oc >= 0,
            c >= 0,
    ;
    lemma_parts(v.out as int, h.out as int, p, y, x);
    lemma_fundamental_div_mod_converse(p, oc, b, c);
    lemma_parts(v.kernel as int, h.kernel as int, ic, ky, kx);
    let iy = y * v.stride + ky - v.pad;
    let ix = x * h.stride + kx - h.pad;
    lemma_place(g.in_channels as int, v.len as int, h.len as int, b, ic, iy, ix);
    lemma_place(g.in_channels as int, v.kernel as int, h.kernel as int, c, ic, ky, kx);
    let kk = v.kernel * h.kernel;
    assert(0 <= t < g.taps()) by (nonlinear_arith)
        requires
            t == ic * kk + (ky * h.kernel + kx),
            0 <= ky * h.kernel + kx < kk,
            0 <= ic < g.in_channels,
            g.taps() == g.in_channels * kk,
    ;
}

/// Element `(b, c, y, x)` of the result has a place.
pub proof fn lemma_result_place(
    batch: int,
    channels: int,
    height: int,
    width: int,
    b: int,
    c: int,
    y: int,
    x: int,
)
    requires
        0 <= b < batch,
        0 <= c < channels,
        0 <= y < height,
        0 <= x < width,
    ensures
        0 <= place_in(channels, height, width, b, c, y, x) < batch * (channels * (height * width)),
{
    lemma_row_major(b, c, batch, channels);
    lemma_row_major(b * channels + c, y, batch * channels, height);
    lemma_row_major((b * channels + c) * height + y, x, (batch * channels) * height, width);
    assert(((batch * channels) * height) * width == batch * (channels * (height * width)))
        by (nonlinear_arith);
}

/// What result element `i` is worth, tap by tap.
pub proof fn lemma_element(
    m: Exact,
    g: ConvGeometry,
    x: Seq<u32>,
    w: Seq<u32>,
    bias: Option<Seq<u32>>,
    i: int,
)
    requires
        taps_within(g, x.len(), w.len(), i),
        all_finite(x),
        all_finite(w),
        forall|t: int|
            0 <= t < g.taps() && #[trigger] g.hits(i, t) ==> 0 <= g.input_at(i, t) && 0
                <= g.weight_at(i, t),
        is_finite(bias_at(bias, g.channel(i))),
    ensures
        exact(m, conv_element(g, x, w, bias, i)) == Value::Num(
            rsum(
                g.taps() as nat,
                |t: int|
                    if g.hits(i, t) {
                        real_of(x[g.input_at(i, t)]) * real_of(w[g.weight_at(i, t)])
                    } else {
                        0real
                    },
            ) + real_of(bias_at(bias, g.channel(i))),
        ),
{
    let n = g.taps() as nat;
    let hit = tap_hits(g, i);
    let term = tap_terms(g, x, w, i);
    assert forall|t: int| 0 <= t < n && #[trigger] hit(t) implies is_number(m, term(t)) && number(
        m,
        term(t),
    ) == real_of(x[g.input_at(i, t)]) * real_of(w[g.weight_at(i, t)]) by {
        reveal_with_fuel(exact, 2);
        assert(g.hits(i, t));
        assert(tap_within(g, x.len(), w.len(), i, t));
        assert(is_finite(x[g.input_at(i, t)]));
        assert(is_finite(w[g.weight_at(i, t)]));
    }
    lemma_sum_where(m, n, hit, term);
    let f = |t: int|
        if hit(t) {
            number(m, term(t))
        } else {
            0real
        };
    let h = |t: int|
        if g.hits(i, t) {
            real_of(x[g.input_at(i, t)]) * real_of(w[g.weight_at(i, t)])
        } else {
            0real
        };
    assert forall|t: int| 0 <= t < n implies #[trigger] f(t) == h(t) by {
        assert(hit(t) == g.hits(i, t));
    }
    lemma_rsum_same(n, f, h);
    lemma_finite(m, bias_at(bias, g.channel(i)));
}

/// The element under tap `(ic, ky, kx)` of the window at `(y, xx)`, times its
/// weight.
pub open spec fn under_tap(
    x: TensorView,
    w: TensorView,
    stride: usize,
    padding: usize,
    b: int,
    c: int,
    y: int,
    xx: int,
    ic: int,
    ky: int,
    kx: int,
) -> real {
    pixel(
        x.singles(),
        x.shape,
        b,
        ic,
        y * stride + ky - padding,
        xx * stride + kx - padding,
    ) * real_of(
        w.singles()[place_in(
            x.shape[1] as int,
            w.shape[2] as int,
            w.shape[3] as int,
            c,
            ic,
            ky,
            kx,
        )],
    )
}

/// The window of the weights at `(y, xx)`, over all channels: the products of
/// weights and elements, summed.
pub open spec fn window_sum(
    x: TensorView,
    w: TensorView,
    stride: usize,
    padding: usize,
    b: int,
    c: int,
    y: int,
    xx: int,
) -> real {
    rsum(
        x.shape[1] as nat,
        |ic: int|
            rsum(
                w.shape[2] as nat,
                |ky: int|
                    rsum(
                        w.shape[3] as nat,
                        |kx: int| under_tap(x, w, stride, padding, b, c, y, xx, ic, ky, kx),
                    ),
            ),
    )
}

/// A convolution is what its name says: over the real numbers, element
/// `(b, c, y, x)` is the sum over channel and window of the elements under
/// the window, zero outside of the image, times the weights of output channel
/// `c`, plus element `c` of the bias. The window has as many places as fit on
/// the padded image.
pub proof fn law_convolution_sums_windows(
    m: Exact,
    x: TensorView,
    w: TensorView,
    bias: Option<TensorView>,
    stride: usize,
    padding: usize,
    b: int,
    c: int,
    y: int,
    xx: int,
)
    requires
        conv2d_outcome(x, w, bias, stride, padding) matches Outcome::Yields(s, _) && 0 <= y
            < s.shape[2] && 0 <= xx < s.shape[3],
        all_finite(x.singles()) && all_finite(w.singles()) && finite_bias(bias),
        0 <= b < x.shape[0],
        0 <= c < w.shape[0],
    ensures
        conv2d_outcome(x, w, bias, stride, padding) matches Outcome::Yields(s, _) && ({
            let at = place_in(
                w.shape[0] as int,
                s.shape[2] as int,
                s.shape[3] as int,
                b,
                c,
                y,
                xx,
            );
            &&& s.shape.len() == 4
            &&& s.shape[0] == x.shape[0]
            &&& s.shape[1] == w.shape[0]
            &&& (s.shape[2] - 1) * stride + w.shape[2] <= x.shape[2] + 2 * padding < s.shape[2]
                * stride + w.shape[2]
            &&& (s.shape[3] - 1) * stride + w.shape[3] <= x.shape[3] + 2 * padding < s.shape[3]
                * stride + w.shape[3]
            &&& 0 <= at < s.data.len()
            &&& exact(m, s.data[at]) == Value::Num(
                window_sum(x, w, stride, padding, b, c, y, xx) + bias_of(bias, c),
            )
        }),
{
    let g = conv_geometry(x.shape, w.shape, stride, padding)->0;
    let (v, h) = (g.vertical, g.horizontal);
    let xd = x.singles();
    let wd = w.singles();
    let bd = match bias {
        Some(t) => Some(t.singles()),
        None => None,
    };
    let at = place_in(g.out_channels as int, v.out as int, h.out as int, b, c, y, xx);
    lemma_places(x.shape[2] + 2 * padding - w.shape[2], stride as int, v.out as int);
    lemma_places(x.shape[3] + 2 * padding - w.shape[3], stride as int, h.out as int);
    lemma_result_place(
        g.batch as int,
        g.out_channels as int,
        v.out as int,
        h.out as int,
        b,
        c,
        y,
        xx,
    );
    assert(taps_within(g, xd.len(), wd.len(), at));
    let f = |t: int|
        if g.hits(at, t) {
            real_of(xd[g.input_at(at, t)]) * real_of(wd[g.weight_at(at, t)])
        } else {
            0real
        };
    let p = |ic: int, ky: int, kx: int|
        under_tap(x, w, stride, padding, b, c, y, xx, ic, ky, kx);
    let (k2, k3) = (v.kernel as nat, h.kernel as nat);
    assert forall|ic: int, ky: int, kx: int|
        0 <= ic < g.in_channels && 0 <= ky < k2 && 0 <= kx < k3 implies f(
        ic * (k2 * k3) + (ky * k3 + kx),
    ) == #[trigger] p(ic, ky, kx) by {
        lemma_tap(g, b, c, y, xx, ic, ky, kx);
        let z = real_of(
            wd[place_in(x.shape[1] as int, w.shape[2] as int, w.shape[3] as int, c, ic, ky, kx)],
        );
        assert(0real * z == 0real) by (nonlinear_arith);
    }
    lemma_rsum_planes(g.in_channels as nat, k2, k3, f, p);
    lemma_channel(g, b, c, y, xx);
    lemma_taps_there(g, at);
    lemma_constants();
    if let Some(t) = bias {
        assert(is_finite(t.singles()[c]));
    }
    lemma_element(m, g, xd, wd, bd, at);
    let l = |ic: int| rsum(k2, |ky: int| rsum(k3, |kx: int| p(ic, ky, kx)));
    assert(rsum(g.in_channels as nat, l) == window_sum(x, w, stride, padding, b, c, y, xx)) by {
        lemma_windows(x, w, stride, padding, b, c, y, xx, p);
    }
}

/// The places that fit.
proof fn lemma_places(room: int, stride: int, n: int)
    requires
        stride > 0,
        n == room / stride + 1,
    ensures
        (n - 1) * stride <= room < n * stride,
{
    lemma_fundamental_div_mod(room, stride);
    lemma_mod_bound(room, stride);
    assert((n - 1) * stride <= room < n * stride) by (nonlinear_arith)
        requires
            room == stride * (n - 1) + room % stride,
            0 <= room % stride < stride,
    ;
}

/// The channel of a result element.
proof fn lemma_channel(g: ConvGeometry, b: int, c: int, y: int, x: int)
    requires
        0 <= b,
        0 <= c < g.out_channels,
        0 <= y < g.vertical.out,
        0 <= x < g.horizontal.out,
    ensures
        g.channel(
            place_in(
                g.out_channels as int,
                g.vertical.out as int,
                g.horizontal.out as int,
                b,
                c,
                y,
                x,
            ),
        ) == c,
{
    let oc = g.out_channels as int;
    let p = b * oc + c;
    assert(p >= 0) by (nonlinear_arith)
        requires
            p == b * oc + c,
            b >= 0,
            oc >= 0,
            c >= 0,
    ;
    lemma_parts(g.vertical.out as int, g.horizontal.out as int, p, y, x);
    lemma_fundamental_div_mod_converse(p, oc, b, c);
}

/// Taps fall on places that are not negative.
pub proof fn lemma_taps_there(g: ConvGeometry, i: int)
    requires
        0 <= i < g.outputs(),
    ensures
        forall|t: int|
            0 <= t < g.taps() && #[trigger] g.hits(i, t) ==> 0 <= g.input_at(i, t) && 0
                <= g.weight_at(i, t),
{
    let (v, h) = (g.vertical, g.horizontal);
    lemma_image_parts(
        g.batch as int,
        g.out_channels as int,
        v.out as int,
        h.out as int,
        i,
    );
    assert forall|t: int| 0 <= t < g.taps() && #[trigger] g.hits(i, t) implies 0 <= g.input_at(
        i,
        t,
    ) && 0 <= g.weight_at(i, t) by {
        lemma_image_parts(
            1,
            g.in_channels as int,
            v.kernel as int,
            h.kernel as int,
            t,
        );
        let p = plane_of(v.kernel as int, h.kernel as int, t);
        let y = v.element(
            row_of(v.out as int, h.out as int, i),
            row_of(v.kernel as int, h.kernel as int, t),
        );
        let x = h.element(
            column_of(v.out as int, h.out as int, i),
            column_of(v.kernel as int, h.kernel as int, t),
        );
        let b = g.image(i);
        lemma_result_place(
            b + 1,
            g.in_channels as int,
            v.len as int,
            h.len as int,
            b,
            p,
            y,
            x,
        );
        lemma_place(g.in_channels as int, v.len as int, h.len as int, b, p, y, x);
        let (c, n) = (g.channel(i), g.taps());
        assert(0 <= c * n) by (nonlinear_arith)
            requires
                0 <= c,
                0 <= n,
        ;
    }
}

/// The sum over a window, by a function of channel, row and column.
proof fn lemma_windows(
    x: TensorView,
    w: TensorView,
    stride: usize,
    padding: usize,
    b: int,
    c: int,
    y: int,
    xx: int,
    p: spec_fn(int, int, int) -> real,
)
    requires
        forall|ic: int, ky: int, kx: int| #[trigger]
            p(ic, ky, kx) == under_tap(x, w, stride, padding, b, c, y, xx, ic, ky, kx),
    ensures
        window_sum(x, w, stride, padding, b, c, y, xx) == rsum(
            x.shape[1] as nat,
            |ic: int|
                rsum(
                    w.shape[2] as nat,
                    |ky: int| rsum(w.shape[3] as nat, |kx: int| p(ic, ky, kx)),
                ),
        ),
{
    let l = |ic: int|
        rsum(w.shape[2] as nat, |ky: int| rsum(w.shape[3] as nat, |kx: int| p(ic, ky, kx)));
    let r = |ic: int|
        rsum(
            w.shape[2] as nat,
            |ky: int|
                rsum(
                    w.shape[3] as nat,
                    |kx: int| under_tap(x, w, stride, padding, b, c, y, xx, ic, ky, kx),
                ),
        );
    assert forall|ic: int| 0 <= ic < x.shape[1] implies #[trigger] l(ic) == r(ic) by {
        let lj = |ky: int| rsum(w.shape[3] as nat, |kx: int| p(ic, ky, kx));
        let rj = |ky: int|
            rsum(
                w.shape[3] as nat,
                |kx: int| under_tap(x, w, stride, padding, b, c, y, xx, ic, ky, kx),
            );
        assert forall|ky: int| 0 <= ky < w.shape[2] implies #[trigger] lj(ky) == rj(ky) by {
            lemma_rsum_same(
                w.shape[3] as nat,
                |kx: int| p(ic, ky, kx),
                |kx: int| under_tap(x, w, stride, padding, b, c, y, xx, ic, ky, kx),
            );
        }
        lemma_rsum_same(w.shape[2] as nat, lj, rj);
    }
    lemma_rsum_same(x.shape[1] as nat, l, r);
}

/// A convolution with a bias is the convolution without it plus, at element
/// `(b, c, y, x)`, element `c` of the bias. With zero weights the result at
/// every place of channel `c` is element `c` of the bias.
pub proof fn law_convolution_adds_bias(
    m: Exact,
    x: TensorView,
    w: TensorView,
    bias: TensorView,
    stride: usize,
    padding: usize,
    b: int,
    c: int,
    y: int,
    xx: int,
)
    requires
        conv2d_outcome(x, w, Some(bias), stride, padding) matches Outcome::Yields(s, _) && 0 <= y
            < s.shape[2] && 0 <= xx < s.shape[3],
        all_finite(x.singles()) && all_finite(w.singles()) && all_finite(bias.singles()),
        0 <= b < x.shape[0],
        0 <= c < w.shape[0],
    ensures
        conv2d_outcome(x, w, Some(bias), stride, padding) matches Outcome::Yields(s, _) && (
        conv2d_outcome(x, w, None, stride, padding) matches Outcome::Yields(s2, _) && ({
            let at = place_in(
                w.shape[0] as int,
                s.shape[2] as int,
                s.shape[3] as int,
                b,
                c,
                y,
                xx,
            );
            &&& s2.shape == s.shape
            &&& is_number(m, s.data[at]) && is_number(m, s2.data[at])
            &&& number(m, s.data[at]) == number(m, s2.data[at]) + real_of(bias.singles()[c])
            &&& (forall|j: int|
                0 <= j < w.singles().len() ==> real_of(#[trigger] w.singles()[j]) == 0real)
                ==> number(m, s.data[at]) == real_of(bias.singles()[c])
        })),
{
    law_convolution_sums_windows(m, x, w, Some(bias), stride, padding, b, c, y, xx);
    law_convolution_sums_windows(m, x, w, None, stride, padding, b, c, y, xx);
    if forall|j: int| 0 <= j < w.singles().len() ==> real_of(#[trigger] w.singles()[j]) == 0real {
        lemma_zero_weights(x, w, stride, padding, b, c, y, xx);
    }
}

/// Nothing comes through weights that are zero.
proof fn lemma_zero_weights(
    x: TensorView,
    w: TensorView,
    stride: usize,
    padding: usize,
    b: int,
    c: int,
    y: int,
    xx: int,
)
    requires
        conv2d_outcome(x, w, None, stride, padding) matches Outcome::Yields(s, _) && 0 <= y
            < s.shape[2] && 0 <= xx < s.shape[3],
        0 <= b < x.shape[0],
        0 <= c < w.shape[0],
        forall|j: int| 0 <= j < w.singles().len() ==> real_of(#[trigger] w.singles()[j]) == 0real,
    ensures
        window_sum(x, w, stride, padding, b, c, y, xx) == 0real,
{
    let g = conv_geometry(x.shape, w.shape, stride, padding)->0;
    let (v, h) = (g.vertical, g.horizontal);
    let at = place_in(g.out_channels as int, v.out as int, h.out as int, b, c, y, xx);
    lemma_result_place(
        g.batch as int,
        g.out_channels as int,
        v.out as int,
        h.out as int,
        b,
        c,
        y,
        xx,
    );
    assert(taps_within(g, x.singles().len(), w.singles().len(), at));
    lemma_taps_there(g, at);
    let p = |ic: int, ky: int, kx: int|
        under_tap(x, w, stride, padding, b, c, y, xx, ic, ky, kx);
    lemma_windows(x, w, stride, padding, b, c, y, xx, p);
    let (k1, k2, k3) = (x.shape[1] as nat, w.shape[2] as nat, w.shape[3] as nat);
    let l = |ic: int| rsum(k2, |ky: int| rsum(k3, |kx: int| p(ic, ky, kx)));
    assert forall|ic: int| 0 <= ic < k1 implies #[trigger] l(ic) == 0real by {
        let lj = |ky: int| rsum(k3, |kx: int| p(ic, ky, kx));
        assert forall|ky: int| 0 <= ky < k2 implies #[trigger] lj(ky) == 0real by {
            let u = |kx: int| p(ic, ky, kx);
            assert forall|kx: int| 0 <= kx < k3 implies #[trigger] u(kx) == 0real by {
                lemma_tap(g, b, c, y, xx, ic, ky, kx);
                let t = ic * (v.kernel * h.kernel) + (ky * h.kernel + kx);
                assert(tap_within(g, x.singles().len(), w.singles().len(), at, t));
                let px = pixel(
                    x.singles(),
                    x.shape,
                    b,
                    ic,
                    y * stride + ky - padding,
                    xx * stride + kx - padding,
                );
                let z = real_of(w.singles()[g.weight_at(at, t)]);
                assert(0real * z == 0real && px * 0real == 0real) by (nonlinear_arith);
                if g.hits(at, t) {
                    assert(z == 0real);
                }
            }
            lemma_rsum_zero(k3, u);
        }
        lemma_rsum_zero(k2, lj);
    }
    lemma_rsum_zero(k1, l);
}

/// The numbers of two lists, each times its neighbour, summed.
pub open spec fn inner(m: Exact, n: nat, a: Seq<Fx>, b: Seq<u32>) -> real {
    rsum(n, |j: int| number(m, a[j]) * real_of(b[j]))
}

/// A result with a gradient of the same shape: both have all sizes in common.
proof fn lemma_gradient_sizes(
    x: TensorView,
    w: TensorView,
    dy: TensorView,
    stride: usize,
    padding: usize,
)
    requires
        conv2d_outcome(x, w, None, stride, padding) matches Outcome::Yields(s, _) && dy.shape
            == s.shape && dy.singles().len() >= s.data.len(),
        dy.data is F32,
    ensures
        ({
            let g = conv_geometry(x.shape, w.shape, stride, padding)->0;
            &&& grad_fits(x, w, dy, stride, padding)
            &&& grad_geometry(x.shape, w.shape, dy.shape, stride, padding) == g
            &&& conv2d_outcome(x, w, None, stride, padding)->Yields_0.data.len() == g.outputs()
        }),
{
    let g = conv_geometry(x.shape, w.shape, stride, padding)->0;
    let (v, h) = (g.vertical, g.horizontal);
    assert(g.outputs() >= 0) by {
        let a = v.out * h.out;
        let b = g.out_channels * a;
        assert(a >= 0) by (nonlinear_arith)
            requires
                a == v.out * h.out,
        ;
        assert(b >= 0) by (nonlinear_arith)
            requires
                b == g.out_channels * a,
                a >= 0,
        ;
        assert(g.batch * b >= 0) by (nonlinear_arith)
            requires
                b >= 0,
        ;
    }
}

/// Number of taps, and place of a tap in the list of all taps.
proof fn lemma_step(g: ConvGeometry, i: int, t: int)
    requires
        0 <= i,
        0 <= t < g.taps(),
    ensures
        (i * g.taps() + t) / g.taps() == i,
        (i * g.taps() + t) % g.taps() == t,
{
    lemma_fundamental_div_mod_converse(i * g.taps() + t, g.taps(), i, t);
}

/// Terms of all taps of all result elements, summed by result element.
proof fn lemma_by_element(
    g: ConvGeometry,
    dy: Seq<u32>,
    a: Seq<u32>,
    b: Seq<u32>,
    at: spec_fn(int) -> real,
    out: spec_fn(int) -> real,
)
    requires
        g.outputs() >= 0,
        g.taps() >= 0,
        forall|u: int| #[trigger]
            at(u) == (if g.hits(u / g.taps(), u % g.taps()) {
                real_of(dy[u / g.taps()]) * (real_of(a[g.input_at(u / g.taps(), u % g.taps())])
                    * real_of(b[g.weight_at(u / g.taps(), u % g.taps())]))
            } else {
                0real
            }),
        forall|i: int|
            0 <= i < g.outputs() ==> #[trigger] out(i) == rsum(
                g.taps() as nat,
                |t: int|
                    if g.hits(i, t) {
                        real_of(a[g.input_at(i, t)]) * real_of(b[g.weight_at(i, t)])
                    } else {
                        0real
                    },
            ),
    ensures
        rsum((g.outputs() * g.taps()) as nat, at) == rsum(
            g.outputs() as nat,
            |i: int| out(i) * real_of(dy[i]),
        ),
{
    let n = g.outputs() as nat;
    let k = g.taps() as nat;
    assert((g.outputs() * g.taps()) as nat == n * k) by (nonlinear_arith)
        requires
            n == g.outputs(),
            k == g.taps(),
    ;
    lemma_rsum_rows(n, k, at);
    let l = |i: int| rsum(k, |t: int| at(i * k + t));
    let r = |i: int| out(i) * real_of(dy[i]);
    assert forall|i: int| 0 <= i < n implies #[trigger] l(i) == r(i) by {
        let f = |t: int|
            if g.hits(i, t) {
                real_of(a[g.input_at(i, t)]) * real_of(b[g.weight_at(i, t)])
            } else {
                0real
            };
        let d = real_of(dy[i]);
        let u = |t: int| at(i * k + t);
        let df = |t: int| d * f(t);
        assert forall|t: int| 0 <= t < k implies #[trigger] u(t) == df(t) by {
            lemma_step(g, i, t);
            assert(d * 0real == 0real) by (nonlinear_arith);
            assert(i * k + t == i * g.taps() + t);
        }
        lemma_rsum_same(k, u, df);
        lemma_rsum_scale(k, d, f);
        let o = out(i);
        assert(d * o == o * d) by (nonlinear_arith);
    }
    lemma_rsum_same(n, l, r);
}

/// Steps of a gradient that are added up where they go.
pub proof fn lemma_steps(
    m: Exact,
    n: nat,
    places: nat,
    grad: Seq<Fx>,
    v: Seq<u32>,
    goes: spec_fn(int) -> bool,
    to: spec_fn(int) -> int,
    terms: spec_fn(int) -> Fx,
)
    requires
        grad.len() == places,
        forall|u: int|
            0 <= u < n && #[trigger] goes(u) ==> 0 <= to(u) < places && is_number(m, terms(u)),
        forall|j: int|
            0 <= j < places ==> exact(m, #[trigger] grad[j]) == Value::Num(
                rsum(
                    n,
                    |u: int|
                        if goes(u) && to(u) == j {
                            number(m, terms(u))
                        } else {
                            0real
                        },
                ),
            ),
    ensures
        inner(m, places, grad, v) == rsum(
            n,
            |u: int|
                if goes(u) {
                    number(m, terms(u)) * real_of(v[to(u)])
                } else {
                    0real
                },
        ),
{
    let a = |u: int| number(m, terms(u));
    let y = |j: int| real_of(v[j]);
    lemma_scatter(n, places, goes, to, a, y);
    let l = |j: int| number(m, grad[j]) * real_of(v[j]);
    let r = |j: int|
        rsum(
            n,
            |u: int|
                if goes(u) && to(u) == j {
                    a(u)
                } else {
                    0real
                },
        ) * y(j);
    assert forall|j: int| 0 <= j < places implies #[trigger] l(j) == r(j) by {
        lemma_rsum_same(
            n,
            |u: int|
                if goes(u) && to(u) == j {
                    number(m, terms(u))
                } else {
                    0real
                },
            |u: int|
                if goes(u) && to(u) == j {
                    a(u)
                } else {
                    0real
                },
        );
        assert(exact(m, grad[j]) is Num);
    }
    lemma_rsum_same(places, l, r);
    lemma_rsum_same(
        n,
        |u: int|
            if goes(u) {
                a(u) * y(to(u))
            } else {
                0real
            },
        |u: int|
            if goes(u) {
                number(m, terms(u)) * real_of(v[to(u)])
            } else {
                0real
            },
    );
}

/// What is read at a step is there.
proof fn lemma_step_within(g: ConvGeometry, inputs: nat, weights: nat, u: int)
    requires
        all_within(g, inputs, weights),
        g.taps() >= 0,
        g.outputs() >= 0,
        0 <= u < g.outputs() * g.taps(),
        g.hits(u / g.taps(), u % g.taps()),
    ensures
        0 <= u / g.taps() < g.outputs(),
        0 <= u % g.taps() < g.taps(),
        0 <= g.input_at(u / g.taps(), u % g.taps()) < inputs,
        0 <= g.weight_at(u / g.taps(), u % g.taps()) < weights,
{
    lemma_split(u, g.outputs(), g.taps());
    let (i, t) = (u / g.taps(), u % g.taps());
    assert(taps_within(g, inputs, weights, i));
    assert(tap_within(g, inputs, weights, i, t));
    lemma_taps_there(g, i);
}

/// The elements of a convolution, tap by tap.
proof fn lemma_elements(
    m: Exact,
    x: TensorView,
    w: TensorView,
    stride: usize,
    padding: usize,
    i: int,
)
    requires
        conv2d_outcome(x, w, None, stride, padding) matches Outcome::Yields(s, _) && 0 <= i
            < s.data.len(),
        all_finite(x.singles()) && all_finite(w.singles()),
    ensures
        ({
            let g = conv_geometry(x.shape, w.shape, stride, padding)->0;
            exact(m, conv2d_outcome(x, w, None, stride, padding)->Yields_0.data[i]) == Value::Num(
                rsum(
                    g.taps() as nat,
                    |t: int|
                        if g.hits(i, t) {
                            real_of(x.singles()[g.input_at(i, t)]) * real_of(
                                w.singles()[g.weight_at(i, t)],
                            )
                        } else {
                            0real
                        },
                ),
            )
        }),
{
    let g = conv_geometry(x.shape, w.shape, stride, padding)->0;
    lemma_constants();
    lemma_taps_there(g, i);
    assert(taps_within(g, x.singles().len(), w.singles().len(), i));
    lemma_element(m, g, x.singles(), w.singles(), None, i);
}

/// Sizes are not negative.
proof fn lemma_taps_sign(g: ConvGeometry)
    ensures
        g.taps() >= 0,
{
    let a = g.vertical.kernel * g.horizontal.kernel;
    assert(a >= 0) by (nonlinear_arith)
        requires
            a == g.vertical.kernel * g.horizontal.kernel,
    ;
    assert(g.in_channels * a >= 0) by (nonlinear_arith)
        requires
            a >= 0,
    ;
}

/// The gradient of a convolution with respect to its input turns the
/// convolution around: over the real numbers, its products with any input add
/// up to those of the gradient of the result with the convolution of that
/// input.
pub proof fn law_convolution_input_gradient(
    m: Exact,
    x: TensorView,
    v: TensorView,
    w: TensorView,
    dy: TensorView,
    stride: usize,
    padding: usize,
)
    requires
        x.data is F32 && dy.data is F32,
        v.shape == x.shape,
        v.singles().len() == x.singles().len(),
        conv2d_outcome(v, w, None, stride, padding) matches Outcome::Yields(s, _) && dy.shape
            == s.shape && dy.singles().len() >= s.data.len(),
        all_finite(v.singles()) && all_finite(w.singles()) && all_finite(dy.singles()),
    ensures
        conv2d_grad_x_outcome(x, w, dy, stride, padding) matches Outcome::Yields(d, _) && (
        conv2d_outcome(v, w, None, stride, padding) matches Outcome::Yields(s, _) && d.shape
            == x.shape && d.data.len() == x.singles().len() && inner(
            m,
            d.data.len(),
            d.data,
            v.singles(),
        ) == inner(m, s.data.len(), s.data, dy.singles())),
{
    let g = conv_geometry(v.shape, w.shape, stride, padding)->0;
    let s = conv2d_outcome(v, w, None, stride, padding)->Yields_0;
    lemma_gradient_sizes(v, w, dy, stride, padding);
    lemma_taps_sign(g);
    let d = conv2d_grad_x_outcome(x, w, dy, stride, padding)->Yields_0;
    let (vd, wd, gd) = (v.singles(), w.singles(), dy.singles());
    let n = (g.outputs() * g.taps()) as nat;
    let hit = |u: int| g.hits(u / g.taps(), u % g.taps());
    let to = |u: int| g.input_at(u / g.taps(), u % g.taps());
    let terms = input_grad_terms(g, wd, gd);
    assert(g.outputs() * g.taps() >= 0) by (nonlinear_arith)
        requires
            g.outputs() >= 0,
            g.taps() >= 0,
    ;
    assert forall|u: int| 0 <= u < n && #[trigger] hit(u) implies 0 <= to(u) < vd.len()
        && is_number(m, terms(u)) && number(m, terms(u)) == real_of(gd[u / g.taps()]) * real_of(
        wd[g.weight_at(u / g.taps(), u % g.taps())],
    ) by {
        reveal_with_fuel(exact, 2);
        lemma_step_within(g, vd.len(), wd.len(), u);
        assert(is_finite(gd[u / g.taps()]));
        assert(is_finite(wd[g.weight_at(u / g.taps(), u % g.taps())]));
    }
    assert forall|j: int| 0 <= j < d.data.len() implies exact(m, #[trigger] d.data[j])
        == Value::Num(
        rsum(
            n,
            |u: int|
                if hit(u) && to(u) == j {
                    number(m, terms(u))
                } else {
                    0real
                },
        ),
    ) by {
        let goes = goes_to_input(g, j);
        assert forall|u: int| 0 <= u < n && #[trigger] goes(u) implies is_number(m, terms(u)) by {
            assert(hit(u));
        }
        lemma_sum_where(m, n, goes, terms);
        lemma_rsum_same(
            n,
            |u: int|
                if goes(u) {
                    number(m, terms(u))
                } else {
                    0real
                },
            |u: int|
                if hit(u) && to(u) == j {
                    number(m, terms(u))
                } else {
                    0real
                },
        );
    }
    lemma_steps(m, n, d.data.len(), d.data, vd, hit, to, terms);
    let at = |u: int|
        if g.hits(u / g.taps(), u % g.taps()) {
            real_of(gd[u / g.taps()]) * (real_of(vd[g.input_at(u / g.taps(), u % g.taps())])
                * real_of(wd[g.weight_at(u / g.taps(), u % g.taps())]))
        } else {
            0real
        };
    let l = |u: int|
        if hit(u) {
            number(m, terms(u)) * real_of(vd[to(u)])
        } else {
            0real
        };
    assert forall|u: int| 0 <= u < n implies #[trigger] l(u) == at(u) by {
        if hit(u) {
            let (a, b, c) = (
                real_of(gd[u / g.taps()]),
                real_of(wd[g.weight_at(u / g.taps(), u % g.taps())]),
                real_of(vd[to(u)]),
            );
            assert((a * b) * c == a * (c * b)) by (nonlinear_arith);
        }
    }
    lemma_rsum_same(n, l, at);
    let out = |i: int| number(m, s.data[i]);
    assert forall|i: int| 0 <= i < g.outputs() implies #[trigger] out(i) == rsum(
        g.taps() as nat,
        |t: int|
            if g.hits(i, t) {
                real_of(vd[g.input_at(i, t)]) * real_of(wd[g.weight_at(i, t)])
            } else {
                0real
            },
    ) by {
        lemma_elements(m, v, w, stride, padding, i);
    }
    lemma_by_element(g, gd, vd, wd, at, out);
    lemma_rsum_same(
        s.data.len(),
        |i: int| out(i) * real_of(gd[i]),
        |j: int| number(m, s.data[j]) * real_of(gd[j]),
    );
}

/// The gradient of a convolution with respect to its weights turns it around
/// as well: over the real numbers, its products with any weights add up to
/// those of the gradient of the result with the convolution by those weights.
pub proof fn law_convolution_weight_gradient(
    m: Exact,
    x: TensorView,
    w: TensorView,
    v: TensorView,
    dy: TensorView,
    stride: usize,
    padding: usize,
)
    requires
        w.data is F32 && dy.data is F32,
        v.shape == w.shape,
        v.singles().len() == w.singles().len(),
        conv2d_outcome(x, v, None, stride, padding) matches Outcome::Yields(s, _) && dy.shape
            == s.shape && dy.singles().len() >= s.data.len(),
        all_finite(x.singles()) && all_finite(v.singles()) && all_finite(dy.singles()),
    ensures
        conv2d_grad_w_outcome(x, w, dy, stride, padding) matches Outcome::Yields(d, _) && (
        conv2d_outcome(x, v, None, stride, padding) matches Outcome::Yields(s, _) && d.shape
            == w.shape && d.data.len() == w.singles().len() && inner(
            m,
            d.data.len(),
            d.data,
            v.singles(),
        ) == inner(m, s.data.len(), s.data, dy.singles())),
{
    let g = conv_geometry(x.shape, v.shape, stride, padding)->0;
    let s = conv2d_outcome(x, v, None, stride, padding)->Yields_0;
    lemma_gradient_sizes(x, v, dy, stride, padding);
    lemma_taps_sign(g);
    let d = conv2d_grad_w_outcome(x, w, dy, stride, padding)->Yields_0;
    let (xd, vd, gd) = (x.singles(), v.singles(), dy.singles());
    let n = (g.outputs() * g.taps()) as nat;
    let hit = |u: int| g.hits(u / g.taps(), u % g.taps());
    let to = |u: int| g.weight_at(u / g.taps(), u % g.taps());
    let terms = weight_grad_terms(g, xd, gd);
    assert(g.outputs() * g.taps() >= 0) by (nonlinear_arith)
        requires
            g.outputs() >= 0,
            g.taps() >= 0,
    ;
    assert forall|u: int| 0 <= u < n && #[trigger] hit(u) implies 0 <= to(u) < vd.len()
        && is_number(m, terms(u)) && number(m, terms(u)) == real_of(
        xd[g.input_at(u / g.taps(), u % g.taps())],
    ) * real_of(gd[u / g.taps()]) by {
        reveal_with_fuel(exact, 2);
        lemma_step_within(g, xd.len(), vd.len(), u);
        assert(is_finite(gd[u / g.taps()]));
        assert(is_finite(xd[g.input_at(u / g.taps(), u % g.taps())]));
    }
    assert forall|j: int| 0 <= j < d.data.len() implies exact(m, #[trigger] d.data[j])
        == Value::Num(
        rsum(
            n,
            |u: int|
                if hit(u) && to(u) == j {
                    number(m, terms(u))
                } else {
                    0real
                },
        ),
    ) by {
        let goes = goes_to_weight(g, j);
        assert forall|u: int| 0 <= u < n && #[trigger] goes(u) implies is_number(m, terms(u)) by {
            assert(hit(u));
        }
        lemma_sum_where(m, n, goes, terms);
        lemma_rsum_same(
            n,
            |u: int|
                if goes(u) {
                    number(m, terms(u))
                } else {
                    0real
                },
            |u: int|
                if hit(u) && to(u) == j {
                    number(m, terms(u))
                } else {
                    0real
                },
        );
    }
    lemma_steps(m, n, d.data.len(), d.data, vd, hit, to, terms);
    let at = |u: int|
        if g.hits(u / g.taps(), u % g.taps()) {
            real_of(gd[u / g.taps()]) * (real_of(xd[g.input_at(u / g.taps(), u % g.taps())])
                * real_of(vd[g.weight_at(u / g.taps(), u % g.taps())]))
        } else {
            0real
        };
    let l = |u: int|
        if hit(u) {
            number(m, terms(u)) * real_of(vd[to(u)])
        } else {
            0real
        };
    assert forall|u: int| 0 <= u < n implies #[trigger] l(u) == at(u) by {
        if hit(u) {
            let (a, b, c) = (
                real_of(gd[u / g.taps()]),
                real_of(xd[g.input_at(u / g.taps(), u % g.taps())]),
                real_of(vd[to(u)]),
            );
            assert((b * a) * c == a * (b * c)) by (nonlinear_arith);
        }
    }
    lemma_rsum_same(n, l, at);
    let out = |i: int| number(m, s.data[i]);
    assert forall|i: int| 0 <= i < g.outputs() implies #[trigger] out(i) == rsum(
        g.taps() as nat,
        |t: int|
            if g.hits(i, t) {
                real_of(xd[g.input_at(i, t)]) * real_of(vd[g.weight_at(i, t)])
            } else {
                0real
            },
    ) by {
        lemma_elements(m, x, v, stride, padding, i);
    }
    lemma_by_element(g, gd, xd, vd, at, out);
    lemma_rsum_same(
        s.data.len(),
        |i: int| out(i) * real_of(gd[i]),
        |j: int| number(m, s.data[j]) * real_of(gd[j]),
    );
}

/// The gradient of a convolution with respect to its bias: over the real
/// numbers, its products with any bias add up to those of the gradient of the
/// result with that bias, element `c` at every place of channel `c`.
pub proof fn law_convolution_bias_gradient(m: Exact, dy: TensorView, v: Seq<u32>)
    requires
        dy.wf(),
        dy.data is F32,
        dy.shape.len() == 4,
        all_finite(dy.singles()),
        images_within(dy),
    ensures
        conv2d_grad_b_outcome(dy) matches Outcome::Yields(d, _) && d.shape == seq![dy.shape[1]]
            && d.data.len() == dy.shape[1] && inner(m, d.data.len(), d.data, v) == rsum(
            (dy.shape[0] * (dy.shape[1] * (dy.shape[2] * dy.shape[3]))) as nat,
            |i: int|
                real_of(dy.singles()[i]) * real_of(
                    v[i / (dy.shape[2] * dy.shape[3]) % (dy.shape[1] as int)],
                ),
        ),
{
    let d = conv2d_grad_b_outcome(dy)->Yields_0;
    let gd = dy.singles();
    let (b, c, y, x) = (
        dy.shape[0] as int,
        dy.shape[1] as int,
        dy.shape[2] as int,
        dy.shape[3] as int,
    );
    let n = image_elements(dy.shape) as nat;
    let all = |u: int| true;
    let to = |u: int| plane_of(y, x, u) % c;
    let terms = leaf_at(gd);
    assert forall|u: int| 0 <= u < n && #[trigger] all(u) implies 0 <= to(u) < c && is_number(
        m,
        terms(u),
    ) && number(m, terms(u)) == real_of(gd[u]) by {
        lemma_image_parts(b, c, y, x, u);
        assert(is_finite(gd[u]));
    }
    assert forall|j: int| 0 <= j < d.data.len() implies exact(m, #[trigger] d.data[j])
        == Value::Num(
        rsum(
            n,
            |u: int|
                if all(u) && to(u) == j {
                    number(m, terms(u))
                } else {
                    0real
                },
        ),
    ) by {
        let goes = in_channel(c, y, x, j);
        assert forall|u: int| 0 <= u < n && #[trigger] goes(u) implies is_number(m, terms(u)) by {
            assert(all(u));
        }
        lemma_sum_where(m, n, goes, terms);
        lemma_rsum_same(
            n,
            |u: int|
                if goes(u) {
                    number(m, terms(u))
                } else {
                    0real
                },
            |u: int|
                if all(u) && to(u) == j {
                    number(m, terms(u))
                } else {
                    0real
                },
        );
    }
    lemma_steps(m, n, d.data.len(), d.data, v, all, to, terms);
    let l = |u: int|
        if all(u) {
            number(m, terms(u)) * real_of(v[to(u)])
        } else {
            0real
        };
    let r = |i: int|
        real_of(dy.singles()[i]) * real_of(
            v[i / (dy.shape[2] * dy.shape[3]) % (dy.shape[1] as int)],
        );
    assert forall|u: int| 0 <= u < n implies #[trigger] l(u) == r(u) by {
        assert(all(u));
    }
    lemma_rsum_same(n, l, r);
}

} // verus!
