//! Sliding windows: which element of an axis a kernel tap falls on.

use crate::kernels::movement::{lemma_row_major, lemma_split};
use vstd::arithmetic::div_mod::*;
use vstd::arithmetic::mul::*;
use vstd::prelude::*;

verus! {

/// A window that slides along one axis of `len` elements, padded on both
/// sides.
#[derive(Debug, Clone, Copy)]
pub struct Axis {
    /// The number of places of the window.
    pub out: usize,
    /// The extent of the window.
    pub kernel: usize,
    /// The step between places.
    pub stride: usize,
    /// The padding before the first element.
    pub pad: usize,
    /// The number of elements.
    pub len: usize,
}

impl Axis {
    /// No place of the window lies beyond the machine numbers.
    pub open spec fn fits(self) -> bool {
        self.out == 0 || (self.out - 1) * self.stride + self.kernel <= usize::MAX
    }

    /// Tap `k` of the window at place `o` falls on an element.
    pub open spec fn hits(self, o: int, k: int) -> bool {
        self.pad <= o * self.stride + k < self.pad + self.len
    }

    /// The element that tap `k` of the window at place `o` falls on.
    pub open spec fn element(self, o: int, k: int) -> int {
        o * self.stride + k - self.pad
    }

    /// The element that a tap falls on, if it falls on one.
    pub fn tap(&self, o: usize, k: usize) -> (e: Option<usize>)
        requires
            self.fits(),
            o < self.out,
            k < self.kernel,
        ensures
            match e {
                Some(v) => self.hits(o as int, k as int) && v == self.element(o as int, k as int)
                    && v < self.len,
                None => !self.hits(o as int, k as int),
            },
    {
        proof {
            let last = self.out - 1;
            lemma_mul_inequality(o as int, last as int, self.stride as int);
            lemma_mul_nonnegative(o as int, self.stride as int);
        }
        let p: usize = o * self.stride + k;
        if p >= self.pad && p - self.pad < self.len {
            Some(p - self.pad)
        } else {
            None
        }
    }
}

/// How many places a window has on a padded axis, if it has one at all.
pub open spec fn places(len: usize, kernel: usize, stride: usize, pad: usize) -> Option<nat> {
    if stride == 0 || len + 2 * pad > usize::MAX || len + 2 * pad < kernel {
        None
    } else {
        Some(((len + 2 * pad - kernel) / (stride as int) + 1) as nat)
    }
}

/// A window over a padded axis, with all the places it has.
pub fn sliding(len: usize, kernel: usize, stride: usize, pad: usize) -> (a: Option<Axis>)
    ensures
        match a {
            Some(x) => places(len, kernel, stride, pad) == Some(x.out as nat) && x == (Axis {
                out: x.out,
                kernel,
                stride,
                pad,
                len,
            }) && x.fits(),
            None => match places(len, kernel, stride, pad) {
                None => true,
                Some(n) => n > usize::MAX,
            },
        },
{
    if stride == 0 {
        return None;
    }
    let total: usize = match pad.checked_mul(2) {
        Some(d) => match len.checked_add(d) {
            Some(t) => t,
            None => {
                return None;
            },
        },
        None => {
            return None;
        },
    };
    if total < kernel {
        return None;
    }
    let steps: usize = (total - kernel) / stride;
    proof {
        lemma_fundamental_div_mod((total - kernel) as int, stride as int);
        lemma_mod_bound((total - kernel) as int, stride as int);
        lemma_mul_is_commutative(stride as int, steps as int);
    }
    match steps.checked_add(1) {
        Some(out) => Some(Axis { out, kernel, stride, pad, len }),
        None => None,
    }
}

/// Whether a window with the given places stays within the machine numbers.
pub fn check_axis(a: &Axis) -> (ok: bool)
    ensures
        ok == a.fits(),
{
    if a.out == 0 {
        return true;
    }
    match (a.out - 1).checked_mul(a.stride) {
        Some(p) => p.checked_add(a.kernel).is_some(),
        None => {
            proof {
                lemma_mul_nonnegative((a.out - 1) as int, a.stride as int);
            }
            false
        },
    }
}

/// The position of element (`b`, `c`, `h`, `w`) of a batch of images.
pub open spec fn image_position(
    channels: int,
    height: int,
    width: int,
    b: int,
    c: int,
    h: int,
    w: int,
) -> int {
    b * (channels * (height * width)) + (c * (height * width) + (h * width + w))
}

/// An element of a batch of images has its place in the data.
pub proof fn lemma_image_position(
    batch: int,
    channels: int,
    height: int,
    width: int,
    b: int,
    c: int,
    h: int,
    w: int,
)
    requires
        0 <= b < batch,
        0 <= c < channels,
        0 <= h < height,
        0 <= w < width,
    ensures
        0 <= image_position(channels, height, width, b, c, h, w) < batch * (channels * (height
            * width)),
        0 <= h * width + w < height * width,
        0 <= c * (height * width) + (h * width + w) < channels * (height * width),
        0 <= h * width,
        0 <= c * (height * width),
        0 <= b * (channels * (height * width)),
{
    lemma_row_major(h, w, height, width);
    lemma_row_major(c, h * width + w, channels, height * width);
    lemma_row_major(
        b,
        c * (height * width) + (h * width + w),
        batch,
        channels * (height * width),
    );
    lemma_mul_nonnegative(h, width);
    lemma_mul_nonnegative(c, height * width);
    lemma_mul_nonnegative(b, channels * (height * width));
}

/// The image of element `i`, counted through the batch and the channels.
pub open spec fn plane_of(height: int, width: int, i: int) -> int {
    i / (height * width)
}

/// The row of element `i`.
pub open spec fn row_of(height: int, width: int, i: int) -> int {
    (i % (height * width)) / width
}

/// The column of element `i`.
pub open spec fn column_of(height: int, width: int, i: int) -> int {
    (i % (height * width)) % width
}

/// The parts of a position in a batch of images are in range.
pub proof fn lemma_image_parts(batch: int, channels: int, height: int, width: int, i: int)
    requires
        0 <= batch,
        0 <= channels,
        0 <= height,
        0 <= width,
        0 <= i < batch * (channels * (height * width)),
    ensures
        0 < channels,
        0 < height,
        0 < width,
        0 < height * width,
        0 <= plane_of(height, width, i) < batch * channels,
        0 <= plane_of(height, width, i) / channels < batch,
        0 <= plane_of(height, width, i) % channels < channels,
        0 <= row_of(height, width, i) < height,
        0 <= column_of(height, width, i) < width,
{
    let hw = height * width;
    assert(batch * (channels * hw) == (batch * channels) * hw) by (nonlinear_arith);
    assert(hw >= 0) by (nonlinear_arith)
        requires
            0 <= height,
            0 <= width,
            hw == height * width,
    ;
    assert(batch * channels >= 0) by (nonlinear_arith)
        requires
            0 <= batch,
            0 <= channels,
    ;
    lemma_split(i, batch * channels, hw);
    lemma_split(i % hw, height, width);
    lemma_split(i / hw, batch, channels);
    assert(height > 0) by (nonlinear_arith)
        requires
            0 < hw,
            hw == height * width,
            0 <= height,
            0 <= width,
    ;
}

} // verus!
