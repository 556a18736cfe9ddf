//! Blocks of weights that are stored with six bits each.

use crate::float::{
    bits, computes, computes_all, do_count, do_from_half, do_over, do_times, do_whole, infinite,
    is_infinite, is_nan, nan, over, times, Float, Fx,
};
use vstd::prelude::*;

verus! {

/// How many weights a block holds.
pub const Q6K_BLOCK_SIZE: usize = 256;

/// How many bytes a block takes.
pub const Q6K_BLOCK_BYTES: usize = 210;

/// The bits of `65536.0`.
pub const TWO_TO_SIXTEEN: u32 = 0x4780_0000;

/// The half-precision number in two bytes, the low one first.
pub open spec fn half_bits(lo: u8, hi: u8) -> u16 {
    (lo + 256 * hi) as u16
}

/// The scale of a block: a half-precision number, or its bits over 65536 where
/// it is infinite or not a number.
pub open spec fn scales<F: Float>(f: F, h: u16, d: u32) -> bool {
    exists|x: u32| #[trigger]
        computes(f, Fx::FromHalf(h), x) && if is_nan(x) || is_infinite(x) {
            computes(f, over(Fx::Count(h as usize), bits(TWO_TO_SIXTEEN)), d)
        } else {
            d == x
        }
}

/// The scale of a block.
pub fn decode_d<F: Float>(f: &F, lo: u8, hi: u8) -> (d: u32)
    ensures
        scales(*f, half_bits(lo, hi), d),
{
    let h: u16 = lo as u16 + 256 * (hi as u16);
    let x: u32 = do_from_half(f, h);
    if nan(x) || infinite(x) {
        let c: u32 = do_count(f, h as usize);
        do_over(f, c, TWO_TO_SIXTEEN, Ghost(Fx::Count(h as usize)), Ghost(bits(TWO_TO_SIXTEEN)))
    } else {
        x
    }
}

/// The value of a byte as a signed number.
pub open spec fn signed(b: u8) -> int {
    if b < 128 {
        b as int
    } else {
        b - 256
    }
}

/// Weight `e` of the block at place `p`: six bits, moved down by 32.
///
/// A block has two halves of four lanes of 32 weights. The low four bits of
/// lanes 0 and 1 stand in the low halves of 64 bytes, those of lanes 2 and 3 in
/// the high halves. The two high bits of all four lanes share a byte.
pub open spec fn six_bits(data: Seq<u8>, p: int, e: int) -> int {
    let half = e / 128;
    let lane = (e % 128) / 32;
    let l = e % 32;
    let a = data[p + half * 64 + l + (if lane % 2 == 1 {
        32int
    } else {
        0
    })] as int;
    let h = data[p + 128 + half * 32 + l] as int;
    let low = if lane < 2 {
        a % 16
    } else {
        a / 16
    };
    let high = if lane == 0 {
        h % 4
    } else if lane == 1 {
        (h / 4) % 4
    } else if lane == 2 {
        (h / 16) % 4
    } else {
        h / 64
    };
    low + 16 * high - 32
}

/// The signed scale of weight `e`; sixteen weights share one.
pub open spec fn lane_scale(data: Seq<u8>, p: int, e: int) -> int {
    let half = e / 128;
    let lane = (e % 128) / 32;
    signed(data[p + 192 + half * 8 + (e % 32) / 16 + 2 * lane])
}

/// The weights of the block at place `p` for the scale `d`.
pub open spec fn block_weights(data: Seq<u8>, p: int, d: u32) -> Seq<Fx> {
    Seq::new(
        Q6K_BLOCK_SIZE as nat,
        |e: int|
            times(
                times(bits(d), Fx::Whole(lane_scale(data, p, e) as i32)),
                Fx::Whole(six_bits(data, p, e) as i32),
            ),
    )
}

/// The weights of the block that begins at byte `bo`.
pub fn dequant_q6k_one_block<F: Float>(f: &F, data: &Vec<u8>, bo: usize) -> (out: Vec<u32>)
    requires
        bo + Q6K_BLOCK_BYTES <= data@.len(),
    ensures
        exists|d: u32| #[trigger]
            scales(*f, half_bits(data@[bo + 208], data@[bo + 209]), d) && computes_all(
                *f,
                block_weights(data@, bo as int, d),
                out@,
            ),
{
    let size: usize = data.len();
    let d: u32 = decode_d(f, data[bo + 208], data[bo + 209]);
    let ghost want = block_weights(data@, bo as int, d);
    let mut out: Vec<u32> = Vec::new();
    for e in 0..Q6K_BLOCK_SIZE
        invariant
            size == data@.len(),
            bo + Q6K_BLOCK_BYTES <= size,
            want == block_weights(data@, bo as int, d),
            out@.len() == e,
            forall|j: int| 0 <= j < e ==> computes(*f, want[j], #[trigger] out@[j]),
    {
        let half: usize = e / 128;
        let lane: usize = (e % 128) / 32;
        let l: usize = e % 32;
        let shift: usize = if lane % 2 == 1 {
            32
        } else {
            0
        };
        let a: i32 = data[bo + half * 64 + l + shift] as i32;
        let h: i32 = data[bo + 128 + half * 32 + l] as i32;
        let low: i32 = if lane < 2 {
            a % 16
        } else {
            a / 16
        };
        let high: i32 = if lane == 0 {
            h % 4
        } else if lane == 1 {
            (h / 4) % 4
        } else if lane == 2 {
            (h / 16) % 4
        } else {
            h / 64
        };
        let q: i32 = low + 16 * high - 32;
        let b: i32 = data[bo + 192 + half * 8 + l / 16 + 2 * lane] as i32;
        let s: i32 = if b < 128 {
            b
        } else {
            b - 256
        };
        proof {
            assert(q == six_bits(data@, bo as int, e as int));
            assert(s == lane_scale(data@, bo as int, e as int));
        }
        let fs: u32 = do_whole(f, s);
        let fq: u32 = do_whole(f, q);
        let ds: u32 = do_times(f, d, fs, Ghost(bits(d)), Ghost(Fx::Whole(s)));
        out.push(do_times(f, ds, fq, Ghost(times(bits(d), Fx::Whole(s))), Ghost(Fx::Whole(q))));
    }
    out
}

/// A weight is one of 64 values.
pub proof fn law_six_bits_range(data: Seq<u8>, p: int, e: int)
    requires
        0 <= e < Q6K_BLOCK_SIZE,
    ensures
        -32 <= six_bits(data, p, e) < 32,
        -128 <= lane_scale(data, p, e) < 128,
{
}

} // verus!
