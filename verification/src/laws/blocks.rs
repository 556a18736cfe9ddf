//! What a block of packed weights holds.

use crate::exact::{exact, is_finite, lemma_finite, real_of, Exact, Value};
use crate::float::{bits, times, Fx};
use crate::llama::quant::{block_weights, lane_scale, law_six_bits_range, six_bits};
use vstd::arithmetic::div_mod::*;
use vstd::prelude::*;

verus! {

/// Weight `e` of a block before it is moved down.
pub open spec fn raw(data: Seq<u8>, p: int, e: int) -> int {
    six_bits(data, p, e) + 32
}

/// Every bit of a block of packed weights stands in one of them: the low
/// halves of the first bytes are the low bits of the first two lanes of 32
/// weights, the high halves those of the lanes 64 weights on, and the bytes
/// behind them hold the two high bits of all four lanes, the first lane
/// lowest.
pub proof fn law_packed_bytes_are_rebuilt(data: Seq<u8>, p: int, half: int, j: int)
    requires
        0 <= half < 2,
        0 <= j < 64,
    ensures
        data[p + half * 64 + j] == raw(data, p, half * 128 + j) % 16 + 16 * (raw(
            data,
            p,
            half * 128 + 64 + j,
        ) % 16),
        j < 32 ==> data[p + 128 + half * 32 + j] == raw(data, p, half * 128 + j) / 16 + 4 * (raw(
            data,
            p,
            half * 128 + 32 + j,
        ) / 16) + 16 * (raw(data, p, half * 128 + 64 + j) / 16) + 64 * (raw(
            data,
            p,
            half * 128 + 96 + j,
        ) / 16),
{
    let (lane, l) = (j / 32, j % 32);
    let a = data[p + half * 64 + j] as int;
    let h = data[p + 128 + half * 32 + l] as int;
    lemma_raw(data, p, half, lane, l);
    lemma_raw(data, p, half, lane + 2, l);
    lemma_nibbles(a);
    lemma_pairs(h);
    if j < 32 {
        lemma_raw(data, p, half, 1, l);
        lemma_raw(data, p, half, 3, l);
    }
}

/// A byte is its two halves.
proof fn lemma_nibbles(a: int)
    requires
        0 <= a < 256,
    ensures
        a == a % 16 + 16 * (a / 16),
        0 <= a % 16 < 16,
        0 <= a / 16 < 16,
{
}

/// A byte is its four pairs of bits.
proof fn lemma_pairs(h: int)
    requires
        0 <= h < 256,
    ensures
        h == h % 4 + 4 * ((h / 4) % 4) + 16 * ((h / 16) % 4) + 64 * (h / 64),
        0 <= h % 4 < 4,
        0 <= (h / 4) % 4 < 4,
        0 <= (h / 16) % 4 < 4,
        0 <= h / 64 < 4,
{
    lemma_div_denominator(h, 4, 4);
    lemma_div_denominator(h, 16, 4);
    let k = h / 4;
    let q = h / 16;
    lemma_fundamental_div_mod(h, 4);
    lemma_fundamental_div_mod(k, 4);
    lemma_fundamental_div_mod(q, 4);
    lemma_mod_bound(h, 4);
    lemma_mod_bound(k, 4);
    lemma_mod_bound(q, 4);
}

/// The bits of number `l` of a lane.
proof fn lemma_raw(data: Seq<u8>, p: int, half: int, lane: int, l: int)
    requires
        0 <= half < 2,
        0 <= lane < 4,
        0 <= l < 32,
    ensures
        ({
            let a = data[p + half * 64 + (lane % 2) * 32 + l] as int;
            let h = data[p + 128 + half * 32 + l] as int;
            let low = if lane < 2 {
                a % 16
            } else {
                a / 16
            };
            let high = if lane == 0 {
                h % 4
            } else if lane == 1 {
                (h / 4) % 4
            } else if lane == 2 {
                (h / 16) % 4
            } else {
                h / 64
            };
            let r = raw(data, p, half * 128 + lane * 32 + l);
            &&& r % 16 == low
            &&& r / 16 == high
        }),
{
    let e = half * 128 + lane * 32 + l;
    assert(e / 128 == half);
    assert((e % 128) / 32 == lane);
    assert(e % 32 == l);
    let i = p + half * 64 + (lane % 2) * 32 + l;
    let a = data[i] as int;
    let h = data[p + 128 + half * 32 + l] as int;
    lemma_nibbles(a);
    lemma_pairs(h);
    assert(p + half * 64 + l + (if lane % 2 == 1 {
        32int
    } else {
        0
    }) == i);
}

/// Sixteen weights in a row share a scale, in the order of the weights: a
/// weight is the scale of the block times the byte of its sixteen, read as a
/// number with sign, times its six bits moved down by half their range.
pub proof fn law_sixteen_weights_share_a_scale(
    m: Exact,
    data: Seq<u8>,
    p: int,
    d: u32,
    e: int,
)
    requires
        0 <= e < 256,
        is_finite(d),
    ensures
        ({
            let b = data[p + 192 + e / 16];
            let s = if b < 128 {
                b as int
            } else {
                b - 256
            };
            exact(m, block_weights(data, p, d)[e]) == Value::Num(
                (real_of(d) * (s as real)) * ((raw(data, p, e) - 32) as real),
            )
        }),
{
    law_six_bits_range(data, p, e);
    assert(e / 128 * 8 + (e % 32) / 16 + 2 * ((e % 128) / 32) == e / 16);
    lemma_finite(m, d);
    let (s, q) = (lane_scale(data, p, e), six_bits(data, p, e));
    let (es, eq) = (Fx::Whole(s as i32), Fx::Whole(q as i32));
    assert(exact(m, es) == Value::Num(s as real) && exact(m, eq) == Value::Num(q as real));
    let e1 = times(bits(d), es);
    assert(exact(m, e1) == Value::Num(real_of(d) * (s as real)));
    assert(exact(m, times(e1, eq)) == Value::Num((real_of(d) * (s as real)) * (q as real)));
    assert(block_weights(data, p, d)[e] == times(e1, eq));
}

} // verus!
