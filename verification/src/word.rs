//! Rank and select inside one 64-bit word.

use vstd::prelude::*;
use crate::counting::{
    count, is_select0, is_select1, lemma_complement, lemma_count_agree, lemma_count_bounds,
    lemma_count_mono, lemma_count_none,
};

verus! {

/// The lowest bit of every byte.
const L8: u64 = 0x0101_0101_0101_0101;

/// The highest bit of every byte.
const H8: u64 = 0x8080_8080_8080_8080;

/// Bit `i` of `x` is set.
pub open spec fn bit(x: u64, i: int) -> bool {
    0 <= i < 64 && (x >> (i as u64)) & 1 == 1
}

/// The positions of the set bits of `x`.
pub open spec fn bits_of(x: u64) -> Set<int> {
    Set::new(|i: int| bit(x, i))
}

/// Number of set bits of `x` below position `i`.
pub open spec fn ones_below(x: u64, i: int) -> nat {
    count(bits_of(x), i)
}

/// Number of set bits of `x`.
pub open spec fn ones(x: u64) -> nat {
    ones_below(x, 64)
}

/// Byte `k` of `x`, counted from the least significant one.
pub open spec fn lane(x: u64, k: u64) -> u64 {
    (x >> (8 * k) as u64) & 0xFF
}

/// Number of set bits in byte `k` of `x`, written out bit by bit.
spec fn byte_sum(x: u64, k: u64) -> u64 {
    (((x >> (8 * k) as u64) & 1) + ((x >> (8 * k + 1) as u64) & 1) + ((x >> (8 * k + 2) as u64) & 1)
        + ((x >> (8 * k + 3) as u64) & 1) + ((x >> (8 * k + 4) as u64) & 1) + ((x >> (8 * k + 5) as u64) & 1)
        + ((x >> (8 * k + 6) as u64) & 1) + ((x >> (8 * k + 7) as u64) & 1)) as u64
}

/// Every pair of bits of the result holds the number of set bits in that pair of `x`.
spec fn pair_counts(x: u64) -> u64 {
    (x - ((x & 0xAAAA_AAAA_AAAA_AAAA) >> 1)) as u64
}

/// Every four bits of the result hold the number of set bits in those four bits of `x`.
spec fn nibble_counts(x: u64) -> u64 {
    let s0 = pair_counts(x);
    ((s0 & 0x3333_3333_3333_3333) + ((s0 >> 2) & 0x3333_3333_3333_3333)) as u64
}

/// Every byte of the result holds the number of set bits in that byte of `x`.
spec fn byte_counts(x: u64) -> u64 {
    let s1 = nibble_counts(x);
    ((s1 + (s1 >> 4)) as u64) & 0x0f0f_0f0f_0f0f_0f0f
}

/// The steps that count the bits of each byte neither underflow nor
/// overflow, and each count fits in the lower half of its byte.
proof fn lemma_byte_counts_safe(x: u64)
    by (bit_vector)
    ensures
        x >= ((x & 0xAAAA_AAAA_AAAA_AAAA) >> 1),
        (pair_counts(x) & 0x3333_3333_3333_3333) + ((pair_counts(x) >> 2) & 0x3333_3333_3333_3333) <= 0xFFFF_FFFF_FFFF_FFFF,
        nibble_counts(x) + (nibble_counts(x) >> 4) <= 0xFFFF_FFFF_FFFF_FFFF,
        byte_counts(x) & 0xF0F0_F0F0_F0F0_F0F0 == 0,
{
}

/// Byte `k` of [`byte_counts`] is the number of set bits in byte `k`.
proof fn lemma_byte_counts(x: u64, k: u64)
    by (bit_vector)
    requires
        k < 8,
    ensures
        lane(byte_counts(x), k) == byte_sum(x, k),
{
}

/// The set bits of byte `k` are the set bits between positions `8 * k`
/// and `8 * k + 8`.
proof fn lemma_byte_sum(x: u64, k: u64)
    requires
        k < 8,
    ensures
        byte_sum(x, k) == ones_below(x, 8 * k + 8) - ones_below(x, 8 * k),
{
    let s = bits_of(x);
    let b = 8 * k as int;
    reveal_with_fuel(count, 9);
    assert(s.contains(b) == bit(x, b));
    assert(s.contains(b + 1) == bit(x, b + 1));
    assert(s.contains(b + 2) == bit(x, b + 2));
    assert(s.contains(b + 3) == bit(x, b + 3));
    assert(s.contains(b + 4) == bit(x, b + 4));
    assert(s.contains(b + 5) == bit(x, b + 5));
    assert(s.contains(b + 6) == bit(x, b + 6));
    assert(s.contains(b + 7) == bit(x, b + 7));
    lemma_bit_values(x);
}

/// One more position adds one to the count where its bit is set.
proof fn lemma_ones_step(x: u64, i: int)
    requires
        0 <= i,
    ensures
        ones_below(x, i + 1) == ones_below(x, i) + if bit(x, i) { 1nat } else { 0nat },
{
}

/// A bit is 0 or 1.
proof fn lemma_bit_values(x: u64)
    ensures
        forall|i: u64| i < 64 ==> #[trigger] (x >> i) & 1 == 0 || (x >> i) & 1 == 1,
{
    assert forall|i: u64| i < 64 implies #[trigger] (x >> i) & 1 == 0 || (x >> i) & 1 == 1 by {
        assert((x >> i) & 1 == 0 || (x >> i) & 1 == 1) by (bit_vector);
    }
}

/// Multiplying by `L8` adds up the bytes: byte `k` of the product is the
/// sum of the bytes `0` to `k`, as long as no sum leaves its byte.
proof fn lemma_lane_prefix(t: u64)
    by (bit_vector)
    requires
        t & 0xF0F0_F0F0_F0F0_F0F0 == 0,
    ensures
        ({
            let s = vstd::wrapping::u64_specs::wrapping_mul(t, 0x0101_0101_0101_0101);
            &&& lane(s, 0) == lane(t, 0)
            &&& lane(s, 1) == lane(s, 0) + lane(t, 1)
            &&& lane(s, 2) == lane(s, 1) + lane(t, 2)
            &&& lane(s, 3) == lane(s, 2) + lane(t, 3)
            &&& lane(s, 4) == lane(s, 3) + lane(t, 4)
            &&& lane(s, 5) == lane(s, 4) + lane(t, 5)
            &&& lane(s, 6) == lane(s, 5) + lane(t, 6)
            &&& lane(s, 7) == lane(s, 6) + lane(t, 7)
            &&& s >> 56 == lane(s, 7)
        }),
{
}

/// The bytes of `byte_counts(x) * L8` hold the running totals of set bits.
proof fn lemma_prefix_counts(x: u64)
    ensures
        forall|k: u64|
            k < 8 ==> #[trigger] lane(
                vstd::wrapping::u64_specs::wrapping_mul(byte_counts(x), 0x0101_0101_0101_0101),
                k,
            ) == ones_below(x, 8 * k + 8),
{
    let t = byte_counts(x);
    lemma_byte_counts_safe(x);
    lemma_lane_prefix(t);
    lemma_byte_counts(x, 0);
    lemma_byte_counts(x, 1);
    lemma_byte_counts(x, 2);
    lemma_byte_counts(x, 3);
    lemma_byte_counts(x, 4);
    lemma_byte_counts(x, 5);
    lemma_byte_counts(x, 6);
    lemma_byte_counts(x, 7);
    lemma_byte_sum(x, 0);
    lemma_byte_sum(x, 1);
    lemma_byte_sum(x, 2);
    lemma_byte_sum(x, 3);
    lemma_byte_sum(x, 4);
    lemma_byte_sum(x, 5);
    lemma_byte_sum(x, 6);
    lemma_byte_sum(x, 7);
}

/// Number of set bits of `x`, computed on all bytes at once.
pub fn count_ones(x: u64) -> (r: u32)
    ensures
        r == ones(x),
        r <= 64,
{
    proof {
        lemma_byte_counts_safe(x);
    }
    let s0: u64 = x - ((x & 0xAAAA_AAAA_AAAA_AAAA) >> 1);
    let s1: u64 = (s0 & 0x3333_3333_3333_3333) + ((s0 >> 2) & 0x3333_3333_3333_3333);
    let t: u64 = (s1 + (s1 >> 4)) & 0x0f0f_0f0f_0f0f_0f0f;
    let s2: u64 = t.wrapping_mul(L8);
    let r: u64 = s2 >> 56;
    proof {
        assert(t == byte_counts(x));
        lemma_lane_prefix(t);
        lemma_prefix_counts(x);
        assert(lane(s2, 7) == ones_below(x, 64));
        lemma_count_bounds(bits_of(x), 64);
    }
    r as u32
}

/// What [`le8`] decides for one pair of bytes: `a <= b` where the top bits
/// of the two agree, and the order of their low seven bits reversed where
/// they differ.
pub open spec fn le8_lane(a: u64, b: u64) -> bool {
    if (a < 128) == (b < 128) {
        a <= b
    } else {
        b % 128 < a % 128
    }
}

/// What [`lt8`] decides for one pair of bytes: `a < b` where the top bits of
/// the two agree, and the order of their low seven bits reversed where they
/// differ.
pub open spec fn lt8_lane(a: u64, b: u64) -> bool {
    if (a < 128) == (b < 128) {
        a < b
    } else {
        b % 128 <= a % 128
    }
}

/// What the formula of [`le8`] gives in byte `k`.
proof fn lemma_le8(x: u64, y: u64, k: u64)
    by (bit_vector)
    requires
        k < 8,
    ensures
        (y | 0x8080_8080_8080_8080) >= (x & !0x8080_8080_8080_8080u64),
        ({
            let xs = ((y | 0x8080_8080_8080_8080) - (x & !0x8080_8080_8080_8080u64)) as u64;
            let r = (xs ^ x ^ y) & 0x8080_8080_8080_8080;
            &&& r & !0x8080_8080_8080_8080u64 == 0
            &&& lane(r, k) == if le8_lane(lane(x, k), lane(y, k)) { 0x80u64 } else { 0u64 }
        }),
{
}

/// What the formula of [`lt8`] gives in byte `k`.
proof fn lemma_lt8(x: u64, y: u64, k: u64)
    by (bit_vector)
    requires
        k < 8,
    ensures
        (x | 0x8080_8080_8080_8080) >= (y & !0x8080_8080_8080_8080u64),
        ({
            let xs = ((x | 0x8080_8080_8080_8080) - (y & !0x8080_8080_8080_8080u64)) as u64;
            let r = (xs ^ x ^ !y) & 0x8080_8080_8080_8080;
            &&& r & !0x8080_8080_8080_8080u64 == 0
            &&& lane(r, k) == if lt8_lane(lane(x, k), lane(y, k)) { 0x80u64 } else { 0u64 }
        }),
{
}

/// Compares the eight bytes of `x` with the eight bytes of `y`, all at once.
/// Byte `k` of the result is `0x80` where [`le8_lane`] holds of the two
/// bytes `k`, and zero where it does not.
pub fn le8(x: u64, y: u64) -> (r: u64)
    ensures
        r & !0x8080_8080_8080_8080u64 == 0,
        forall|k: u64|
            k < 8 ==> #[trigger] lane(r, k) == if le8_lane(lane(x, k), lane(y, k)) {
                0x80u64
            } else {
                0u64
            },
{
    proof {
        lemma_le8(x, y, 0);
        assert forall|k: u64| k < 8 implies #[trigger] lane(
            (((y | H8) - (x & !H8)) as u64 ^ x ^ y) & H8,
            k,
        ) == if le8_lane(lane(x, k), lane(y, k)) {
            0x80u64
        } else {
            0u64
        } by {
            lemma_le8(x, y, k);
        }
    }
    let xs: u64 = (y | H8) - (x & !H8);
    (xs ^ x ^ y) & H8
}

/// Compares the eight bytes of `x` with the eight bytes of `y`, all at once.
/// Byte `k` of the result is `0x80` where [`lt8_lane`] holds of the two
/// bytes `k`, and zero where it does not.
pub fn lt8(x: u64, y: u64) -> (r: u64)
    ensures
        r & !0x8080_8080_8080_8080u64 == 0,
        forall|k: u64|
            k < 8 ==> #[trigger] lane(r, k) == if lt8_lane(lane(x, k), lane(y, k)) {
                0x80u64
            } else {
                0u64
            },
{
    proof {
        lemma_lt8(x, y, 0);
        assert forall|k: u64| k < 8 implies #[trigger] lane(
            (((x | H8) - (y & !H8)) as u64 ^ x ^ !y) & H8,
            k,
        ) == if lt8_lane(lane(x, k), lane(y, k)) {
            0x80u64
        } else {
            0u64
        } by {
            lemma_lt8(x, y, k);
        }
    }
    let xs: u64 = (x | H8) - (y & !H8);
    (xs ^ x ^ !y) & H8
}

/// Bit `k` of byte `k`, for each of the eight bytes.
const SPREAD: u64 = 0x8040_2010_0804_0201;

/// Multiplying a small number by `L8` copies it into every byte.
proof fn lemma_broadcast(w: u64, k: u64)
    by (bit_vector)
    requires
        w < 128,
        k < 8,
    ensures
        w * 0x0101_0101_0101_0101u64 <= 0xFFFF_FFFF_FFFF_FFFFu64,
        lane((w * 0x0101_0101_0101_0101u64) as u64, k) == w,
{
}

/// Shifting the flags of a comparison down by seven bits turns each
/// `0x80` into a 1.
proof fn lemma_flags(f: u64, k: u64)
    by (bit_vector)
    requires
        f & !0x8080_8080_8080_8080u64 == 0,
        k < 8,
    ensures
        (f >> 7) & 0xF0F0_F0F0_F0F0_F0F0 == 0,
        lane(f >> 7, k) == if lane(f, k) == 0x80 { 1u64 } else { 0u64 },
{
}

/// Shifting up by one byte and down by `n` bytes brings byte `n - 1`
/// to the bottom, and zero where `n` is zero.
proof fn lemma_previous_lane(s: u64, n: u64)
    by (bit_vector)
    requires
        n < 8,
    ensures
        ((s << 8) >> (8 * n) as u64) & 0xFF == if n == 0 { 0u64 } else { lane(s, (n - 1) as u64) },
{
}

/// Byte `k` of the spread-out byte `n` of `x` is not zero where bit `k`
/// of that byte is set, and zero where it is not.
proof fn lemma_spread(x: u64, n: u64, k: u64)
    by (bit_vector)
    requires
        n < 8,
        k < 8,
    ensures
        ({
            let b = (x >> (8 * n) as u64) & 0xFF;
            let v = lane(vstd::wrapping::u64_specs::wrapping_mul(b, 0x0101_0101_0101_0101) & 0x8040_2010_0804_0201, k);
            &&& (x >> (8 * n + k) as u64) & 1 == 1 ==> 1 <= v <= 128
            &&& (x >> (8 * n + k) as u64) & 1 != 1 ==> v == 0
        }),
{
}

/// In a non-decreasing sequence of eight numbers, those that do not exceed
/// `r` are the first `n`, where `n` is how many there are of them.
proof fn lemma_first_above(q: Seq<int>, r: int, n: int)
    requires
        q.len() == 8,
        q[0] <= q[1] <= q[2] <= q[3],
        q[3] <= q[4] <= q[5] <= q[6],
        q[6] <= q[7],
        n == (if q[0] <= r { 1int } else { 0 }) + (if q[1] <= r { 1int } else { 0 }) + (if q[2] <= r { 1int } else { 0 })
            + (if q[3] <= r { 1int } else { 0 }) + (if q[4] <= r { 1int } else { 0 }) + (if q[5] <= r { 1int } else { 0 })
            + (if q[6] <= r { 1int } else { 0 }) + (if q[7] <= r { 1int } else { 0 }),
    ensures
        0 <= n <= 8,
        forall|k: int| 0 <= k < 8 ==> ((#[trigger] q[k] <= r) <==> k < n),
{
}

/// How many of the bytes of `f`, each of which is `0x80` or zero, are `0x80`.
fn count_flags(f: u64) -> (n: u64)
    requires
        f & !0x8080_8080_8080_8080u64 == 0,
    ensures
        n == (if lane(f, 0) == 0x80 { 1int } else { 0 }) + (if lane(f, 1) == 0x80 { 1int } else { 0 }) + (if lane(f, 2) == 0x80 { 1int } else { 0 })
            + (if lane(f, 3) == 0x80 { 1int } else { 0 }) + (if lane(f, 4) == 0x80 { 1int } else { 0 }) + (if lane(f, 5) == 0x80 { 1int } else { 0 })
            + (if lane(f, 6) == 0x80 { 1int } else { 0 }) + (if lane(f, 7) == 0x80 { 1int } else { 0 }),
{
    proof {
        lemma_flags(f, 0);
        lemma_flags(f, 1);
        lemma_flags(f, 2);
        lemma_flags(f, 3);
        lemma_flags(f, 4);
        lemma_flags(f, 5);
        lemma_flags(f, 6);
        lemma_flags(f, 7);
        lemma_lane_prefix(f >> 7);
    }
    (f >> 7).wrapping_mul(L8) >> 56
}

/// The running totals of set bits of `x`, one per byte: byte `k` of the
/// result is the number of set bits of `x` in its bytes `0` to `k`.
fn byte_totals(x: u64) -> (s: u64)
    ensures
        forall|k: u64| k < 8 ==> #[trigger] lane(s, k) == ones_below(x, 8 * k + 8),
{
    proof {
        lemma_byte_counts_safe(x);
        lemma_prefix_counts(x);
    }
    let s0: u64 = x - ((x & 0xAAAA_AAAA_AAAA_AAAA) >> 1);
    let s1: u64 = (s0 & 0x3333_3333_3333_3333) + ((s0 >> 2) & 0x3333_3333_3333_3333);
    let t: u64 = (s1 + (s1 >> 4)) & 0x0f0f_0f0f_0f0f_0f0f;
    assert(t == byte_counts(x));
    t.wrapping_mul(L8)
}

/// The flags that [`lt8`] gives for the spread-out byte `n` of `x` mark
/// the set bits of that byte.
proof fn lemma_bit_flags(x: u64, n: u64, g: u64)
    requires
        n < 8,
        forall|k: u64|
            k < 8 ==> #[trigger] lane(g, k) == if lt8_lane(
                lane(0, k),
                lane(vstd::wrapping::u64_specs::wrapping_mul((x >> (8 * n) as u64) & 0xFF, L8) & SPREAD, k),
            ) {
                0x80u64
            } else {
                0u64
            },
    ensures
        forall|k: u64| k < 8 ==> (#[trigger] lane(g, k) == 0x80 <==> bit(x, 8 * n + k)),
{
    assert forall|k: u64| k < 8 implies (#[trigger] lane(g, k) == 0x80 <==> bit(x, 8 * n + k)) by {
        lemma_spread(x, n, k);
        assert(k < 8 ==> lane(0, k) == 0) by (bit_vector);
    }
}

/// Adding up the flags of the bits of byte `n` gives the running totals
/// of set bits inside that byte.
proof fn lemma_flag_totals(x: u64, n: u64, g: u64)
    requires
        n < 8,
        g & !0x8080_8080_8080_8080u64 == 0,
        forall|k: u64| k < 8 ==> (#[trigger] lane(g, k) == 0x80 <==> bit(x, 8 * n + k)),
    ensures
        (g >> 7) & 0xF0F0_F0F0_F0F0_F0F0 == 0,
        forall|k: u64|
            k < 8 ==> #[trigger] lane(vstd::wrapping::u64_specs::wrapping_mul(g >> 7, L8), k) == ones_below(
                x,
                8 * n + k + 1,
            ) - ones_below(x, 8 * n as int),
{
    let s = vstd::wrapping::u64_specs::wrapping_mul(g >> 7, L8);
    let p = 8 * n as int;
    lemma_flags(g, 0);
    lemma_flags(g, 1);
    lemma_flags(g, 2);
    lemma_flags(g, 3);
    lemma_flags(g, 4);
    lemma_flags(g, 5);
    lemma_flags(g, 6);
    lemma_flags(g, 7);
    lemma_lane_prefix(g >> 7);
    lemma_ones_step(x, p + 0);
    lemma_ones_step(x, p + 1);
    lemma_ones_step(x, p + 2);
    lemma_ones_step(x, p + 3);
    lemma_ones_step(x, p + 4);
    lemma_ones_step(x, p + 5);
    lemma_ones_step(x, p + 6);
    lemma_ones_step(x, p + 7);
    assert(lane(s, 0) == ones_below(x, p + 1) - ones_below(x, p)) by {
        assert(lane(g, 0) == 0x80 <==> bit(x, 8 * n + 0));
    }
    assert(lane(s, 1) == ones_below(x, p + 2) - ones_below(x, p)) by {
        assert(lane(g, 1) == 0x80 <==> bit(x, 8 * n + 1));
    }
    assert(lane(s, 2) == ones_below(x, p + 3) - ones_below(x, p)) by {
        assert(lane(g, 2) == 0x80 <==> bit(x, 8 * n + 2));
    }
    assert(lane(s, 3) == ones_below(x, p + 4) - ones_below(x, p)) by {
        assert(lane(g, 3) == 0x80 <==> bit(x, 8 * n + 3));
    }
    assert(lane(s, 4) == ones_below(x, p + 5) - ones_below(x, p)) by {
        assert(lane(g, 4) == 0x80 <==> bit(x, 8 * n + 4));
    }
    assert(lane(s, 5) == ones_below(x, p + 6) - ones_below(x, p)) by {
        assert(lane(g, 5) == 0x80 <==> bit(x, 8 * n + 5));
    }
    assert(lane(s, 6) == ones_below(x, p + 7) - ones_below(x, p)) by {
        assert(lane(g, 6) == 0x80 <==> bit(x, 8 * n + 6));
    }
    assert(lane(s, 7) == ones_below(x, p + 8) - ones_below(x, p)) by {
        assert(lane(g, 7) == 0x80 <==> bit(x, 8 * n + 7));
    }
    assert forall|k: u64| k < 8 implies #[trigger] lane(s, k) == ones_below(x, 8 * n + k + 1) - ones_below(
        x,
        8 * n as int,
    ) by {
        assert(k == 0 || k == 1 || k == 2 || k == 3 || k == 4 || k == 5 || k == 6 || k == 7);
    }
}

/// The running totals of the set bits inside byte `n` of `x`: byte `k` of
/// the result is the number of set bits among the bits `0` to `k` of that byte.
fn bit_totals(x: u64, n: u64) -> (s: u64)
    requires
        n < 8,
    ensures
        forall|k: u64| k < 8 ==> #[trigger] lane(s, k) == ones_below(x, 8 * n + k + 1) - ones_below(x, 8 * n as int),
{
    let base: u64 = n * 8;
    let b: u64 = (x >> base) & 0xFF;
    let spread: u64 = b.wrapping_mul(L8) & SPREAD;
    let g: u64 = lt8(0, spread);
    proof {
        lemma_bit_flags(x, n, g);
        lemma_flag_totals(x, n, g);
    }
    (g >> 7).wrapping_mul(L8)
}

/// How many of the bytes of `s` do not exceed `r`. The bytes of `s` do not
/// decrease from one to the next, so these are its first bytes.
fn first_above(s: u64, r: u64) -> (n: u64)
    requires
        r < 128,
        forall|k: u64| k < 8 ==> #[trigger] lane(s, k) < 128,
        forall|j: u64, k: u64| j <= k < 8 ==> lane(s, j) <= lane(s, k),
    ensures
        n <= 8,
        forall|k: u64| k < 8 ==> ((#[trigger] lane(s, k) <= r) <==> k < n),
{
    proof {
        lemma_broadcast(r, 0);
    }
    let wide: u64 = r * L8;
    let f: u64 = le8(s, wide);
    let n: u64 = count_flags(f);
    proof {
        let q = Seq::new(8, |k: int| lane(s, k as u64) as int);
        assert forall|k: u64| k < 8 implies (lane(f, k) == 0x80 <==> q[k as int] <= r) by {
            lemma_broadcast(r, k);
            assert(lane(wide, k) == r);
            assert(lane(s, k) < 128);
        }
        assert(lane(f, 0) == 0x80 <==> q[0] <= r);
        assert(lane(f, 1) == 0x80 <==> q[1] <= r);
        assert(lane(f, 2) == 0x80 <==> q[2] <= r);
        assert(lane(f, 3) == 0x80 <==> q[3] <= r);
        assert(lane(f, 4) == 0x80 <==> q[4] <= r);
        assert(lane(f, 5) == 0x80 <==> q[5] <= r);
        assert(lane(f, 6) == 0x80 <==> q[6] <= r);
        assert(lane(f, 7) == 0x80 <==> q[7] <= r);
        assert(lane(s, 0) <= lane(s, 1) <= lane(s, 2) <= lane(s, 3));
        assert(lane(s, 3) <= lane(s, 4) <= lane(s, 5) <= lane(s, 6) <= lane(s, 7));
        lemma_first_above(q, r as int, n as int);
        assert forall|k: u64| k < 8 implies ((#[trigger] lane(s, k) <= r) <==> k < n) by {
            assert(q[k as int] == lane(s, k));
        }
    }
    n
}

/// The position of the set bit of `x` that has exactly `c` set bits below
/// it, or nothing where `x` has no more than `c` set bits. The position is
/// found without a loop over the bits.
pub fn select1(x: u64, c: u32) -> (r: Option<u32>)
    ensures
        match r {
            Some(p) => p < 64 && is_select1(bits_of(x), c as int, p as int),
            None => c >= ones(x),
        },
{
    proof {
        lemma_count_bounds(bits_of(x), 64);
    }
    if c >= 64 {
        return None;
    }
    let w: u64 = c as u64;
    let s2: u64 = byte_totals(x);
    proof {
        assert forall|k: u64| k < 8 implies #[trigger] lane(s2, k) < 128 by {
            lemma_count_bounds(bits_of(x), 8 * k + 8);
        }
        assert forall|j: u64, k: u64| j <= k < 8 implies lane(s2, j) <= lane(s2, k) by {
            lemma_count_mono(bits_of(x), 8 * j + 8, 8 * k + 8);
        }
    }
    let nb: u64 = first_above(s2, w);
    if nb >= 8 {
        proof {
            assert(lane(s2, 7) <= w);
        }
        return None;
    }
    let base: u64 = nb * 8;
    let prev: u64 = ((s2 << 8) >> base) & 0xFF;
    proof {
        lemma_previous_lane(s2, nb);
        if nb > 0 {
            assert(lane(s2, (nb - 1) as u64) <= w);
        }
        assert(prev == ones_below(x, base as int));
        assert(!(lane(s2, nb) <= w));
        lemma_count_mono(bits_of(x), base as int, base + 8);
    }
    let rest: u64 = w - prev;
    let s3: u64 = bit_totals(x, nb);
    proof {
        assert forall|k: u64| k < 8 implies #[trigger] lane(s3, k) < 128 by {
            lemma_count_mono(bits_of(x), base as int, base + k + 1);
        }
        assert forall|j: u64, k: u64| j <= k < 8 implies lane(s3, j) <= lane(s3, k) by {
            lemma_count_mono(bits_of(x), base + j + 1, base + k + 1);
        }
    }
    let inside: u64 = first_above(s3, rest);
    proof {
        assert(!(lane(s3, 7) <= rest));
        assert(inside < 8);
        assert(!(lane(s3, inside) <= rest));
        if inside > 0 {
            assert(lane(s3, (inside - 1) as u64) <= rest);
        }
        assert(ones_below(x, base + inside + 1) == ones_below(x, base + inside) + if bits_of(x).contains(base + inside) {
            1nat
        } else {
            0nat
        });
        assert(bits_of(x).contains(base + inside));
        assert(ones_below(x, base + inside) == w);
    }
    Some((base + inside) as u32)
}

/// The position of the clear bit of `x` that has exactly `c` clear bits
/// below it, or nothing where `x` has no more than `c` clear bits.
pub fn select0(x: u64, c: u32) -> (r: Option<u32>)
    ensures
        match r {
            Some(p) => p < 64 && is_select0(bits_of(x), c as int, p as int),
            None => c >= 64 - ones(x),
        },
{
    let r = select1(!x, c);
    proof {
        assert forall|i: int| 0 <= i < 64 implies (bit(!x, i) <==> !bit(x, i)) by {
            let j = i as u64;
            assert(j < 64 ==> (((!x) >> j) & 1 == 1 <==> !((x >> j) & 1 == 1))) by (bit_vector);
        }
        lemma_complement(bits_of(x), bits_of(!x), 64);
        match r {
            Some(p) => {
                lemma_complement(bits_of(x), bits_of(!x), p as int);
            },
            None => {},
        }
    }
    r
}

/// Setting bit `b` adds position `b` and leaves the other bits as they are.
pub proof fn lemma_set_bit(x: u64, b: u64)
    requires
        b < 64,
    ensures
        bits_of(x | (1u64 << b)) == bits_of(x).insert(b as int),
{
    assert forall|i: int| bits_of(x | (1u64 << b)).contains(i) <==> bits_of(x).insert(b as int).contains(i) by {
        if 0 <= i < 64 {
            let j = i as u64;
            assert(j < 64 && b < 64 ==> ((((x | (1u64 << b)) >> j) & 1 == 1) <==> (((x >> j) & 1 == 1) || j == b)))
                by (bit_vector);
        }
    }
    assert(bits_of(x | (1u64 << b)) =~= bits_of(x).insert(b as int));
}

/// Clearing bit `b` removes position `b` and leaves the other bits as they are.
pub proof fn lemma_clear_bit(x: u64, b: u64)
    requires
        b < 64,
    ensures
        bits_of(x & !(1u64 << b)) == bits_of(x).remove(b as int),
{
    assert forall|i: int| bits_of(x & !(1u64 << b)).contains(i) <==> bits_of(x).remove(b as int).contains(i) by {
        if 0 <= i < 64 {
            let j = i as u64;
            assert(j < 64 && b < 64 ==> ((((x & !(1u64 << b)) >> j) & 1 == 1) <==> (((x >> j) & 1 == 1) && j != b)))
                by (bit_vector);
        }
    }
    assert(bits_of(x & !(1u64 << b)) =~= bits_of(x).remove(b as int));
}

/// Testing bit `b` with a mask is testing membership of position `b`.
pub proof fn lemma_test_bit(x: u64, b: u64)
    requires
        b < 64,
    ensures
        (x & (1u64 << b) != 0) == bit(x, b as int),
{
    assert(b < 64 ==> ((x & (1u64 << b) != 0) <==> ((x >> b) & 1 == 1))) by (bit_vector);
}

/// The word with the `k` lowest bits set.
pub open spec fn low_mask(k: u64) -> u64 {
    ((1u64 << k) - 1) as u64
}

/// Masking a word with its `k` lowest bits keeps the set bits below `k`,
/// so the masked word has as many set bits as the word has below `k`.
pub proof fn lemma_low_mask(x: u64, k: u64)
    requires
        k < 64,
    ensures
        1u64 << k >= 1,
        ones(x & low_mask(k)) == ones_below(x, k as int),
{
    assert(k < 64 ==> 1u64 << k >= 1) by (bit_vector);
    let y = x & low_mask(k);
    assert forall|i: int| 0 <= i < 64 implies (bit(y, i) <==> (bit(x, i) && i < k)) by {
        let j = i as u64;
        assert(j < 64 && k < 64 ==> ((((x & (((1u64 << k) - 1) as u64)) >> j) & 1 == 1) <==> (((x >> j) & 1 == 1) && j
            < k))) by (bit_vector);
    }
    lemma_count_agree(bits_of(y), bits_of(x), k as int);
    lemma_count_none(bits_of(y), k as int, 64);
}

/// The bits of the bitwise conjunction are the common bits.
pub proof fn lemma_and_bits(x: u64, y: u64)
    ensures
        bits_of(x & y) == bits_of(x).intersect(bits_of(y)),
{
    assert forall|i: int| bits_of(x & y).contains(i) <==> bits_of(x).intersect(bits_of(y)).contains(i) by {
        if 0 <= i < 64 {
            let j = i as u64;
            assert(j < 64 ==> ((((x & y) >> j) & 1 == 1) <==> (((x >> j) & 1 == 1) && ((y >> j) & 1 == 1))))
                by (bit_vector);
        }
    }
    assert(bits_of(x & y) =~= bits_of(x).intersect(bits_of(y)));
}

/// The bits of the bitwise disjunction are the bits of either word.
pub proof fn lemma_or_bits(x: u64, y: u64)
    ensures
        bits_of(x | y) == bits_of(x).union(bits_of(y)),
{
    assert forall|i: int| bits_of(x | y).contains(i) <==> bits_of(x).union(bits_of(y)).contains(i) by {
        if 0 <= i < 64 {
            let j = i as u64;
            assert(j < 64 ==> ((((x | y) >> j) & 1 == 1) <==> (((x >> j) & 1 == 1) || ((y >> j) & 1 == 1))))
                by (bit_vector);
        }
    }
    assert(bits_of(x | y) =~= bits_of(x).union(bits_of(y)));
}

/// The bits of `x & !y` are the bits of `x` that `y` lacks.
pub proof fn lemma_and_not_bits(x: u64, y: u64)
    ensures
        bits_of(x & !y) == bits_of(x).difference(bits_of(y)),
{
    assert forall|i: int| bits_of(x & !y).contains(i) <==> bits_of(x).difference(bits_of(y)).contains(i) by {
        if 0 <= i < 64 {
            let j = i as u64;
            assert(j < 64 ==> ((((x & !y) >> j) & 1 == 1) <==> (((x >> j) & 1 == 1) && !((y >> j) & 1 == 1))))
                by (bit_vector);
        }
    }
    assert(bits_of(x & !y) =~= bits_of(x).difference(bits_of(y)));
}

/// The bits of the bitwise exclusive disjunction are the bits of exactly one word.
pub proof fn lemma_xor_bits(x: u64, y: u64)
    ensures
        forall|i: int| bits_of(x ^ y).contains(i) <==> (bits_of(x).contains(i) != bits_of(y).contains(i)),
{
    assert forall|i: int| bits_of(x ^ y).contains(i) <==> (bits_of(x).contains(i) != bits_of(y).contains(i)) by {
        if 0 <= i < 64 {
            let j = i as u64;
            assert(j < 64 ==> ((((x ^ y) >> j) & 1 == 1) <==> (((x >> j) & 1 == 1) != ((y >> j) & 1 == 1))))
                by (bit_vector);
        }
    }
}

/// The zero word has no bit set.
pub proof fn lemma_zero_bits()
    ensures
        bits_of(0) == Set::<int>::empty(),
{
    assert forall|i: int| !bits_of(0).contains(i) by {
        if 0 <= i < 64 {
            let j = i as u64;
            assert(j < 64 ==> (0u64 >> j) & 1 == 0) by (bit_vector);
        }
    }
    assert(bits_of(0) =~= Set::<int>::empty());
}

/// The bits of `x` at which a run of set bits begins, where `carry` is 1
/// if the bit just below bit 0 is taken as set, and 0 if it is not.
pub open spec fn run_start_bits(x: u64, carry: u64) -> u64 {
    x & !((x << 1) | carry)
}

/// Bit `i` of [`run_start_bits`] is set where bit `i` of `x` is set and the
/// bit below it is not.
pub proof fn lemma_run_start_bits(x: u64, carry: u64, i: int)
    requires
        carry <= 1,
        0 <= i < 64,
    ensures
        bit(run_start_bits(x, carry), i) <==> (bit(x, i) && !(if i == 0 {
            carry == 1
        } else {
            bit(x, i - 1)
        })),
{
    let j = i as u64;
    if i == 0 {
        assert(carry <= 1 ==> ((((x & !((x << 1) | carry)) >> 0) & 1 == 1) <==> (((x >> 0) & 1 == 1) && !(carry == 1))))
            by (bit_vector);
    } else {
        let h = (i - 1) as u64;
        assert(carry <= 1 && 0 < j < 64 && h == j - 1 ==> ((((x & !((x << 1) | carry)) >> j) & 1 == 1) <==> (((x >> j)
            & 1 == 1) && !((x >> h) & 1 == 1)))) by (bit_vector);
    }
}

/// The top bit of a word, as 0 or 1.
pub proof fn lemma_top_bit(x: u64)
    ensures
        x >> 63 <= 1,
        (x >> 63 == 1) == bit(x, 63),
{
    assert(x >> 63 <= 1 && ((x >> 63 == 1) <==> ((x >> 63) & 1 == 1))) by (bit_vector);
}

} // verus!
