//! Deterministic per-path random numbers: a counter hashed by one PCG round,
//! in pure `u32` arithmetic, so that a shader can reproduce every draw bit for
//! bit.
use crate::convert::lemma_encoding;
use crate::convert::scaled;
use crate::scalar::lemma_magnitude_sign;
use crate::scalar::lemma_value_identifies;
use crate::scalar::Scalar;
use crate::scalar::ONE_BITS;
use vstd::arithmetic::power2::lemma2_to64;
use vstd::arithmetic::power2::lemma_pow2_adds;
use vstd::arithmetic::power2::lemma_pow2_pos;
use vstd::arithmetic::power2::pow2;
use vstd::prelude::*;

verus! {

/// The linear step of the hash, modulo 2^32.
pub open spec fn pcg_state(input: u32) -> u32 {
    input.wrapping_mul(747_796_405).wrapping_add(2_891_336_453)
}

/// The hash: linear step, data-dependent xorshift, multiplication, and a final
/// xorshift.
#[verifier::opaque]
pub open spec fn pcg(input: u32) -> u32 {
    let state = pcg_state(input);
    let word = ((state >> ((state >> 28u32).wrapping_add(4))) ^ state).wrapping_mul(277_803_737);
    (word >> 22u32) ^ word
}

/// One round of the PCG hash.
pub fn pcg32(input: u32) -> (r: u32)
    ensures
        r == pcg(input),
{
    reveal(pcg);
    let state: u32 = input.wrapping_mul(747_796_405).wrapping_add(2_891_336_453);
    assert((state >> 28u32) < 16) by (bit_vector);
    let word: u32 = ((state >> ((state >> 28).wrapping_add(4))) ^ state).wrapping_mul(277_803_737);
    (word >> 22) ^ word
}

/// The counter `count` draws further on.
pub open spec fn advanced(counter: u32, count: nat) -> u32 {
    ((counter + count) % 0x1_0000_0000) as u32
}

/// The number that a raw draw stands for, in units of 2^-149: its upper 24
/// bits over 2^24.
pub open spec fn unit_value(draw: u32) -> int {
    (draw / 256) * pow2(125)
}

/// `u` is the number that the raw draw stands for.
pub open spec fn is_unit(u: Scalar, draw: u32) -> bool {
    u.value() == unit_value(draw) && !u.negative() && !u.nan()
}

/// The number that the raw draw stands for.
pub open spec fn unit_draw(draw: u32) -> Scalar {
    choose|u: Scalar| is_unit(u, draw)
}

/// The number that the raw draw stands for is less than `bound`.
pub open spec fn draw_below(draw: u32, bound: Scalar) -> bool {
    !bound.nan() && unit_value(draw) < bound.value()
}

/// The draw number `index`, counted from zero, of the stream for `key` under
/// `seed`.
pub open spec fn stream(key: u32, seed: u32, index: nat) -> u32 {
    pcg(advanced(pcg(key ^ pcg(seed)), index + 1))
}

/// A stream of random numbers, fixed by a key and a seed.
pub struct PathRng {
    state: u32,
}

impl PathRng {
    /// The counter whose successor is hashed for the next draw.
    pub closed spec fn counter(self) -> u32 {
        self.state
    }

    /// `key` identifies the path, `seed` the whole render.
    pub fn new(key: u32, seed: u32) -> (r: Self)
        ensures
            r.counter() == pcg(key ^ pcg(seed)),
    {
        let state: u32 = pcg32(key ^ pcg32(seed));
        PathRng { state }
    }

    /// The next raw draw: advances the counter and hashes it.
    pub fn next_u32(&mut self) -> (r: u32)
        ensures
            final(self).counter() == advanced(old(self).counter(), 1),
            r == pcg(final(self).counter()),
    {
        self.state = self.state.wrapping_add(1);
        pcg32(self.state)
    }

    /// The next draw as a number in `[0, 1)`, from its upper 24 bits.
    pub fn next_f32(&mut self) -> (r: Scalar)
        ensures
            final(self).counter() == advanced(old(self).counter(), 1),
            r == unit_draw(pcg(final(self).counter())),
            is_unit(r, pcg(final(self).counter())),
            0 <= r.value() < pow2(149),
    {
        let draw: u32 = self.next_u32();
        proof {
            lemma_unit_range(draw);
        }
        let r: Scalar = scaled(draw / 256, 125);
        proof {
            lemma_unit_unique(r, unit_draw(draw), draw);
        }
        r
    }
}

/// Mixes two words into one stream key.
pub fn mix2(a: u32, b: u32) -> (r: u32)
    ensures
        r == pcg(a ^ pcg(b)),
{
    pcg32(a ^ pcg32(b))
}

proof fn lemma_unit_range(draw: u32)
    ensures
        0 <= unit_value(draw) < pow2(149),
{
    lemma_pow2_adds(24, 125);
    lemma_pow2_pos(125);
    lemma2_to64();
    let n: int = draw as int / 256;
    let p: int = pow2(125) as int;
    assert(0 <= n * p < 0x100_0000 * p) by (nonlinear_arith)
        requires
            0 <= n < 0x100_0000,
            p > 0,
    ;
}

/// A draw stands for one number only.
pub proof fn lemma_unit_unique(a: Scalar, b: Scalar, draw: u32)
    requires
        is_unit(a, draw),
        is_unit(b, draw),
    ensures
        a == b,
{
    lemma_magnitude_sign(a.unsigned_bits());
    lemma_magnitude_sign(b.unsigned_bits());
    if a.value() != 0 {
        lemma_value_identifies(a, b);
    }
}

/// Every draw is less than one.
pub proof fn lemma_draw_below_one(draw: u32)
    ensures
        0 <= unit_value(draw),
        draw_below(draw, Scalar { bits: ONE_BITS }),
{
    lemma_unit_range(draw);
    lemma_encoding(127, 0x80_0000);
    lemma2_to64();
    lemma_pow2_adds(23, 126);
}

/// Advancing twice is advancing by the sum.
pub proof fn lemma_advanced_adds(counter: u32, first: nat, second: nat)
    ensures
        advanced(advanced(counter, first), second) == advanced(counter, first + second),
{
}

/// Counters that differ still differ after as many draws.
pub proof fn lemma_advanced_injective(a: u32, b: u32, count: nat)
    requires
        advanced(a, count) == advanced(b, count),
    ensures
        a == b,
{
}

/// A product by an odd multiplier determines its other factor: it is
/// multiplied back by the inverse modulo 2^32.
proof fn lemma_odd_product(a: u32, multiplier: u32, inverse: u32)
    requires
        (multiplier * inverse) % 0x1_0000_0000 == 1,
    ensures
        (a.wrapping_mul(multiplier) * inverse) % 0x1_0000_0000 == a,
{
    let n: int = 0x1_0000_0000;
    let am: int = a as int * multiplier as int;
    let mi: int = multiplier as int * inverse as int;
    vstd::arithmetic::div_mod::lemma_mul_mod_noop_left(am, inverse as int, n);
    vstd::arithmetic::div_mod::lemma_mul_mod_noop_right(a as int, mi, n);
    assert(am * inverse as int == a as int * mi) by (nonlinear_arith)
        requires
            am == a as int * multiplier as int,
            mi == multiplier as int * inverse as int,
    ;
}

/// The hash maps different words to different words.
pub proof fn lemma_pcg_injective(a: u32, b: u32)
    requires
        pcg(a) == pcg(b),
    ensures
        a == b,
{
    reveal(pcg);
    let sa: u32 = pcg_state(a);
    let sb: u32 = pcg_state(b);
    let xa: u32 = (sa >> ((sa >> 28u32).wrapping_add(4))) ^ sa;
    let xb: u32 = (sb >> ((sb >> 28u32).wrapping_add(4))) ^ sb;
    let wa: u32 = xa.wrapping_mul(277_803_737);
    let wb: u32 = xb.wrapping_mul(277_803_737);
    assert(wa == wb) by (bit_vector)
        requires
            (wa >> 22u32) ^ wa == (wb >> 22u32) ^ wb,
    ;
    lemma_odd_product(xa, 277_803_737, 2897767785);
    lemma_odd_product(xb, 277_803_737, 2897767785);
    assert(xa == xb);
    assert((sa >> 28u32) < 16 && (sb >> 28u32) < 16) by (bit_vector);
    let ka: u32 = ((sa >> 28u32) + 4) as u32;
    let kb: u32 = ((sb >> 28u32) + 4) as u32;
    assert(sa == sb) by (bit_vector)
        requires
            ka == (sa >> 28u32) + 4,
            kb == (sb >> 28u32) + 4,
            (sa >> ka) ^ sa == (sb >> kb) ^ sb,
    ;
    lemma_odd_product(a, 747_796_405, 3425435293);
    lemma_odd_product(b, 747_796_405, 3425435293);
}

/// Under one seed, the streams of two keys differ at every position.
pub proof fn lemma_streams_differ(first: u32, second: u32, seed: u32, index: nat)
    requires
        first != second,
    ensures
        stream(first, seed, index) != stream(second, seed, index),
{
    let s: u32 = pcg(seed);
    assert(first ^ s != second ^ s) by (bit_vector)
        requires
            first != second,
    ;
    let ca: u32 = pcg(first ^ s);
    let cb: u32 = pcg(second ^ s);
    if ca == cb {
        lemma_pcg_injective(first ^ s, second ^ s);
    }
    let na: u32 = advanced(ca, index + 1);
    let nb: u32 = advanced(cb, index + 1);
    if na == nb {
        lemma_advanced_injective(ca, cb, index + 1);
    }
    if pcg(na) == pcg(nb) {
        lemma_pcg_injective(na, nb);
    }
}

/// Mixing keeps apart what differs in its first word only.
pub proof fn lemma_mix_injective(first: u32, second: u32, b: u32)
    requires
        pcg(first ^ pcg(b)) == pcg(second ^ pcg(b)),
    ensures
        first == second,
{
    let s: u32 = pcg(b);
    lemma_pcg_injective(first ^ s, second ^ s);
    assert(first == second) by (bit_vector)
        requires
            first ^ s == second ^ s,
    ;
}

} // verus!
