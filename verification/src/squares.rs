//! Squares of numbers near one: their rounding is finer than elsewhere.
use crate::arith::absolute;
use crate::arith::lemma_encodings;
use crate::arith::lemma_nearest_exists;
use crate::arith::nearest;
use crate::convert::one;
use crate::error::lemma_nearest_between;
use crate::exact::lemma_one;
use crate::exact::number;
use crate::exact::size;
use crate::order::lemma_one_size;
use crate::order::lemma_rounded_value;
use crate::scalar::lemma_magnitude_increases;
use crate::scalar::lemma_magnitude_sign;
use crate::scalar::magnitude;
use crate::scalar::Scalar;
use crate::scalar::ONE_BITS;
use vstd::arithmetic::power2::lemma2_to64;
use vstd::arithmetic::power2::lemma_pow2_adds;
use vstd::arithmetic::power2::lemma_pow2_pos;
use vstd::arithmetic::power2::lemma_pow2_strictly_increases;
use vstd::arithmetic::power2::lemma_pow2_unfold;
use vstd::arithmetic::power2::pow2;
use vstd::prelude::*;

verus! {

/// A significand of 24 bits at any exponent has an encoding.
pub proof fn lemma_representable(s: int, e: nat) -> (k: int)
    requires
        0 <= s < 0x100_0000,
        e <= 200,
    ensures
        0 <= k < 0x7f80_0000,
        magnitude(k) == s * pow2(e),
    decreases e,
{
    if e == 0 || s >= 0x80_0000 {
        lemma_encodings(s, e);
        e * 0x80_0000 + s
    } else {
        lemma_pow2_unfold(e);
        let h: int = pow2((e - 1) as nat) as int;
        assert(s * (2 * h) == (2 * s) * h) by (nonlinear_arith);
        lemma_representable(2 * s, (e - 1) as nat)
    }
}

/// Below one the distance to the next number is at most 2^-24.
proof fn lemma_spacing_below_one(k: int)
    requires
        0 <= k < ONE_BITS,
    ensures
        magnitude(k + 1) - magnitude(k) <= pow2(125),
{
    lemma_pow2_pos(125);
    if k >= 0x80_0000 {
        let e: nat = (k / 0x80_0000 - 1) as nat;
        let f: int = k % 0x80_0000;
        let p: int = pow2(e) as int;
        lemma_pow2_pos(e);
        if e < 125 {
            lemma_pow2_strictly_increases(e, 125);
        }
        assert(magnitude(k) == (0x80_0000 + f) * p);
        if f == 0x7f_ffff {
            assert((k + 1) % 0x80_0000 == 0 && (k + 1) / 0x80_0000 == k / 0x80_0000 + 1);
            lemma_pow2_unfold(e + 1);
            assert(magnitude(k + 1) == 0x80_0000 * pow2(e + 1));
        } else {
            assert((k + 1) % 0x80_0000 == f + 1 && (k + 1) / 0x80_0000 == k / 0x80_0000);
            assert(magnitude(k + 1) == (0x80_0000 + f + 1) * p);
        }
        assert(magnitude(k + 1) - magnitude(k) == p) by (nonlinear_arith)
            requires
                magnitude(k) == (0x80_0000 + f) * p,
                magnitude(k + 1) == (0x80_0000 + f + 1) * p || (f == 0x7f_ffff && magnitude(k + 1)
                    == 0x80_0000 * (2 * p)),
        ;
    } else {
        lemma2_to64();
        if k + 1 == 0x80_0000 {
            assert(magnitude(k + 1) == 0x80_0000 * pow2(0));
        }
    }
}

/// The nearest number is no farther than any other below.
proof fn lemma_no_farther(num: int, den: int, j: int)
    requires
        den > 0,
        0 <= j < 0x7f80_0000,
        magnitude(j) * den <= num,
        num <= magnitude(ONE_BITS as int) * den,
    ensures
        j <= nearest(num, den) <= ONE_BITS,
        absolute(magnitude(nearest(num, den)) * den - num) <= num - magnitude(j) * den,
{
    let k: int = nearest(num, den);
    if j > ONE_BITS {
        lemma_magnitude_increases(ONE_BITS as int, j);
        assert(magnitude(ONE_BITS as int) * den < magnitude(j) * den) by (nonlinear_arith)
            requires
                magnitude(ONE_BITS as int) < magnitude(j),
                den > 0,
        ;
    }
    lemma_magnitude_sign(j);
    assert(num >= 0) by (nonlinear_arith)
        requires
            magnitude(j) * den <= num,
            magnitude(j) >= 0,
            den > 0,
    ;
    lemma_nearest_between(num, den, j, ONE_BITS as int);
    lemma_nearest_exists(num, den);
    let (mj, mk) = (magnitude(j), magnitude(k));
    assert(mj * den <= mk * den) by (nonlinear_arith)
        requires
            mj <= mk,
            den > 0,
    ;
    if k > j {
        if k - 1 > j {
            lemma_magnitude_increases(j, k - 1);
        }
        let below: int = magnitude(k - 1);
        assert((mj + mk) * den <= (below + mk) * den) by (nonlinear_arith)
            requires
                mj <= below,
                den > 0,
        ;
        assert((mj + mk) * den == mj * den + mk * den) by (nonlinear_arith);
    }
}

/// The rounding of a number below one moves it by 2^-25 at most.
proof fn lemma_half_spacing(num: int, den: int)
    requires
        den > 0,
        0 <= num <= magnitude(ONE_BITS as int) * den,
    ensures
        2 * absolute(magnitude(nearest(num, den)) * den - num) <= pow2(125) * den,
{
    let k: int = nearest(num, den);
    lemma_magnitude_sign(0);
    assert(magnitude(0) * den == 0);
    lemma_nearest_between(num, den, 0, ONE_BITS as int);
    lemma_nearest_exists(num, den);
    lemma_pow2_pos(125);
    let (m, p): (int, int) = (magnitude(k), pow2(125) as int);
    assert(p * den >= 0) by (nonlinear_arith)
        requires
            p >= 0,
            den > 0,
    ;
    if k > 0 {
        lemma_spacing_below_one(k - 1);
        let below: int = magnitude(k - 1);
        assert((below + m) * den >= (m + m) * den - p * den) by (nonlinear_arith)
            requires
                m - below <= p,
                den > 0,
        ;
        assert((m + m) * den == 2 * (m * den)) by (nonlinear_arith);
    }
    if k < ONE_BITS {
        lemma_spacing_below_one(k);
        let above: int = magnitude(k + 1);
        assert((m + above) * den <= (m + m) * den + p * den) by (nonlinear_arith)
            requires
                above - m <= p,
                den > 0,
        ;
        assert((m + m) * den == 2 * (m * den)) by (nonlinear_arith);
    }
}

/// The square of a number between one half and one, in units: rounded, it is off
/// by at most 2^-25, and by at most the square of the number's distance from one.
proof fn lemma_square_units(c: Scalar)
    requires
        c.finite(),
        !c.negative(),
        0x3f00_0000 <= c.unsigned_bits() <= ONE_BITS,
    ensures
        ({
            let (v, q) = (c.value(), c.product(c));
            &&& q.finite() && !q.negative()
            &&& absolute(q.value() * one() - v * v) <= (one() - v) * (one() - v)
            &&& 2 * absolute(q.value() * one() - v * v) <= pow2(125) * one()
        }),
{
    let b: int = c.unsigned_bits();
    let v: int = c.value();
    let p: int = pow2(125) as int;
    lemma2_to64();
    lemma_pow2_pos(125);
    lemma_pow2_pos(149);
    lemma_pow2_adds(24, 125);
    lemma_pow2_unfold(126);
    lemma_one_size();
    // The number is `s` times 2^-24.
    let s: int = if b == ONE_BITS {
        0x100_0000
    } else {
        0x80_0000 + b % 0x80_0000
    };
    assert(v == s * p) by {
        if b == ONE_BITS {
            assert(v == one());
        } else {
            assert(b / 0x80_0000 == 126);
        }
    }
    assert(one() == 0x100_0000 * p);
    assert(0x80_0000 <= s <= 0x100_0000);
    let o: int = one();
    assert(0 <= s * p <= 0x100_0000 * p) by (nonlinear_arith)
        requires
            0 <= s <= 0x100_0000,
            p > 0,
    ;
    let num: int = v * v;
    assert(0 <= num <= o * o) by (nonlinear_arith)
        requires
            num == v * v,
            0 <= v <= o,
    ;
    // Twice the number less one is a number too, and not above the square.
    let t: int = 2 * s - 0x100_0000;
    let j: int = if t == 0x100_0000 {
        ONE_BITS as int
    } else {
        lemma_representable(t, 125)
    };
    assert(magnitude(j) == 2 * v - o) by {
        assert(t * p == 2 * (s * p) - 0x100_0000 * p) by (nonlinear_arith)
            requires
                t == 2 * s - 0x100_0000,
        ;
    }
    let d: int = o - v;
    assert(num - (2 * v - o) * o == d * d) by (nonlinear_arith)
        requires
            num == v * v,
            d == o - v,
    ;
    assert(d * d >= 0) by (nonlinear_arith);
    lemma_no_farther(num, o, j);
    lemma_half_spacing(num, o);
    reveal(Scalar::product);
    lemma_rounded_value(false, num, o);
    lemma_magnitude_sign(b);
}

/// The same as numbers.
pub proof fn lemma_square_near_one(c: Scalar)
    requires
        c.finite(),
        1real / 2real <= number(c) <= 1real,
    ensures
        ({
            let (x, q) = (number(c), c.product(c));
            &&& q.finite()
            &&& size(number(q) - x * x) <= 1real / 33554432real
            &&& size(number(q) - x * x) <= (1real - x) * (1real - x)
        }),
{
    reveal(number);
    lemma_one();
    lemma_one_size();
    lemma_magnitude_sign(c.unsigned_bits());
    let o = one() as real;
    let (v, x) = (c.value() as real, number(c));
    assert(x * o == v) by (nonlinear_arith)
        requires
            x == v / o,
            o > 0real,
    ;
    assert(v <= o && 2real * v >= o) by (nonlinear_arith)
        requires
            x * o == v,
            1real / 2real <= x <= 1real,
            o > 0real,
    ;
    lemma_unit_encodings(c);
    lemma_square_units(c);
    let q = c.product(c);
    let (w, y) = (q.value() as real, number(q));
    assert(y * o == w) by (nonlinear_arith)
        requires
            y == w / o,
            o > 0real,
    ;
    let (vi, wi, oi): (int, int, int) = (c.value(), q.value(), one());
    assert((wi * oi) as real == w * o) by (nonlinear_arith)
        requires
            w == wi as real,
            o == oi as real,
    ;
    assert((vi * vi) as real == v * v) by (nonlinear_arith)
        requires
            v == vi as real,
    ;
    let di: int = oi - vi;
    assert((di * di) as real == (o - v) * (o - v)) by (nonlinear_arith)
        requires
            o - v == di as real,
    ;
    let p: int = pow2(125) as int;
    assert((p * oi) as real == (p as real) * o) by (nonlinear_arith)
        requires
            o == oi as real,
    ;
    lemma_pow2_adds(24, 125);
    lemma2_to64();
    assert(o == 16777216real * (p as real));
    let oo = o * o;
    let f = y - x * x;
    assert(oo > 0real) by (nonlinear_arith)
        requires
            oo == o * o,
            o > 0real,
    ;
    assert(f * oo == w * o - v * v) by (nonlinear_arith)
        requires
            f == y - x * x,
            oo == o * o,
            y * o == w,
            x * o == v,
    ;
    let d = 1real - x;
    let dd = d * d;
    assert(dd * oo == (o - v) * (o - v)) by (nonlinear_arith)
        requires
            dd == d * d,
            d == 1real - x,
            oo == o * o,
            x * o == v,
    ;
    assert((p as real) * o == oo / 16777216real) by (nonlinear_arith)
        requires
            o == 16777216real * (p as real),
            oo == o * o,
    ;
    let z = size(f);
    assert(z * oo == size(w * o - v * v)) by (nonlinear_arith)
        requires
            f * oo == w * o - v * v,
            z == f && f >= 0real || z == -f && f < 0real,
            oo > 0real,
    ;
    assert(z <= dd) by (nonlinear_arith)
        requires
            z * oo <= dd * oo,
            oo > 0real,
    ;
    assert(z <= 1real / 33554432real) by (nonlinear_arith)
        requires
            2real * (z * oo) <= oo / 16777216real,
            oo > 0real,
    ;
}

/// The encodings of the numbers between one half and one.
proof fn lemma_unit_encodings(c: Scalar)
    requires
        c.finite(),
        c.value() <= one(),
        2 * c.value() >= one(),
    ensures
        !c.negative(),
        0x3f00_0000 <= c.unsigned_bits() <= ONE_BITS,
{
    let b: int = c.unsigned_bits();
    lemma_one_size();
    lemma_pow2_pos(149);
    lemma_magnitude_sign(b);
    lemma2_to64();
    lemma_pow2_adds(23, 125);
    lemma_pow2_unfold(149);
    assert(2 * magnitude(0x3f00_0000) == one());
    if b > ONE_BITS {
        lemma_magnitude_increases(ONE_BITS as int, b);
    }
    if b < 0x3f00_0000 {
        lemma_magnitude_increases(b, 0x3f00_0000);
    }
}

} // verus!
