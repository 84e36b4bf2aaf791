//! How far a rounded result lies from the exact one.
use crate::arith::absolute;
use crate::arith::integral;
use crate::arith::is_nearest;
use crate::arith::lemma_integral_exact;
use crate::arith::lemma_nearest_exact;
use crate::arith::lemma_nearest_exists;
use crate::arith::lemma_nearest_monotone;
use crate::arith::lemma_nearest_multiple;
use crate::arith::lemma_nearest_zero;
use crate::arith::nearest;
use crate::convert::one;
use crate::order::lemma_sum_is_number;
use crate::order::lemma_sum_sign;
use crate::scalar::lemma_magnitude_increases;
use crate::scalar::lemma_magnitude_sign;
use crate::scalar::lemma_negated;
use crate::scalar::magnitude;
use crate::scalar::Scalar;
use crate::scalar::ONE_BITS;
use vstd::arithmetic::power2::lemma2_to64;
use vstd::arithmetic::power2::lemma_pow2_adds;
use vstd::arithmetic::power2::lemma_pow2_pos;
use vstd::arithmetic::power2::lemma_pow2_unfold;
use vstd::arithmetic::power2::pow2;
use vstd::prelude::*;

verus! {

/// The distance of a normal number to the next is at most its 2^-23rd part.
pub proof fn lemma_spacing(k: int)
    requires
        0x80_0000 <= k,
    ensures
        0x80_0000 * (magnitude(k + 1) - magnitude(k)) <= magnitude(k),
{
    let e: nat = (k / 0x80_0000 - 1) as nat;
    let f: int = k % 0x80_0000;
    let p: int = pow2(e) as int;
    lemma_pow2_pos(e);
    assert(magnitude(k) == (0x80_0000 + f) * p);
    if f == 0x7f_ffff {
        assert((k + 1) % 0x80_0000 == 0 && (k + 1) / 0x80_0000 == k / 0x80_0000 + 1);
        lemma_pow2_unfold(e + 1);
        assert(magnitude(k + 1) == 0x80_0000 * pow2(e + 1));
    } else {
        assert((k + 1) % 0x80_0000 == f + 1 && (k + 1) / 0x80_0000 == k / 0x80_0000);
        assert(magnitude(k + 1) == (0x80_0000 + f + 1) * p);
    }
    assert(magnitude(k + 1) - magnitude(k) == p) by (nonlinear_arith)
        requires
            magnitude(k) == (0x80_0000 + f) * p,
            magnitude(k + 1) == (0x80_0000 + f + 1) * p || (f == 0x7f_ffff && magnitude(k + 1)
                == 0x80_0000 * (2 * p)),
    ;
    assert(0x80_0000 * p <= (0x80_0000 + f) * p) by (nonlinear_arith)
        requires
            f >= 0,
            p > 0,
    ;
}

/// The first 2^24 encodings are the sizes of their numbers.
pub proof fn lemma_first_magnitudes(m: int)
    requires
        0 <= m <= 0x100_0000,
    ensures
        magnitude(m) == m,
{
    lemma2_to64();
    let p: int = pow2((m / 0x80_0000 - 1) as nat) as int;
    if 0x80_0000 <= m < 0x100_0000 {
        assert(m / 0x80_0000 == 1 && m % 0x80_0000 == m - 0x80_0000);
        assert((0x80_0000 + m % 0x80_0000) * p == m) by (nonlinear_arith)
            requires
                m % 0x80_0000 == m - 0x80_0000,
                p == 1,
        ;
    } else if m == 0x100_0000 {
        assert(m / 0x80_0000 == 2 && m % 0x80_0000 == 0);
        assert((0x80_0000 + m % 0x80_0000) * p == m) by (nonlinear_arith)
            requires
                m == 0x100_0000,
                m % 0x80_0000 == 0,
                p == 2,
        ;
    }
}

/// A quotient of 2^24 units or more moves by at most its 2^-24th part when it
/// is rounded, unless it is too large for a number.
pub proof fn lemma_nearest_error(num: int, den: int)
    requires
        den > 0,
        num >= 0x100_0000 * den,
        nearest(num, den) < 0x7f80_0000,
    ensures
        0x100_0000 * absolute(magnitude(nearest(num, den)) * den - num) <= num,
        0x100_0000 * absolute(magnitude(nearest(num, den)) * den - num) <= magnitude(
            nearest(num, den),
        ) * den,
{
    let k: int = nearest(num, den);
    lemma_first_magnitudes(0x100_0000);
    lemma_nearest_multiple(0x100_0000, den);
    assert(0x100_0000 * den >= 0);
    lemma_nearest_monotone(0x100_0000 * den, num, den);
    lemma_nearest_exists(num, den);
    assert(is_nearest(k, num, den));
    lemma_spacing(k);
    lemma_spacing(k - 1);
    lemma_magnitude_increases(k - 1, k);
    let (a, b, c) = (magnitude(k - 1), magnitude(k), magnitude(k + 1));
    assert(2 * num <= b * den + c * den && b * den + a * den <= 2 * num) by (nonlinear_arith)
        requires
            2 * num <= (b + c) * den,
            (a + b) * den <= 2 * num,
    ;
    assert(0x80_0000 * (c * den - b * den) <= b * den) by (nonlinear_arith)
        requires
            0x80_0000 * (c - b) <= b,
            den > 0,
    ;
    assert(0x80_0000 * (b * den - a * den) <= a * den && a * den <= b * den) by (nonlinear_arith)
        requires
            0x80_0000 * (b - a) <= a,
            a <= b,
            den > 0,
    ;
}

/// A sum of numbers that are not negative moves by at most its 2^-24th part
/// when it is rounded, and is not below either of them.
pub proof fn lemma_sum_error(x: Scalar, y: Scalar)
    requires
        x.finite(),
        y.finite(),
        x.value() >= 0,
        y.value() >= 0,
        x.sum(y).finite(),
    ensures
        0x100_0000 * absolute(x.sum(y).value() - (x.value() + y.value())) <= x.sum(y).value(),
{
    reveal(Scalar::sum);
    let total: int = x.value() + y.value();
    let k: int = nearest(total, 1);
    lemma_magnitude_sign(x.sum(y).unsigned_bits());
    lemma_magnitude_sign(0);
    if total != 0 {
        lemma_nearest_exists(total, 1);
        assert(x.sum(y).unsigned_bits() == k && x.sum(y).value() == magnitude(k));
        if total < 0x100_0000 {
            lemma_first_magnitudes(total);
            lemma_nearest_exact(total);
        } else {
            lemma_nearest_error(total, 1);
        }
    }
}

proof fn lemma_magnitude_monotone(a: int, b: int)
    requires
        0 <= a <= b,
    ensures
        magnitude(a) <= magnitude(b),
{
    if a < b {
        lemma_magnitude_increases(a, b);
    }
}

/// A sum between two numbers stays between them when it is rounded.
pub proof fn lemma_sum_between(x: Scalar, y: Scalar, low: int, high: int)
    requires
        x.finite(),
        y.finite(),
        x.value() >= 0,
        y.value() >= 0,
        0 <= low <= high < 0x7f80_0000,
        magnitude(low) <= x.value() + y.value() <= magnitude(high),
    ensures
        x.sum(y).finite(),
        magnitude(low) <= x.sum(y).value() <= magnitude(high),
{
    reveal(Scalar::sum);
    let total: int = x.value() + y.value();
    let k: int = nearest(total, 1);
    lemma_magnitude_sign(low);
    lemma_magnitude_sign(0);
    if total != 0 {
        lemma_nearest_exact(low);
        lemma_nearest_exact(high);
        lemma_nearest_monotone(magnitude(low), total, 1);
        lemma_nearest_monotone(total, magnitude(high), 1);
        lemma_magnitude_monotone(low, k);
        lemma_magnitude_monotone(k, high);
    }
}

/// A quotient between two numbers stays between them when it is rounded.
pub proof fn lemma_nearest_between(num: int, den: int, low: int, high: int)
    requires
        den > 0,
        0 <= low <= high < 0x7f80_0000,
        magnitude(low) * den <= num <= magnitude(high) * den,
    ensures
        low <= nearest(num, den) <= high,
        magnitude(low) <= magnitude(nearest(num, den)) <= magnitude(high),
{
    lemma_magnitude_sign(low);
    assert(magnitude(low) * den >= 0) by (nonlinear_arith)
        requires
            magnitude(low) >= 0,
            den > 0,
    ;
    lemma_nearest_multiple(low, den);
    lemma_nearest_multiple(high, den);
    lemma_nearest_monotone(magnitude(low) * den, num, den);
    lemma_nearest_monotone(num, magnitude(high) * den, den);
    lemma_magnitude_monotone(low, nearest(num, den));
    lemma_magnitude_monotone(nearest(num, den), high);
}

/// The size of the encoding with a zero fraction.
pub proof fn lemma_power_encoding(m: int)
    requires
        m >= 0x80_0000,
        m % 0x80_0000 == 0,
    ensures
        magnitude(m) == pow2((m / 0x80_0000 + 22) as nat),
{
    lemma2_to64();
    lemma_pow2_adds(23, (m / 0x80_0000 - 1) as nat);
}

/// A weight: zero, or at least 2^-24 and at most one.
pub open spec fn is_weight(t: Scalar) -> bool {
    t.finite() && (t.value() == 0 || pow2(125) <= t.value() <= one())
}

/// What one less a number that is not negative leaves above zero is a weight.
pub proof fn lemma_rest_is_weight(q: Scalar)
    requires
        q.nan() || q.value() >= 0,
    ensures
        is_weight((Scalar { bits: ONE_BITS }).difference(q).larger(Scalar { bits: 0 })),
{
    let unit = Scalar { bits: ONE_BITS };
    let d = unit.difference(q);
    reveal(Scalar::difference);
    lemma_magnitude_sign(0);
    lemma_power_encoding(ONE_BITS as int);
    assert(unit.value() == one());
    if !q.finite() {
        reveal(Scalar::sum);
        lemma_magnitude_sign(0x7f80_0000);
    } else {
        lemma_negated(q);
        lemma_sum_sign(unit, q.negated());
        lemma_sum_is_number(unit, q.negated());
        lemma_magnitude_sign(d.unsigned_bits());
        let total: int = one() - q.value();
        if total > 0 {
            lemma_magnitude_sign(q.unsigned_bits());
            if q.unsigned_bits() >= ONE_BITS {
                lemma_magnitude_monotone(ONE_BITS as int, q.unsigned_bits());
            }
            lemma_magnitude_monotone(q.unsigned_bits(), ONE_BITS - 1);
            lemma_below_one();
            reveal(Scalar::sum);
            lemma_power_encoding(0x3380_0000);
            lemma_nearest_between(total, 1, 0x3380_0000, ONE_BITS as int);
        }
    }
}

/// The number before one is 2^-24 less.
proof fn lemma_below_one()
    ensures
        magnitude(ONE_BITS - 1) == one() - pow2(125),
{
    let m: int = ONE_BITS - 1;
    lemma2_to64();
    lemma_pow2_adds(24, 125);
    assert(m / 0x80_0000 == 126 && m % 0x80_0000 == 0x7f_ffff);
    let p: int = pow2(125) as int;
    assert(0xff_ffff * p == 0x100_0000 * p - p) by (nonlinear_arith);
}

/// `s` is a rounded sum of `count` weights whose exact sum is `exact`.
pub open spec fn tracks(s: Scalar, exact: int, count: int) -> bool {
    &&& s.finite()
    &&& s.value() == 0 || s.value() >= pow2(125)
    &&& 0 <= s.value() <= count * one()
    &&& exact >= 0
    &&& 0x100_0000 * absolute(s.value() - exact) <= count * s.value()
}

/// Adding a weight keeps track of the exact sum.
pub proof fn lemma_tracks_step(s: Scalar, exact: int, count: int, t: Scalar)
    requires
        tracks(s, exact, count),
        is_weight(t),
        0 <= count < 0x40_0000,
    ensures
        tracks(s.sum(t), exact + t.value(), count + 1),
{
    let r = s.sum(t);
    let high = integral(count + 1);
    lemma_pow2_pos(149);
    lemma_pow2_pos(125);
    lemma_integral_exact(count + 1);
    assert((count + 1) * one() == count * one() + one()) by (nonlinear_arith);
    lemma_magnitude_sign(s.unsigned_bits());
    lemma_power_below(s.unsigned_bits(), high.unsigned_bits());
    lemma_sum_between(s, t, s.unsigned_bits(), high.unsigned_bits());
    lemma_sum_error(s, t);
    lemma_power_encoding(0x3380_0000);
    if s.value() + t.value() >= pow2(125) {
        lemma_power_below(0x3380_0000, high.unsigned_bits());
        lemma_sum_between(s, t, 0x3380_0000, high.unsigned_bits());
    } else {
        lemma_magnitude_sign(0);
        lemma_sum_between(s, t, 0, 0);
    }
    let (a, b) = (s.value(), r.value());
    assert(count * a <= count * b && (count + 1) * b == count * b + b) by (nonlinear_arith)
        requires
            a <= b,
            count >= 0,
    ;
}

/// The encodings of sizes that come in order come in order.
proof fn lemma_power_below(a: int, b: int)
    requires
        0 <= a,
        0 <= b,
        magnitude(a) <= magnitude(b),
    ensures
        a <= b,
{
    if b < a {
        lemma_magnitude_increases(b, a);
    }
}

/// The reciprocal of a rounded sum of weights that is not zero.
pub proof fn lemma_reciprocal(s: Scalar)
    requires
        s.finite(),
        pow2(125) <= s.value() <= 0x40_0000 * one(),
    ensures
        ({
            let inv = (Scalar { bits: ONE_BITS }).quotient(s);
            &&& inv.finite()
            &&& pow2(127) <= inv.value() <= pow2(173)
            &&& 0x100_0000 * absolute(inv.value() * s.value() - one() * one()) <= one() * one()
        }),
{
    let unit = Scalar { bits: ONE_BITS };
    let v: int = s.value();
    let num: int = one() * one();
    reveal(Scalar::quotient);
    lemma_pow2_pos(125);
    lemma_magnitude_sign(s.unsigned_bits());
    lemma_power_encoding(ONE_BITS as int);
    lemma_power_encoding(0x3480_0000);
    lemma_power_encoding(0x4b80_0000);
    assert(unit.size() == one() && s.size() == v);
    lemma2_to64();
    lemma_pow2_adds(149, 149);
    lemma_pow2_adds(22, 149);
    lemma_pow2_adds(127, 171);
    lemma_pow2_adds(173, 125);
    lemma_pow2_adds(24, 171);
    lemma_pow2_adds(195, 103);
    lemma_pow2_pos(103);
    lemma_pow2_pos(127);
    lemma_pow2_pos(173);
    let (p, q) = (pow2(127) as int, pow2(173) as int);
    assert(v <= pow2(171));
    assert(p * v <= num) by (nonlinear_arith)
        requires
            num == p * pow2(171),
            v <= pow2(171),
            p > 0,
    ;
    assert(num <= q * v) by (nonlinear_arith)
        requires
            num == q * pow2(125),
            v >= pow2(125),
            q > 0,
    ;
    lemma_nearest_between(num, v, 0x3480_0000, 0x4b80_0000);
    assert(num >= 0x100_0000 * v) by (nonlinear_arith)
        requires
            num == pow2(195) * pow2(103),
            pow2(195) == 0x100_0000 * pow2(171),
            pow2(103) >= 1,
            v <= pow2(171),
    ;
    lemma_nearest_error(num, v);
}

/// The share of a weight: its product with the reciprocal.
pub proof fn lemma_share(t: Scalar, inv: Scalar)
    requires
        is_weight(t),
        inv.finite(),
        pow2(127) <= inv.value(),
    ensures
        t.product(inv).finite(),
        t.product(inv).value() >= 0,
        0x100_0000 * absolute(t.product(inv).value() * one() - t.value() * inv.value())
            <= t.value() * inv.value(),
{
    let (a, b) = (t.value(), inv.value());
    let num: int = a * b;
    reveal(Scalar::product);
    lemma_pow2_pos(149);
    lemma_pow2_pos(127);
    lemma_pow2_pos(125);
    lemma_magnitude_sign(t.unsigned_bits());
    lemma_magnitude_sign(inv.unsigned_bits());
    lemma_magnitude_sign(0);
    assert(t.size() == a && inv.size() == b);
    if a == 0 {
        assert(num == 0) by (nonlinear_arith)
            requires
                a == 0,
                num == a * b,
        ;
        lemma_nearest_zero(one());
        let o: int = one();
        assert(0 * o == 0);
    } else {
        lemma2_to64();
        lemma_pow2_adds(125, 127);
        lemma_pow2_adds(24, 149);
        lemma_pow2_adds(173, 79);
        lemma_pow2_pos(79);
        lemma_pow2_pos(173);
        assert(num >= 0x100_0000 * one()) by (nonlinear_arith)
            requires
                num == a * b,
                a >= pow2(125),
                b >= pow2(127),
                pow2(125) * pow2(127) == pow2(173) * pow2(79),
                pow2(125) > 0,
                pow2(127) > 0,
                pow2(79) >= 1,
                pow2(173) == 0x100_0000 * one(),
                one() > 0,
        ;
        assert(num <= b * one()) by (nonlinear_arith)
            requires
                num == a * b,
                a <= one(),
                b > 0,
        ;
        assert(magnitude(0) * one() <= num);
        lemma_nearest_between(num, one(), 0, inv.unsigned_bits());
        lemma_nearest_error(num, one());
    }
}

/// Shares of a rounded sum of `count` weights: `exact` is the exact sum of the
/// weights, `shares` that of their products with the reciprocal. They make up
/// one, to within `count + 3` parts in 2^24.
pub proof fn lemma_shares_make_one(s: Scalar, exact: int, count: int, shares: int)
    requires
        tracks(s, exact, count),
        s.value() > 0,
        0 <= count <= 0x40_0000,
        ({
            let inv = (Scalar { bits: ONE_BITS }).quotient(s);
            0x100_0000 * absolute(shares * one() - exact * inv.value()) <= exact * inv.value()
        }),
    ensures
        0x100_0000 * absolute(shares - one()) <= (count + 3) * one(),
{
    let u: int = 0x100_0000;
    let (v, t, w, o) = (s.value(), exact, shares, one());
    lemma_pow2_pos(149);
    assert(count * o <= 0x40_0000 * o) by (nonlinear_arith)
        requires
            count <= 0x40_0000,
            o > 0,
    ;
    lemma_reciprocal(s);
    lemma_pow2_pos(127);
    let i: int = (Scalar { bits: ONE_BITS }).quotient(s).value();
    let (vi, ti, oo, wo) = (v * i, t * i, o * o, w * o);
    assert(i * v == vi) by (nonlinear_arith)
        requires
            vi == v * i,
    ;
    assert(vi >= 0 && u * vi - count * vi <= u * ti <= u * vi + count * vi) by (nonlinear_arith)
        requires
            u * (v - t) <= count * v,
            u * (t - v) <= count * v,
            i > 0,
            v > 0,
            vi == v * i,
            ti == t * i,
    ;
    assert(oo >= 0 && (w - o) * o == wo - oo && (o - w) * o == oo - wo) by (nonlinear_arith)
        requires
            oo == o * o,
            wo == w * o,
            o > 0,
    ;
    lemma_share_bounds(count, vi, ti, oo, wo);
    let limit: int = count + 3;
    assert(u * (w - o) <= limit * o && u * (o - w) <= limit * o) by (nonlinear_arith)
        requires
            u * ((w - o) * o) <= limit * (o * o),
            u * ((o - w) * o) <= limit * (o * o),
            o > 0,
    ;
}

proof fn lemma_share_bounds(count: int, vi: int, ti: int, oo: int, wo: int)
    requires
        0 <= count <= 0x40_0000,
        oo >= 0,
        vi >= 0,
        0x100_0000 * vi - count * vi <= 0x100_0000 * ti <= 0x100_0000 * vi + count * vi,
        0xff_ffff * oo <= 0x100_0000 * vi <= 0x100_0001 * oo,
        0x100_0000 * (wo - ti) <= ti,
        0x100_0000 * (ti - wo) <= ti,
    ensures
        0x100_0000 * (wo - oo) <= (count + 3) * oo,
        0x100_0000 * (oo - wo) <= (count + 3) * oo,
{
    let n: int = count * oo;
    let m: int = count * vi;
    assert(0x100_0000 * m <= 0x100_0001 * n && 0xff_ffff * n <= 0x100_0000 * m)
        by (nonlinear_arith)
        requires
            n == count * oo,
            m == count * vi,
            count >= 0,
            0xff_ffff * oo <= 0x100_0000 * vi <= 0x100_0001 * oo,
    ;
    assert(0 <= n <= 0x40_0000 * oo) by (nonlinear_arith)
        requires
            n == count * oo,
            0 <= count <= 0x40_0000,
            oo >= 0,
    ;
    assert((count + 3) * oo == n + 3 * oo) by (nonlinear_arith)
        requires
            n == count * oo,
    ;
}

} // verus!
