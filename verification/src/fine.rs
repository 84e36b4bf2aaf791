//! The numbers that double-precision encodings stand for, and how far a rounded
//! result lies from the exact one.
use crate::double::absolute;
use crate::double::is_nearest;
use crate::double::is_nearest_root;
use crate::double::lemma_magnitude_increases;
use crate::double::lemma_magnitude_sign;
use crate::double::lemma_nearest_exact;
use crate::double::lemma_nearest_exists;
use crate::double::lemma_nearest_monotone;
use crate::double::lemma_nearest_multiple;
use crate::double::lemma_nearest_root_exists;
use crate::double::magnitude;
use crate::double::nearest;
use crate::double::nearest_root;
use crate::double::one;
use crate::double::rounded;
use crate::double::Double;
use crate::exact::ample;
use crate::exact::size;
use vstd::arithmetic::power2::lemma2_to64;
use vstd::arithmetic::power2::lemma2_to64_rest;
use vstd::arithmetic::power2::lemma_pow2_adds;
use vstd::arithmetic::power2::lemma_pow2_pos;
use vstd::arithmetic::power2::lemma_pow2_unfold;
use vstd::arithmetic::power2::pow2;
use vstd::prelude::*;

verus! {

/// The number that an encoding stands for.
#[verifier::opaque]
pub open spec fn fine(x: Double) -> real {
    x.value() as real / one() as real
}

/// A bound on the relative error of one rounding: a little more than 2^-53.
pub open spec fn tiny() -> real {
    1real / 9000000000000000real
}

/// The encoding stands for a number within `e` of `r`.
pub open spec fn near(x: Double, r: real, e: real) -> bool {
    x.finite() && size(fine(x) - r) <= e
}

/// One is positive, and large among the units.
proof fn lemma_one()
    ensures
        one() as real > 1267650600228229401496703205376real,
        one() > 1329227995784915872903807060280344576int,
        one() > 0,
        pow2(1174) == pow2(100) * one(),
        pow2(100) as real == ample(),
        pow2(100) == 1267650600228229401496703205376int,
{
    lemma_pow2_adds(100, 1074);
    lemma_pow2_adds(120, 954);
    lemma_pow2_adds(100, 20);
    lemma_pow2_adds(50, 50);
    lemma_pow2_unfold(954);
    lemma2_to64();
    lemma2_to64_rest();
    lemma_pow2_pos(953);
    assert(pow2(100) == 1267650600228229401496703205376int);
    assert(pow2(120) == 1329227995784915872903807060280344576int);
    assert(one() >= 2 * pow2(120)) by (nonlinear_arith)
        requires
            one() == pow2(120) * pow2(954),
            pow2(954) >= 2,
            pow2(120) > 0,
    ;
}

/// Negation negates the number.
pub proof fn lemma_negated(x: Double)
    ensures
        x.negated().value() == -x.value(),
        x.negated().finite() == x.finite(),
{
}

/// The distance of a normal number to the next is at most its 2^-52nd part.
pub proof fn lemma_spacing(k: int)
    requires
        0x10_0000_0000_0000 <= k,
    ensures
        0x10_0000_0000_0000 * (magnitude(k + 1) - magnitude(k)) <= magnitude(k),
{
    let e: nat = (k / 0x10_0000_0000_0000 - 1) as nat;
    let f: int = k % 0x10_0000_0000_0000;
    let p: int = pow2(e) as int;
    lemma_pow2_pos(e);
    assert(magnitude(k) == (0x10_0000_0000_0000 + f) * p);
    if f == 0xf_ffff_ffff_ffff {
        assert((k + 1) % 0x10_0000_0000_0000 == 0 && (k + 1) / 0x10_0000_0000_0000 == k / 0x10_0000_0000_0000 + 1);
        lemma_pow2_unfold(e + 1);
        assert(magnitude(k + 1) == 0x10_0000_0000_0000 * pow2(e + 1));
    } else {
        assert((k + 1) % 0x10_0000_0000_0000 == f + 1 && (k + 1) / 0x10_0000_0000_0000 == k / 0x10_0000_0000_0000);
        assert(magnitude(k + 1) == (0x10_0000_0000_0000 + f + 1) * p);
    }
    assert(magnitude(k + 1) - magnitude(k) == p) by (nonlinear_arith)
        requires
            magnitude(k) == (0x10_0000_0000_0000 + f) * p,
            magnitude(k + 1) == (0x10_0000_0000_0000 + f + 1) * p || (f == 0xf_ffff_ffff_ffff && magnitude(k + 1)
                == 0x10_0000_0000_0000 * (2 * p)),
    ;
    assert(0x10_0000_0000_0000 * p <= (0x10_0000_0000_0000 + f) * p) by (nonlinear_arith)
        requires
            f >= 0,
            p > 0,
    ;
}

/// The first 2^53 encodings are the sizes of their numbers.
pub proof fn lemma_first_magnitudes(m: int)
    requires
        0 <= m <= 0x20_0000_0000_0000,
    ensures
        magnitude(m) == m,
{
    lemma2_to64();
    lemma2_to64_rest();
    let p: int = pow2((m / 0x10_0000_0000_0000 - 1) as nat) as int;
    if 0x10_0000_0000_0000 <= m < 0x20_0000_0000_0000 {
        assert(m / 0x10_0000_0000_0000 == 1 && m % 0x10_0000_0000_0000 == m - 0x10_0000_0000_0000);
        assert((0x10_0000_0000_0000 + m % 0x10_0000_0000_0000) * p == m) by (nonlinear_arith)
            requires
                m % 0x10_0000_0000_0000 == m - 0x10_0000_0000_0000,
                p == 1,
        ;
    } else if m == 0x20_0000_0000_0000 {
        assert(m / 0x10_0000_0000_0000 == 2 && m % 0x10_0000_0000_0000 == 0);
        assert((0x10_0000_0000_0000 + m % 0x10_0000_0000_0000) * p == m) by (nonlinear_arith)
            requires
                m == 0x20_0000_0000_0000,
                m % 0x10_0000_0000_0000 == 0,
                p == 2,
        ;
    }
}

/// A quotient of 2^53 units or more moves by at most its 2^-53rd part when it
/// is rounded, unless it is too large for a number.
pub proof fn lemma_nearest_error(num: int, den: int)
    requires
        den > 0,
        num >= 0x20_0000_0000_0000 * den,
        nearest(num, den) < 0x7ff0_0000_0000_0000,
    ensures
        0x20_0000_0000_0000 * absolute(magnitude(nearest(num, den)) * den - num) <= num,
        0x20_0000_0000_0000 * absolute(magnitude(nearest(num, den)) * den - num) <= magnitude(
            nearest(num, den),
        ) * den,
{
    let k: int = nearest(num, den);
    lemma_first_magnitudes(0x20_0000_0000_0000);
    lemma_nearest_multiple(0x20_0000_0000_0000, den);
    assert(0x20_0000_0000_0000 * den >= 0);
    lemma_nearest_monotone(0x20_0000_0000_0000 * den, num, den);
    lemma_nearest_exists(num, den);
    assert(is_nearest(k, num, den));
    lemma_spacing(k);
    lemma_spacing(k - 1);
    lemma_magnitude_increases(k - 1, k);
    let (a, b, c) = (magnitude(k - 1), magnitude(k), magnitude(k + 1));
    assert(2 * num <= b * den + c * den && b * den + a * den <= 2 * num) by (nonlinear_arith)
        requires
            2 * num <= (b + c) * den,
            (a + b) * den <= 2 * num,
    ;
    assert(0x10_0000_0000_0000 * (c * den - b * den) <= b * den) by (nonlinear_arith)
        requires
            0x10_0000_0000_0000 * (c - b) <= b,
            den > 0,
    ;
    assert(0x10_0000_0000_0000 * (b * den - a * den) <= a * den && a * den <= b * den) by (nonlinear_arith)
        requires
            0x10_0000_0000_0000 * (b - a) <= a,
            a <= b,
            den > 0,
    ;
}

proof fn lemma_magnitude_monotone(a: int, b: int)
    requires
        0 <= a <= b,
    ensures
        magnitude(a) <= magnitude(b),
{
    if a < b {
        lemma_magnitude_increases(a, b);
    }
}

/// A quotient between two numbers stays between them when it is rounded.
pub proof fn lemma_nearest_between(num: int, den: int, low: int, high: int)
    requires
        den > 0,
        0 <= low <= high < 0x7ff0_0000_0000_0000,
        magnitude(low) * den <= num <= magnitude(high) * den,
    ensures
        low <= nearest(num, den) <= high,
        magnitude(low) <= magnitude(nearest(num, den)) <= magnitude(high),
{
    lemma_magnitude_sign(low);
    assert(magnitude(low) * den >= 0) by (nonlinear_arith)
        requires
            magnitude(low) >= 0,
            den > 0,
    ;
    lemma_nearest_multiple(low, den);
    lemma_nearest_multiple(high, den);
    lemma_nearest_monotone(magnitude(low) * den, num, den);
    lemma_nearest_monotone(num, magnitude(high) * den, den);
    lemma_magnitude_monotone(low, nearest(num, den));
    lemma_magnitude_monotone(nearest(num, den), high);
}

/// The size of the encoding with a zero fraction.
pub proof fn lemma_power_encoding(m: int)
    requires
        m >= 0x10_0000_0000_0000,
        m % 0x10_0000_0000_0000 == 0,
    ensures
        magnitude(m) == pow2((m / 0x10_0000_0000_0000 + 51) as nat),
{
    lemma2_to64();
    lemma2_to64_rest();
    lemma_pow2_adds(52, (m / 0x10_0000_0000_0000 - 1) as nat);
}

/// The size of a rounded number is that of the nearest encoding.
pub proof fn lemma_rounded_value(negative: bool, num: int, den: int)
    requires
        num >= 0,
        den > 0,
    ensures
        !rounded(negative, num, den).nan(),
        0 <= nearest(num, den) <= 0x7ff0_0000_0000_0000,
        magnitude(nearest(num, den)) >= 0,
        rounded(negative, num, den).value() == if negative {
            -magnitude(nearest(num, den))
        } else {
            magnitude(nearest(num, den))
        },
{
    lemma_nearest_exists(num, den);
    lemma_magnitude_sign(nearest(num, den));
}

/// The sum of finite numbers has the value of the rounded total.
pub proof fn lemma_sum_value(x: Double, y: Double)
    requires
        x.finite(),
        y.finite(),
    ensures
        !x.sum(y).nan(),
        x.sum(y).value() == rounded(
            x.value() + y.value() < 0,
            absolute(x.value() + y.value()),
            1,
        ).value(),
{
    reveal(Double::sum);
    let total: int = x.value() + y.value();
    lemma_rounded_value(total < 0, absolute(total), 1);
    if total == 0 {
        lemma_nearest_exact(0);
    }
}

/// A quotient moves by at most half a unit and its 2^-53rd part when it is
/// rounded.
proof fn lemma_rounding(num: int, den: int)
    requires
        den > 0,
        num >= 0,
        num <= pow2(1174) * den,
    ensures
        nearest(num, den) < 0x7ff0_0000_0000_0000,
        0x40_0000_0000_0000 * absolute(magnitude(nearest(num, den)) * den - num) <= 2 * num + 0x20_0000_0000_0000
            * den,
{
    let k: int = nearest(num, den);
    lemma_power_encoding(0x4630_0000_0000_0000);
    lemma_magnitude_sign(0);
    assert(magnitude(0) * den == 0);
    lemma_nearest_between(num, den, 0, 0x4630_0000_0000_0000);
    if num >= 0x20_0000_0000_0000 * den {
        lemma_nearest_error(num, den);
    } else {
        lemma_first_magnitudes(0x20_0000_0000_0000);
        lemma_nearest_between(num, den, 0, 0x20_0000_0000_0000);
        lemma_nearest_exists(num, den);
        lemma_first_magnitudes(k);
        if k > 0 {
            lemma_first_magnitudes(k - 1);
            assert((magnitude(k - 1) + magnitude(k)) * den == 2 * (k * den) - den)
                by (nonlinear_arith)
                requires
                    magnitude(k - 1) == k - 1,
                    magnitude(k) == k,
            ;
        }
        if k < 0x20_0000_0000_0000 {
            lemma_first_magnitudes(k + 1);
            assert((magnitude(k) + magnitude(k + 1)) * den == 2 * (k * den) + den)
                by (nonlinear_arith)
                requires
                    magnitude(k + 1) == k + 1,
                    magnitude(k) == k,
            ;
        }
        assert(magnitude(k) * den == k * den);
    }
}

/// A rounded result in terms of numbers: `value / one` rounds `num / (den *
/// one)`.
proof fn lemma_error_of_number(value: int, num: int, den: int)
    requires
        den > 0,
        0x40_0000_0000_0000 * absolute(value * den - num) <= 2 * absolute(num) + 0x20_0000_0000_0000 * den,
    ensures
        ({
            let exact = num as real / (den as real * one() as real);
            size(value as real / one() as real - exact) <= size(exact) / 9007199254740992real + 1real / (
            2real * one() as real)
        }),
{
    lemma_one();
    let d = den as real;
    let o = one() as real;
    let v = value as real;
    let n = num as real;
    let exact = n / (d * o);
    let found = v / o;
    assert((value * den) as real == v * d) by (nonlinear_arith)
        requires
            v == value as real,
            d == den as real,
    ;
    assert(exact * (d * o) == n && found * o == v && d * o > 0real) by (nonlinear_arith)
        requires
            exact == n / (d * o),
            found == v / o,
            d > 0real,
            o > 0real,
    ;
    let unit = 1real / (2real * o);
    assert(unit * (2real * o) == 1real) by (nonlinear_arith)
        requires
            unit == 1real / (2real * o),
            o > 0real,
    ;
    let diff = found - exact;
    assert(diff * (d * o) == v * d - n) by (nonlinear_arith)
        requires
            exact * (d * o) == n,
            found * o == v,
            diff == found - exact,
    ;
    let s = size(exact);
    assert(s * (d * o) == size(n)) by (nonlinear_arith)
        requires
            exact * (d * o) == n,
            d * o > 0real,
            s == size(exact),
    ;
    assert(18014398509481984real * size(v * d - n) <= 2real * size(n) + 9007199254740992real * d);
    let limit = s / 9007199254740992real + unit;
    assert(limit * (d * o) == size(n) / 9007199254740992real + d / 2real) by (nonlinear_arith)
        requires
            limit == s / 9007199254740992real + unit,
            s * (d * o) == size(n),
            unit * (2real * o) == 1real,
    ;
    assert(size(diff) <= limit) by (nonlinear_arith)
        requires
            diff * (d * o) <= limit * (d * o),
            -(diff * (d * o)) <= limit * (d * o),
            d * o > 0real,
    ;
}

/// What a bound on the exact result leaves of an error.
proof fn lemma_bounded_error(exact: real, error: real, bound: real)
    requires
        size(exact) <= bound,
        1real <= bound,
        error <= size(exact) / 9007199254740992real + 1real / (2real * one() as real),
    ensures
        error <= bound * tiny(),
{
    lemma_one();
    let o = one() as real;
    let unit = 1real / (2real * o);
    assert(unit <= 1real / 1267650600228229401496703205376real) by (nonlinear_arith)
        requires
            unit == 1real / (2real * o),
            o > 1267650600228229401496703205376real,
    ;
    assert(bound * tiny() == bound / 9000000000000000real) by (nonlinear_arith)
        requires
            tiny() == 1real / 9000000000000000real,
    ;
}

proof fn lemma_number(x: Double)
    ensures
        fine(x) * one() as real == x.value() as real,
        x.value() == 0 <==> fine(x) == 0real,
        x.value() > 0 <==> fine(x) > 0real,
{
    reveal(fine);
    lemma_one();
    let o = one() as real;
    let v = x.value() as real;
    let r = fine(x);
    assert(r * o == v && (v == 0real <==> r == 0real) && (v > 0real <==> r > 0real))
        by (nonlinear_arith)
        requires
            r == v / o,
            o > 0real,
    ;
}

/// The sum of bounded numbers.
pub proof fn lemma_sum_close(x: Double, y: Double, bound: real)
    requires
        x.finite(),
        y.finite(),
        size(fine(x) + fine(y)) <= bound,
        1real <= bound <= ample(),
    ensures
        near(x.sum(y), fine(x) + fine(y), bound * tiny()),
{
    reveal(fine);
    let total: int = x.value() + y.value();
    let t: int = absolute(total);
    let o = one() as real;
    lemma_one();
    lemma_number(x);
    lemma_number(y);
    let r = fine(x) + fine(y);
    assert(r * o == total as real) by (nonlinear_arith)
        requires
            fine(x) * o == x.value() as real,
            fine(y) * o == y.value() as real,
            r == fine(x) + fine(y),
            total as real == x.value() as real + y.value() as real,
    ;
    assert(t as real <= ample() * o) by (nonlinear_arith)
        requires
            r * o == total as real,
            size(r) <= ample(),
            t as real == size(total as real),
            o > 0real,
    ;
    assert((pow2(100) * one()) as real == ample() * o) by (nonlinear_arith)
        requires
            pow2(100) as real == ample(),
            o == one() as real,
    ;
    assert(t <= pow2(1174) * 1);
    lemma_rounding(t, 1);
    lemma_sum_value(x, y);
    lemma_rounded_value(total < 0, t, 1);
    let found = x.sum(y);
    lemma_magnitude_sign(found.unsigned_bits());
    lemma_finite_size(found, nearest(t, 1));
    lemma_error_of_number(found.value(), total, 1);
    assert(total as real / (1real * o) == r) by (nonlinear_arith)
        requires
            r * o == total as real,
            o > 0real,
    ;
    lemma_bounded_error(r, size(fine(found) - r), bound);
}

/// A number whose size is that of a finite encoding is finite.
proof fn lemma_finite_size(x: Double, k: int)
    requires
        0 <= k < 0x7ff0_0000_0000_0000,
        x.size() == magnitude(k),
    ensures
        x.finite(),
{
    if x.unsigned_bits() > k {
        lemma_magnitude_increases(k, x.unsigned_bits());
    }
}

/// The difference of bounded numbers.
pub proof fn lemma_difference_close(x: Double, y: Double, bound: real)
    requires
        x.finite(),
        y.finite(),
        size(fine(x) - fine(y)) <= bound,
        1real <= bound <= ample(),
    ensures
        near(x.difference(y), fine(x) - fine(y), bound * tiny()),
{
    reveal(fine);
    reveal(Double::difference);
    lemma_negated(y);
    lemma_number(y);
    lemma_number(y.negated());
    lemma_one();
    let o = one() as real;
    assert(fine(y.negated()) == -fine(y)) by (nonlinear_arith)
        requires
            fine(y.negated()) * o == -(fine(y) * o),
            o > 0real,
    ;
    lemma_sum_close(x, y.negated(), bound);
}

/// The product of bounded numbers.
pub proof fn lemma_product_close(x: Double, y: Double, bound: real)
    requires
        x.finite(),
        y.finite(),
        size(fine(x) * fine(y)) <= bound,
        1real <= bound <= ample(),
    ensures
        near(x.product(y), fine(x) * fine(y), bound * tiny()),
{
    reveal(fine);
    let num: int = x.size() * y.size();
    let signed_num: int = x.value() * y.value();
    let o = one() as real;
    let (a, b) = (x.value() as real, y.value() as real);
    let r = fine(x) * fine(y);
    lemma_one();
    lemma_number(x);
    lemma_number(y);
    lemma_magnitude_sign(x.unsigned_bits());
    lemma_magnitude_sign(y.unsigned_bits());
    assert(num >= 0 && absolute(signed_num) == num && (x.negative() == y.negative() ==> signed_num
        == num) && (x.negative() != y.negative() ==> signed_num == -num)) by (nonlinear_arith)
        requires
            num == x.size() * y.size(),
            signed_num == x.value() * y.value(),
            x.size() >= 0,
            y.size() >= 0,
            x.value() == if x.negative() {
                -x.size()
            } else {
                x.size()
            },
            y.value() == if y.negative() {
                -y.size()
            } else {
                y.size()
            },
    ;
    assert(signed_num as real == a * b) by (nonlinear_arith)
        requires
            signed_num == x.value() * y.value(),
            a == x.value() as real,
            b == y.value() as real,
    ;
    assert(r * (o * o) == a * b) by (nonlinear_arith)
        requires
            fine(x) * o == a,
            fine(y) * o == b,
            r == fine(x) * fine(y),
    ;
    assert(num as real <= ample() * o * o) by (nonlinear_arith)
        requires
            r * (o * o) == signed_num as real,
            num as real == size(signed_num as real),
            size(r) <= ample(),
            o > 0real,
    ;
    assert((pow2(1174) * one()) as real == ample() * o * o) by (nonlinear_arith)
        requires
            pow2(100) as real == ample(),
            pow2(1174) == pow2(100) * one(),
            o == one() as real,
    ;
    lemma_rounding(num, one());
    let found = x.product(y);
    let negative = x.negative() != y.negative();
    reveal(Double::product);
    lemma_rounded_value(negative, num, one());
    lemma_magnitude_sign(found.unsigned_bits());
    lemma_finite_size(found, nearest(num, one()));
    assert(absolute(found.value() * one() - signed_num) == absolute(
        magnitude(nearest(num, one())) * one() - num,
    )) by (nonlinear_arith)
        requires
            found.value() == magnitude(nearest(num, one())) && signed_num == num || found.value()
                == -magnitude(nearest(num, one())) && signed_num == -num,
    ;
    lemma_error_of_number(found.value(), signed_num, one());
    assert(signed_num as real / (o * o) == r) by (nonlinear_arith)
        requires
            r * (o * o) == signed_num as real,
            o > 0real,
    ;
    lemma_bounded_error(r, size(fine(found) - r), bound);
}

/// The quotient of bounded numbers.
pub proof fn lemma_quotient_close(x: Double, y: Double, bound: real)
    requires
        x.finite(),
        y.finite(),
        fine(y) != 0real,
        size(fine(x) / fine(y)) <= bound,
        1real <= bound <= ample(),
    ensures
        near(x.quotient(y), fine(x) / fine(y), bound * tiny()),
{
    reveal(fine);
    let num: int = x.size() * one();
    let den: int = y.size();
    let negative = x.negative() != y.negative();
    let signed_num: int = if negative {
        -num
    } else {
        num
    };
    let o = one() as real;
    let (a, b) = (x.value() as real, y.value() as real);
    let r = fine(x) / fine(y);
    lemma_one();
    lemma_number(x);
    lemma_number(y);
    lemma_magnitude_sign(x.unsigned_bits());
    lemma_magnitude_sign(y.unsigned_bits());
    lemma_ratio(fine(x), fine(y), a, b, o);
    assert(r * b == a);
    assert(num >= 0 && num as real == x.size() as real * o) by (nonlinear_arith)
        requires
            num == x.size() * one(),
            x.size() >= 0,
            one() > 0,
            o == one() as real,
    ;
    let (p, q) = (x.size() as real, y.size() as real);
    assert(size(r) * q == p) by (nonlinear_arith)
        requires
            r * b == a,
            size(a) == p,
            size(b) == q,
            q > 0real,
    ;
    assert(num as real <= ample() * o * q) by (nonlinear_arith)
        requires
            num as real == p * o,
            size(r) * q == p,
            size(r) <= ample(),
            q > 0real,
            o > 0real,
    ;
    assert((pow2(1174) * den) as real == ample() * o * q) by (nonlinear_arith)
        requires
            pow2(100) as real == ample(),
            pow2(1174) == pow2(100) * one(),
            o == one() as real,
            q == den as real,
    ;
    lemma_rounding(num, den);
    let found = x.quotient(y);
    reveal(Double::quotient);
    lemma_rounded_value(negative, num, den);
    lemma_magnitude_sign(found.unsigned_bits());
    lemma_finite_size(found, nearest(num, den));
    assert(absolute(found.value() * den - signed_num) == absolute(
        magnitude(nearest(num, den)) * den - num,
    )) by (nonlinear_arith)
        requires
            found.value() == magnitude(nearest(num, den)) && signed_num == num || found.value()
                == -magnitude(nearest(num, den)) && signed_num == -num,
    ;
    lemma_error_of_number(found.value(), signed_num, den);
    assert(signed_num as real / (q * o) == r) by (nonlinear_arith)
        requires
            r * b == a,
            signed_num as real == if negative {
                -(p * o)
            } else {
                p * o
            },
            a == if x.negative() {
                -p
            } else {
                p
            },
            b == if y.negative() {
                -q
            } else {
                q
            },
            negative == (x.negative() != y.negative()),
            q > 0real,
            o > 0real,
    ;
    lemma_bounded_error(r, size(fine(found) - r), bound);
}

proof fn lemma_ratio(x: real, y: real, a: real, b: real, o: real)
    requires
        x * o == a,
        y * o == b,
        o > 0real,
        y != 0real,
    ensures
        (x / y) * b == a,
{
    let r = x / y;
    assert(r * y == x) by (nonlinear_arith)
        requires
            r == x / y,
            y != 0real,
    ;
    assert(r * b == a) by (nonlinear_arith)
        requires
            r * y == x,
            x * o == a,
            y * o == b,
    ;
}

/// The square root of a number that is not negative: its square is the number,
/// to within three parts in 2^53.
pub proof fn lemma_root_close(x: Double)
    requires
        x.finite(),
        fine(x) >= 0real,
    ensures
        x.square_root().finite(),
        fine(x.square_root()) >= 0real,
        size(fine(x.square_root()) * fine(x.square_root()) - fine(x)) <= 3real * tiny()
            * fine(x),
{
    reveal(fine);
    let found = x.square_root();
    let o = one() as real;
    lemma_one();
    lemma_number(x);
    lemma_number(found);
    lemma_magnitude_sign(x.unsigned_bits());
    reveal(Double::square_root);
    if x.value() == 0 {
        assert(fine(x) == 0real && fine(found) == 0real);
        assert(0real * 0real == 0real);
    } else {
        let square: int = x.size() * one();
        assert(square >= one()) by (nonlinear_arith)
            requires
                square == x.size() * one(),
                x.size() >= 1,
                one() > 0,
        ;
        lemma_nearest_root_exists(square);
        let k: int = nearest_root(square);
        let m: int = magnitude(k);
        lemma_magnitude_increases(x.unsigned_bits(), 0x7ff0_0000_0000_0000);
        lemma_root_finite(k, square, x.size());
        lemma_root_size(k, square);
        assert(found.value() == m);
        let (v, w) = (m as real, x.size() as real);
        let r = fine(found);
        let n = fine(x);
        assert(square as real == w * o) by (nonlinear_arith)
            requires
                square == x.size() * one(),
                w == x.size() as real,
                o == one() as real,
        ;
        assert((m * m) as real == v * v) by (nonlinear_arith)
            requires
                v == m as real,
        ;
        assert((r * r) * (o * o) == v * v && n * (o * o) == w * o) by (nonlinear_arith)
            requires
                r * o == v,
                n * o == w,
        ;
        let e = 3real * tiny() * n;
        assert(e * (o * o) == (3real / 9000000000000000real) * (w * o)) by (nonlinear_arith)
            requires
                e == 3real * tiny() * n,
                tiny() == 1real / 9000000000000000real,
                n * (o * o) == w * o,
        ;
        let diff = r * r - n;
        assert(diff * (o * o) == (r * r) * (o * o) - n * (o * o)) by (nonlinear_arith)
            requires
                diff == r * r - n,
        ;
        assert(size(diff) <= e) by (nonlinear_arith)
            requires
                diff * (o * o) == v * v - w * o,
                v * v - w * o <= e * (o * o),
                w * o - v * v <= e * (o * o),
                diff == r * r - n,
                o > 0real,
        ;
    }
}

/// A rounded root lies by the exact one: its square is off by less than three
/// parts in nine thousand million million.
proof fn lemma_root_size(k: int, square: int)
    requires
        is_nearest_root(k, square),
        square >= one(),
        k < 0x7ff0_0000_0000_0000,
    ensures
        k > 0x10_0000_0000_0000,
        9000000000000000 * absolute(magnitude(k) * magnitude(k) - square) <= 3 * square,
{
    lemma_one();
    if k <= 0x10_0000_0000_0000 {
        lemma_first_magnitudes(k);
        lemma_first_magnitudes(k + 1);
        let high: int = magnitude(k) + magnitude(k + 1);
        assert(high * high < 1298074214633706907132624082305024) by (nonlinear_arith)
            requires
                0 <= high < 0x40_0000_0000_0000,
        ;
    }
    let (a, b, c) = (magnitude(k - 1), magnitude(k), magnitude(k + 1));
    lemma_spacing(k);
    lemma_spacing(k - 1);
    lemma_magnitude_sign(k - 1);
    lemma_magnitude_increases(k - 1, k);
    lemma_magnitude_increases(k, k + 1);
    let low: int = a + b;
    let high: int = b + c;
    let n: int = b * b;
    assert(low * 0x10_0000_0000_0000 >= b * 0x1f_ffff_ffff_ffff && high * 0x10_0000_0000_0000 <= b * 0x20_0000_0000_0001);
    assert((low * low) * 20282409603651670423947251286016 >= n * 81129638414606663681390495662081) by (nonlinear_arith)
        requires
            low * 0x10_0000_0000_0000 >= b * 0x1f_ffff_ffff_ffff,
            b >= 0,
            low >= 0,
            n == b * b,
    ;
    assert((high * high) * 20282409603651670423947251286016 <= n * 81129638414606699710187514626049) by (nonlinear_arith)
        requires
            high * 0x10_0000_0000_0000 <= b * 0x20_0000_0000_0001,
            b >= 0,
            high >= 0,
            n == b * b,
    ;
}

proof fn lemma_root_finite(k: int, square: int, size: int)
    requires
        is_nearest_root(k, square),
        square == size * one(),
        0 < size < magnitude(0x7ff0_0000_0000_0000),
    ensures
        k < 0x7ff0_0000_0000_0000,
{
    if k == 0x7ff0_0000_0000_0000 {
        lemma_power_encoding(0x7ff0_0000_0000_0000);
        let m: int = magnitude(k);
        let low: int = magnitude(k - 1) + m;
        lemma_magnitude_sign(k - 1);
        lemma_pow2_adds(1074, 1024);
        lemma2_to64();
    lemma2_to64_rest();
        lemma_pow2_adds(960, 64);
        lemma_pow2_pos(960);
        lemma_one();
        assert(pow2(1024) >= 8) by (nonlinear_arith)
            requires
                pow2(1024) == pow2(960) * pow2(64),
                pow2(960) > 0,
                pow2(64) >= 8,
        ;
        assert(m == one() * pow2(1024));
        assert(m >= 8 * one()) by (nonlinear_arith)
            requires
                m == one() * pow2(1024),
                pow2(1024) >= 8,
                one() > 0,
        ;
        assert(false) by (nonlinear_arith)
            requires
                low * low <= 4 * square,
                low >= m,
                square == size * one(),
                size < m,
                m >= 8 * one(),
                one() > 0,
        ;
    }
}

} // verus!
