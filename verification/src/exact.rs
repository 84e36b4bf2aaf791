//! The numbers that encodings stand for, and how far a rounded result lies from
//! the exact one.
use crate::arith::absolute;
use crate::arith::is_nearest_root;
use crate::arith::lemma_nearest_exists;
use crate::arith::lemma_nearest_root_exists;
use crate::arith::nearest;
use crate::arith::nearest_root;
use crate::convert::one;
use crate::error::lemma_first_magnitudes;
use crate::error::lemma_nearest_between;
use crate::error::lemma_nearest_error;
use crate::error::lemma_power_encoding;
use crate::error::lemma_spacing;
use crate::order::lemma_rounded_value;
use crate::order::lemma_sum_value;
use crate::scalar::lemma_magnitude_increases;
use crate::scalar::lemma_magnitude_sign;
use crate::scalar::lemma_negated;
use crate::scalar::magnitude;
use crate::scalar::Scalar;
use vstd::arithmetic::power2::lemma2_to64;
use vstd::arithmetic::power2::lemma2_to64_rest;
use vstd::arithmetic::power2::lemma_pow2_adds;
use vstd::arithmetic::power2::lemma_pow2_pos;
use vstd::arithmetic::power2::pow2;
use vstd::prelude::*;

verus! {

/// The number that an encoding stands for.
#[verifier::opaque]
pub open spec fn number(x: Scalar) -> real {
    x.value() as real / one() as real
}

/// The size of a number.
pub open spec fn size(r: real) -> real {
    if r < 0real {
        -r
    } else {
        r
    }
}

/// A bound on the relative error of one rounding: a little more than 2^-24.
pub open spec fn eps() -> real {
    1real / 16700000real
}

/// Bounds keep clear of the subnormal numbers: 2^-100.
pub open spec fn least() -> real {
    1real / 1267650600228229401496703205376real
}

/// Bounded numbers keep clear of overflow: 2^100.
pub open spec fn ample() -> real {
    1267650600228229401496703205376real
}

/// The encoding stands for a number within `e` of `r`.
pub open spec fn close(x: Scalar, r: real, e: real) -> bool {
    x.finite() && size(number(x) - r) <= e
}

/// A quotient moves by at most half a unit and its 2^-24th part when it is
/// rounded.
pub proof fn lemma_rounding(num: int, den: int)
    requires
        den > 0,
        num >= 0,
        num <= pow2(249) * den,
    ensures
        nearest(num, den) < 0x7f80_0000,
        0x200_0000 * absolute(magnitude(nearest(num, den)) * den - num) <= 2 * num + 0x100_0000
            * den,
{
    let k: int = nearest(num, den);
    lemma_power_encoding(0x7180_0000);
    lemma_magnitude_sign(0);
    assert(magnitude(0) * den == 0);
    lemma_nearest_between(num, den, 0, 0x7180_0000);
    if num >= 0x100_0000 * den {
        lemma_nearest_error(num, den);
    } else {
        lemma_first_magnitudes(0x100_0000);
        lemma_nearest_between(num, den, 0, 0x100_0000);
        lemma_nearest_exists(num, den);
        lemma_first_magnitudes(k);
        if k > 0 {
            lemma_first_magnitudes(k - 1);
            assert((magnitude(k - 1) + magnitude(k)) * den == 2 * (k * den) - den)
                by (nonlinear_arith)
                requires
                    magnitude(k - 1) == k - 1,
                    magnitude(k) == k,
            ;
        }
        if k < 0x100_0000 {
            lemma_first_magnitudes(k + 1);
            assert((magnitude(k) + magnitude(k + 1)) * den == 2 * (k * den) + den)
                by (nonlinear_arith)
                requires
                    magnitude(k + 1) == k + 1,
                    magnitude(k) == k,
            ;
        }
        assert(magnitude(k) * den == k * den);
    }
}

/// One is positive, and large among the units.
pub proof fn lemma_one()
    ensures
        one() as real == 713623846352979940529142984724747568191373312real,
        one() > 0,
        pow2(249) == pow2(100) * one(),
        pow2(100) as real == ample(),
        pow2(100) == 1267650600228229401496703205376int,
{
    lemma_pow2_adds(100, 149);
    lemma_pow2_adds(100, 49);
    lemma_pow2_adds(50, 50);
    lemma2_to64();
    lemma2_to64_rest();
    lemma_pow2_pos(49);
    assert(pow2(100) == 1267650600228229401496703205376int);
    assert(one() == 713623846352979940529142984724747568191373312int) by (nonlinear_arith)
        requires
            one() == pow2(100) * pow2(49),
            pow2(49) == 562949953421312,
            pow2(100) == 1267650600228229401496703205376int,
    ;
}

/// A rounded result in terms of numbers: `value / one` rounds `num / (den *
/// one)`.
pub proof fn lemma_error_of_number(value: int, num: int, den: int)
    requires
        den > 0,
        0x200_0000 * absolute(value * den - num) <= 2 * absolute(num) + 0x100_0000 * den,
    ensures
        ({
            let exact = num as real / (den as real * one() as real);
            size(value as real / one() as real - exact) <= size(exact) / 16777216real + 1real / (
            2real * one() as real)
        }),
{
    reveal(number);
    lemma_one();
    let d = den as real;
    let o = one() as real;
    let v = value as real;
    let n = num as real;
    let exact = n / (d * o);
    let found = v / o;
    assert((value * den) as real == v * d) by (nonlinear_arith)
        requires
            v == value as real,
            d == den as real,
    ;
    assert(exact * (d * o) == n && found * o == v && d * o > 0real) by (nonlinear_arith)
        requires
            exact == n / (d * o),
            found == v / o,
            d > 0real,
            o > 0real,
    ;
    let unit = 1real / (2real * o);
    assert(unit * (2real * o) == 1real) by (nonlinear_arith)
        requires
            unit == 1real / (2real * o),
            o > 0real,
    ;
    let diff = found - exact;
    assert(diff * (d * o) == v * d - n) by (nonlinear_arith)
        requires
            exact * (d * o) == n,
            found * o == v,
            diff == found - exact,
    ;
    let s = size(exact);
    assert(s * (d * o) == size(n)) by (nonlinear_arith)
        requires
            exact * (d * o) == n,
            d * o > 0real,
            s == size(exact),
    ;
    assert(33554432real * size(v * d - n) <= 2real * size(n) + 16777216real * d);
    let limit = s / 16777216real + unit;
    assert(limit * (d * o) == size(n) / 16777216real + d / 2real) by (nonlinear_arith)
        requires
            limit == s / 16777216real + unit,
            s * (d * o) == size(n),
            unit * (2real * o) == 1real,
    ;
    assert(size(diff) <= limit) by (nonlinear_arith)
        requires
            diff * (d * o) <= limit * (d * o),
            -(diff * (d * o)) <= limit * (d * o),
            d * o > 0real,
    ;
}

/// What a bound on the exact result leaves of an error.
pub proof fn lemma_bounded_error(exact: real, error: real, bound: real)
    requires
        size(exact) <= bound,
        least() <= bound,
        error <= size(exact) / 16777216real + 1real / (2real * one() as real),
    ensures
        error <= bound * eps(),
{
    lemma_one();
    let o = one() as real;
    let unit = 1real / (2real * o);
    assert(unit <= 1real / 1000000000000000000000000000000000000000000real) by (nonlinear_arith)
        requires
            unit == 1real / (2real * o),
            o > 1000000000000000000000000000000000000000000real,
    ;
    assert(bound * eps() == bound / 16700000real) by (nonlinear_arith)
        requires
            eps() == 1real / 16700000real,
    ;
}

proof fn lemma_number(x: Scalar)
    ensures
        number(x) * one() as real == x.value() as real,
        x.value() == 0 <==> number(x) == 0real,
        x.value() > 0 <==> number(x) > 0real,
{
    reveal(number);
    lemma_one();
    let o = one() as real;
    let v = x.value() as real;
    let r = number(x);
    assert(r * o == v && (v == 0real <==> r == 0real) && (v > 0real <==> r > 0real))
        by (nonlinear_arith)
        requires
            r == v / o,
            o > 0real,
    ;
}

/// The sum of bounded numbers.
pub proof fn lemma_sum_close(x: Scalar, y: Scalar, bound: real)
    requires
        x.finite(),
        y.finite(),
        size(number(x) + number(y)) <= bound,
        least() <= bound <= ample(),
    ensures
        close(x.sum(y), number(x) + number(y), bound * eps()),
{
    reveal(number);
    let total: int = x.value() + y.value();
    let t: int = absolute(total);
    let o = one() as real;
    lemma_one();
    lemma_number(x);
    lemma_number(y);
    let r = number(x) + number(y);
    assert(r * o == total as real) by (nonlinear_arith)
        requires
            number(x) * o == x.value() as real,
            number(y) * o == y.value() as real,
            r == number(x) + number(y),
            total as real == x.value() as real + y.value() as real,
    ;
    assert(t as real <= ample() * o) by (nonlinear_arith)
        requires
            r * o == total as real,
            size(r) <= ample(),
            t as real == size(total as real),
            o > 0real,
    ;
    assert((pow2(100) * one()) as real == ample() * o) by (nonlinear_arith)
        requires
            pow2(100) as real == ample(),
            o == one() as real,
    ;
    assert(t <= pow2(249) * 1);
    lemma_rounding(t, 1);
    lemma_sum_value(x, y);
    lemma_rounded_value(total < 0, t, 1);
    let found = x.sum(y);
    lemma_magnitude_sign(found.unsigned_bits());
    lemma_finite_size(found, nearest(t, 1));
    lemma_error_of_number(found.value(), total, 1);
    assert(total as real / (1real * o) == r) by (nonlinear_arith)
        requires
            r * o == total as real,
            o > 0real,
    ;
    lemma_bounded_error(r, size(number(found) - r), bound);
}

/// A number whose size is that of a finite encoding is finite.
pub proof fn lemma_finite_size(x: Scalar, k: int)
    requires
        0 <= k < 0x7f80_0000,
        x.size() == magnitude(k),
    ensures
        x.finite(),
{
    reveal(number);
    if x.unsigned_bits() > k {
        lemma_magnitude_increases(k, x.unsigned_bits());
    }
}

/// The difference of bounded numbers.
pub proof fn lemma_difference_close(x: Scalar, y: Scalar, bound: real)
    requires
        x.finite(),
        y.finite(),
        size(number(x) - number(y)) <= bound,
        least() <= bound <= ample(),
    ensures
        close(x.difference(y), number(x) - number(y), bound * eps()),
{
    reveal(number);
    reveal(Scalar::difference);
    lemma_negated(y);
    lemma_number(y);
    lemma_number(y.negated());
    lemma_one();
    let o = one() as real;
    assert(number(y.negated()) == -number(y)) by (nonlinear_arith)
        requires
            number(y.negated()) * o == -(number(y) * o),
            o > 0real,
    ;
    lemma_sum_close(x, y.negated(), bound);
}

/// The product of bounded numbers.
pub proof fn lemma_product_close(x: Scalar, y: Scalar, bound: real)
    requires
        x.finite(),
        y.finite(),
        size(number(x) * number(y)) <= bound,
        least() <= bound <= ample(),
    ensures
        close(x.product(y), number(x) * number(y), bound * eps()),
{
    reveal(number);
    let num: int = x.size() * y.size();
    let signed_num: int = x.value() * y.value();
    let o = one() as real;
    let (a, b) = (x.value() as real, y.value() as real);
    let r = number(x) * number(y);
    lemma_one();
    lemma_number(x);
    lemma_number(y);
    lemma_magnitude_sign(x.unsigned_bits());
    lemma_magnitude_sign(y.unsigned_bits());
    assert(num >= 0 && absolute(signed_num) == num && (x.negative() == y.negative() ==> signed_num
        == num) && (x.negative() != y.negative() ==> signed_num == -num)) by (nonlinear_arith)
        requires
            num == x.size() * y.size(),
            signed_num == x.value() * y.value(),
            x.size() >= 0,
            y.size() >= 0,
            x.value() == if x.negative() {
                -x.size()
            } else {
                x.size()
            },
            y.value() == if y.negative() {
                -y.size()
            } else {
                y.size()
            },
    ;
    assert(signed_num as real == a * b) by (nonlinear_arith)
        requires
            signed_num == x.value() * y.value(),
            a == x.value() as real,
            b == y.value() as real,
    ;
    assert(r * (o * o) == a * b) by (nonlinear_arith)
        requires
            number(x) * o == a,
            number(y) * o == b,
            r == number(x) * number(y),
    ;
    assert(num as real <= ample() * o * o) by (nonlinear_arith)
        requires
            r * (o * o) == signed_num as real,
            num as real == size(signed_num as real),
            size(r) <= ample(),
            o > 0real,
    ;
    assert((pow2(249) * one()) as real == ample() * o * o) by (nonlinear_arith)
        requires
            pow2(100) as real == ample(),
            pow2(249) == pow2(100) * one(),
            o == one() as real,
    ;
    lemma_rounding(num, one());
    let found = x.product(y);
    let negative = x.negative() != y.negative();
    reveal(Scalar::product);
    lemma_rounded_value(negative, num, one());
    lemma_magnitude_sign(found.unsigned_bits());
    lemma_finite_size(found, nearest(num, one()));
    assert(absolute(found.value() * one() - signed_num) == absolute(
        magnitude(nearest(num, one())) * one() - num,
    )) by (nonlinear_arith)
        requires
            found.value() == magnitude(nearest(num, one())) && signed_num == num || found.value()
                == -magnitude(nearest(num, one())) && signed_num == -num,
    ;
    lemma_error_of_number(found.value(), signed_num, one());
    assert(signed_num as real / (o * o) == r) by (nonlinear_arith)
        requires
            r * (o * o) == signed_num as real,
            o > 0real,
    ;
    lemma_bounded_error(r, size(number(found) - r), bound);
}

/// The quotient of bounded numbers.
pub proof fn lemma_quotient_close(x: Scalar, y: Scalar, bound: real)
    requires
        x.finite(),
        y.finite(),
        number(y) != 0real,
        size(number(x) / number(y)) <= bound,
        least() <= bound <= ample(),
    ensures
        close(x.quotient(y), number(x) / number(y), bound * eps()),
{
    reveal(number);
    let num: int = x.size() * one();
    let den: int = y.size();
    let negative = x.negative() != y.negative();
    let signed_num: int = if negative {
        -num
    } else {
        num
    };
    let o = one() as real;
    let (a, b) = (x.value() as real, y.value() as real);
    let r = number(x) / number(y);
    lemma_one();
    lemma_number(x);
    lemma_number(y);
    lemma_magnitude_sign(x.unsigned_bits());
    lemma_magnitude_sign(y.unsigned_bits());
    lemma_ratio(number(x), number(y), a, b, o);
    assert(r * b == a);
    assert(num >= 0 && num as real == x.size() as real * o) by (nonlinear_arith)
        requires
            num == x.size() * one(),
            x.size() >= 0,
            one() > 0,
            o == one() as real,
    ;
    let (p, q) = (x.size() as real, y.size() as real);
    assert(size(r) * q == p) by (nonlinear_arith)
        requires
            r * b == a,
            size(a) == p,
            size(b) == q,
            q > 0real,
    ;
    assert(num as real <= ample() * o * q) by (nonlinear_arith)
        requires
            num as real == p * o,
            size(r) * q == p,
            size(r) <= ample(),
            q > 0real,
            o > 0real,
    ;
    assert((pow2(249) * den) as real == ample() * o * q) by (nonlinear_arith)
        requires
            pow2(100) as real == ample(),
            pow2(249) == pow2(100) * one(),
            o == one() as real,
            q == den as real,
    ;
    lemma_rounding(num, den);
    let found = x.quotient(y);
    reveal(Scalar::quotient);
    lemma_rounded_value(negative, num, den);
    lemma_magnitude_sign(found.unsigned_bits());
    lemma_finite_size(found, nearest(num, den));
    assert(absolute(found.value() * den - signed_num) == absolute(
        magnitude(nearest(num, den)) * den - num,
    )) by (nonlinear_arith)
        requires
            found.value() == magnitude(nearest(num, den)) && signed_num == num || found.value()
                == -magnitude(nearest(num, den)) && signed_num == -num,
    ;
    lemma_error_of_number(found.value(), signed_num, den);
    assert(signed_num as real / (q * o) == r) by (nonlinear_arith)
        requires
            r * b == a,
            signed_num as real == if negative {
                -(p * o)
            } else {
                p * o
            },
            a == if x.negative() {
                -p
            } else {
                p
            },
            b == if y.negative() {
                -q
            } else {
                q
            },
            negative == (x.negative() != y.negative()),
            q > 0real,
            o > 0real,
    ;
    lemma_bounded_error(r, size(number(found) - r), bound);
}

proof fn lemma_ratio(x: real, y: real, a: real, b: real, o: real)
    requires
        x * o == a,
        y * o == b,
        o > 0real,
        y != 0real,
    ensures
        (x / y) * b == a,
{
    let r = x / y;
    assert(r * y == x) by (nonlinear_arith)
        requires
            r == x / y,
            y != 0real,
    ;
    assert(r * b == a) by (nonlinear_arith)
        requires
            r * y == x,
            x * o == a,
            y * o == b,
    ;
}

/// The square root of a number that is not negative: its square is the number,
/// to within two parts in 16.7 million.
pub proof fn lemma_root_close(x: Scalar)
    requires
        x.finite(),
        number(x) >= 0real,
    ensures
        x.square_root().finite(),
        number(x.square_root()) >= 0real,
        size(number(x.square_root()) * number(x.square_root()) - number(x)) <= 2real * eps()
            * number(x),
{
    reveal(number);
    let found = x.square_root();
    let o = one() as real;
    lemma_one();
    lemma_number(x);
    lemma_number(found);
    lemma_magnitude_sign(x.unsigned_bits());
    reveal(Scalar::square_root);
    if x.value() == 0 {
        assert(number(x) == 0real && number(found) == 0real);
        assert(0real * 0real == 0real);
    } else {
        let square: int = x.size() * one();
        assert(square >= one()) by (nonlinear_arith)
            requires
                square == x.size() * one(),
                x.size() >= 1,
                one() > 0,
        ;
        lemma_nearest_root_exists(square);
        let k: int = nearest_root(square);
        let m: int = magnitude(k);
        lemma_magnitude_increases(x.unsigned_bits(), 0x7f80_0000);
        lemma_root_finite(k, square, x.size());
        lemma_root_size(k, square);
        assert(found.value() == m);
        let (v, w) = (m as real, x.size() as real);
        let r = number(found);
        let n = number(x);
        assert(square as real == w * o) by (nonlinear_arith)
            requires
                square == x.size() * one(),
                w == x.size() as real,
                o == one() as real,
        ;
        assert((m * m) as real == v * v) by (nonlinear_arith)
            requires
                v == m as real,
        ;
        assert((r * r) * (o * o) == v * v && n * (o * o) == w * o) by (nonlinear_arith)
            requires
                r * o == v,
                n * o == w,
        ;
        let e = 2real * eps() * n;
        assert(e * (o * o) == (2real / 16700000real) * (w * o)) by (nonlinear_arith)
            requires
                e == 2real * eps() * n,
                eps() == 1real / 16700000real,
                n * (o * o) == w * o,
        ;
        let diff = r * r - n;
        assert(diff * (o * o) == (r * r) * (o * o) - n * (o * o)) by (nonlinear_arith)
            requires
                diff == r * r - n,
        ;
        assert(size(diff) <= e) by (nonlinear_arith)
            requires
                diff * (o * o) == v * v - w * o,
                v * v - w * o <= e * (o * o),
                w * o - v * v <= e * (o * o),
                diff == r * r - n,
                o > 0real,
        ;
    }
}

/// A rounded root lies by the exact one: its square is off by less than two
/// parts in 16.7 million.
proof fn lemma_root_size(k: int, square: int)
    requires
        is_nearest_root(k, square),
        square >= one(),
        k < 0x7f80_0000,
    ensures
        k > 0x80_0000,
        16700000 * absolute(magnitude(k) * magnitude(k) - square) <= 2 * square,
{
    lemma_one();
    if k <= 0x80_0000 {
        lemma_first_magnitudes(k);
        lemma_first_magnitudes(k + 1);
        let high: int = magnitude(k) + magnitude(k + 1);
        assert(high * high < 0x4_0000_0000_0000_0000) by (nonlinear_arith)
            requires
                0 <= high < 0x200_0000,
        ;
    }
    let (a, b, c) = (magnitude(k - 1), magnitude(k), magnitude(k + 1));
    lemma_spacing(k);
    lemma_spacing(k - 1);
    lemma_magnitude_sign(k - 1);
    lemma_magnitude_increases(k - 1, k);
    lemma_magnitude_increases(k, k + 1);
    let low: int = a + b;
    let high: int = b + c;
    let n: int = b * b;
    assert(low * 0x80_0000 >= b * 0xff_ffff && high * 0x80_0000 <= b * 0x100_0001);
    assert((low * low) * 0x4000_0000_0000 >= n * 281474943156225) by (nonlinear_arith)
        requires
            low * 0x80_0000 >= b * 0xff_ffff,
            b >= 0,
            low >= 0,
            n == b * b,
    ;
    assert((high * high) * 0x4000_0000_0000 <= n * 281475010265089) by (nonlinear_arith)
        requires
            high * 0x80_0000 <= b * 0x100_0001,
            b >= 0,
            high >= 0,
            n == b * b,
    ;
}

proof fn lemma_root_finite(k: int, square: int, size: int)
    requires
        is_nearest_root(k, square),
        square == size * one(),
        0 < size < magnitude(0x7f80_0000),
    ensures
        k < 0x7f80_0000,
{
    reveal(number);
    if k == 0x7f80_0000 {
        lemma_power_encoding(0x7f80_0000);
        let m: int = magnitude(k);
        let low: int = magnitude(k - 1) + m;
        lemma_magnitude_sign(k - 1);
        lemma_pow2_adds(149, 128);
        lemma2_to64();
        lemma_pow2_adds(64, 64);
        lemma_one();
        assert(m == one() * pow2(128));
        assert(m >= 8 * one()) by (nonlinear_arith)
            requires
                m == one() * pow2(128),
                pow2(128) >= 8,
                one() > 0,
        ;
        assert(false) by (nonlinear_arith)
            requires
                low * low <= 4 * square,
                low >= m,
                square == size * one(),
                size < m,
                m >= 8 * one(),
                one() > 0,
        ;
    }
}

} // verus!
