//! How the index of refraction of a glass falls with the wavelength.
use crate::convert::one as single_one;
use crate::double::lemma_magnitude_sign;
use crate::double::lemma_widened_exact;
use crate::double::one;
use crate::double::widened;
use crate::double::Double;
use crate::exact::close;
use crate::exact::eps;
use crate::exact::lemma_bounded_error;
use crate::exact::lemma_error_of_number;
use crate::exact::lemma_finite_size;
use crate::exact::lemma_rounding;
use crate::exact::number;
use crate::exact::size;
use crate::fine::fine;
use crate::fine::lemma_difference_close;
use crate::fine::lemma_product_close;
use crate::fine::lemma_quotient_close;
use crate::fine::lemma_root_close;
use crate::fine::lemma_sum_close;
use crate::fine::near;
use crate::fine::tiny;
use crate::order::lemma_rounded_value;
use crate::scalar::Scalar;
use crate::sellmeier::sellmeier_term;
use crate::sellmeier::squared_micrometres;
use crate::sellmeier::Dispersion;
use crate::sellmeier::BK7_B1_BITS;
use crate::sellmeier::BK7_B2_BITS;
use crate::sellmeier::BK7_B3_BITS;
use crate::sellmeier::BK7_C1_BITS;
use crate::sellmeier::BK7_C2_BITS;
use crate::sellmeier::BK7_C3_BITS;
use crate::sellmeier::DOUBLE_ONE_BITS;
use crate::sellmeier::SF11_B1_BITS;
use crate::sellmeier::SF11_B2_BITS;
use crate::sellmeier::SF11_B3_BITS;
use crate::sellmeier::SF11_C1_BITS;
use crate::sellmeier::SF11_C2_BITS;
use crate::sellmeier::SF11_C3_BITS;
use crate::sellmeier::THOUSAND_BITS;
use vstd::arithmetic::power2::lemma2_to64_rest;
use vstd::arithmetic::power2::lemma_pow2_adds;
use vstd::arithmetic::power2::lemma_pow2_pos;
use vstd::arithmetic::power2::lemma_pow2_strictly_increases;
use vstd::arithmetic::power2::pow2;
use vstd::prelude::*;

verus! {

/// The number that an encoding with exponent `e` and significand `s` stands
/// for.
proof fn lemma_fine_value(bits: u64, e: nat, s: int, scale: real)
    requires
        e <= 1074,
        scale == pow2((1074 - e) as nat) as real,
        0x10_0000_0000_0000 <= s < 0x20_0000_0000_0000,
        bits == e * 0x10_0000_0000_0000 + s,
    ensures
        (Double { bits }).finite(),
        fine(Double { bits }) == s as real / scale,
{
    reveal(fine);
    let x = Double { bits };
    let p: int = pow2(e) as int;
    let q: int = pow2((1074 - e) as nat) as int;
    assert(bits < 0x7ff0_0000_0000_0000);
    assert(bits as int / 0x10_0000_0000_0000 == e + 1);
    assert(bits as int % 0x10_0000_0000_0000 == s - 0x10_0000_0000_0000);
    assert(x.value() == s * p);
    lemma_pow2_adds(e, (1074 - e) as nat);
    lemma_pow2_pos(e);
    lemma_pow2_pos((1074 - e) as nat);
    let o = one() as real;
    let v = fine(x);
    assert((s * p) as real == s as real * p as real) by (nonlinear_arith);
    assert((p * q) as real == p as real * q as real) by (nonlinear_arith);
    assert(v == s as real / scale) by (nonlinear_arith)
        requires
            scale == q as real,
            v == (s as real * p as real) / (p as real * q as real),
            p as real > 0real,
            q as real > 0real,
    ;
}

/// The whole numbers that the formula uses.
proof fn lemma_units()
    ensures
        (Double { bits: THOUSAND_BITS }).finite(),
        fine(Double { bits: THOUSAND_BITS }) == 1000real,
        (Double { bits: DOUBLE_ONE_BITS }).finite(),
        fine(Double { bits: DOUBLE_ONE_BITS }) == 1real,
{
    lemma2_to64_rest();
    lemma_fine_value(THOUSAND_BITS, 1031, 8796093022208000, 8796093022208real);
    lemma_fine_value(DOUBLE_ONE_BITS, 1022, 4503599627370496, 4503599627370496real);
}

/// The coefficients of the crown glass.
pub proof fn lemma_crown()
    ensures
        are_of_glass(
            (
                fine(Double { bits: BK7_B1_BITS }),
                fine(Double { bits: BK7_B2_BITS }),
                fine(Double { bits: BK7_B3_BITS }),
            ),
            (
                fine(Double { bits: BK7_C1_BITS }),
                fine(Double { bits: BK7_C2_BITS }),
                fine(Double { bits: BK7_C3_BITS }),
            ),
        ),
        (Double { bits: BK7_B1_BITS }).finite(),
        103961210real / 100000000real <= fine(
            Double { bits: BK7_B1_BITS },
        ) <= 103961213real / 100000000real,
        (Double { bits: BK7_B2_BITS }).finite(),
        23179233real / 100000000real <= fine(
            Double { bits: BK7_B2_BITS },
        ) <= 23179236real / 100000000real,
        (Double { bits: BK7_B3_BITS }).finite(),
        101046944real / 100000000real <= fine(
            Double { bits: BK7_B3_BITS },
        ) <= 101046947real / 100000000real,
        (Double { bits: BK7_C1_BITS }).finite(),
        600068real / 100000000real <= fine(
            Double { bits: BK7_C1_BITS },
        ) <= 600071real / 100000000real,
        (Double { bits: BK7_C2_BITS }).finite(),
        2001790real / 100000000real <= fine(
            Double { bits: BK7_C2_BITS },
        ) <= 2001793real / 100000000real,
        (Double { bits: BK7_C3_BITS }).finite(),
        10356065299real / 100000000real <= fine(
            Double { bits: BK7_C3_BITS },
        ) <= 10356065302real / 100000000real,
{
    reveal(are_of_glass);
    lemma2_to64_rest();
    lemma_fine_value(BK7_B1_BITS, 1022, 4681996756241851, 4503599627370496real);
    lemma_fine_value(BK7_B2_BITS, 1019, 8351199312525871, 36028797018963968real);
    lemma_fine_value(BK7_B3_BITS, 1022, 4550749838489270, 4503599627370496real);
    lemma_fine_value(BK7_C1_BITS, 1014, 6918334539308706, 1152921504606846976real);
    lemma_fine_value(BK7_C2_BITS, 1016, 5769770997284767, 288230376151711744real);
    lemma_fine_value(BK7_C3_BITS, 1028, 7287433097828832, 70368744177664real);
}

/// The coefficients of the flint glass.
pub proof fn lemma_flint()
    ensures
        are_of_glass(
            (
                fine(Double { bits: SF11_B1_BITS }),
                fine(Double { bits: SF11_B2_BITS }),
                fine(Double { bits: SF11_B3_BITS }),
            ),
            (
                fine(Double { bits: SF11_C1_BITS }),
                fine(Double { bits: SF11_C2_BITS }),
                fine(Double { bits: SF11_C3_BITS }),
            ),
        ),
        (Double { bits: SF11_B1_BITS }).finite(),
        173759694real / 100000000real <= fine(
            Double { bits: SF11_B1_BITS },
        ) <= 173759697real / 100000000real,
        (Double { bits: SF11_B2_BITS }).finite(),
        31374733real / 100000000real <= fine(
            Double { bits: SF11_B2_BITS },
        ) <= 31374736real / 100000000real,
        (Double { bits: SF11_B3_BITS }).finite(),
        189878100real / 100000000real <= fine(
            Double { bits: SF11_B3_BITS },
        ) <= 189878103real / 100000000real,
        (Double { bits: SF11_C1_BITS }).finite(),
        1318869real / 100000000real <= fine(
            Double { bits: SF11_C1_BITS },
        ) <= 1318872real / 100000000real,
        (Double { bits: SF11_C2_BITS }).finite(),
        6230680real / 100000000real <= fine(
            Double { bits: SF11_C2_BITS },
        ) <= 6230683real / 100000000real,
        (Double { bits: SF11_C3_BITS }).finite(),
        15523628999real / 100000000real <= fine(
            Double { bits: SF11_C3_BITS },
        ) <= 15523629002real / 100000000real,
{
    reveal(are_of_glass);
    lemma2_to64_rest();
    lemma_fine_value(SF11_B1_BITS, 1022, 7825440976540110, 4503599627370496real);
    lemma_fine_value(SF11_B2_BITS, 1020, 5651969722136328, 18014398509481984real);
    lemma_fine_value(SF11_B3_BITS, 1022, 8551349449094174, 4503599627370496real);
    lemma_fine_value(SF11_C1_BITS, 1015, 7602771959129427, 576460752303423488real);
    lemma_fine_value(SF11_C2_BITS, 1017, 8979358246840407, 144115188075855872real);
    lemma_fine_value(SF11_C3_BITS, 1029, 5461891389049830, 35184372088832real);
}

/// A number in single precision is the same number in double precision.
proof fn lemma_widened_number(x: Scalar)
    requires
        x.finite(),
    ensures
        widened(x).finite(),
        fine(widened(x)) == number(x),
{
    reveal(number);
    reveal(fine);
    lemma_widened_exact(x);
    let w: int = pow2(925) as int;
    lemma_pow2_adds(149, 925);
    lemma_pow2_pos(149);
    lemma_pow2_pos(925);
    let v: int = x.value();
    assert((v * w) as real == v as real * w as real) by (nonlinear_arith);
    assert((single_one() * w) as real == single_one() as real * w as real) by (nonlinear_arith);
    assert((v as real * w as real) / (single_one() as real * w as real) == v as real
        / single_one() as real) by (nonlinear_arith)
        requires
            w as real > 0real,
            single_one() as real > 0real,
    ;
}

/// Rounding to single precision moves a number by a relative 2^-24.
proof fn lemma_narrowed_close(x: Double, bound: real)
    requires
        x.finite(),
        0real < fine(x) <= bound,
        1real <= bound <= 1000real,
    ensures
        close(x.narrowed(), fine(x), bound * eps()),
{
    reveal(number);
    reveal(fine);
    let w: int = pow2(925) as int;
    let num: int = x.size();
    lemma_pow2_adds(149, 925);
    lemma_pow2_adds(10, 1074);
    lemma_pow2_adds(249, 925);
    lemma_pow2_strictly_increases(1084, 1174);
    lemma_pow2_pos(149);
    lemma_pow2_pos(925);
    lemma_pow2_pos(1074);
    vstd::arithmetic::power2::lemma2_to64();
    let o = one() as real;
    lemma_magnitude_sign(x.unsigned_bits());
    assert(x.value() as real == fine(x) * o) by (nonlinear_arith)
        requires
            fine(x) == x.value() as real / o,
            o > 0real,
    ;
    assert(0real < fine(x) * o <= 1000real * o) by (nonlinear_arith)
        requires
            0real < fine(x) <= 1000real,
            o > 0real,
    ;
    assert(!x.negative() && num == x.value());
    assert(num <= 1024 * one());
    lemma_rounding(num, w);
    lemma_rounded_value(false, num, w);
    let r = x.narrowed();
    lemma_finite_size(r, crate::arith::nearest(num, w));
    lemma_error_of_number(r.value(), num, w);
    assert((single_one() * w) as real == single_one() as real * w as real) by (nonlinear_arith);
    lemma_bounded_error(fine(x), size(number(r) - fine(x)), bound);
}

/// Wavelengths in the range where the coefficients hold, in nanometres.
pub open spec fn is_visible(lambda: Scalar) -> bool {
    lambda.finite() && 380real <= number(lambda) <= 730real
}

/// The square of the wavelength in micrometres, to within a little.
proof fn lemma_square_close(lambda: Scalar)
    requires
        is_visible(lambda),
    ensures
        near(
            squared_micrometres(lambda),
            number(lambda) * number(lambda) / 1000000real,
            4real * tiny(),
        ),
        1443999real / 10000000real <= fine(
            squared_micrometres(lambda),
        ) <= 5329001real / 10000000real,
{
    let w = widened(lambda);
    let t = Double { bits: THOUSAND_BITS };
    let l = w.quotient(t);
    let n = number(lambda);
    lemma_widened_number(lambda);
    lemma_units();
    assert(fine(w) / fine(t) == n / 1000real);
    lemma_quotient_close(w, t, 1real);
    let a = fine(l);
    let e = a - n / 1000real;
    assert(size(e) <= tiny());
    lemma_unit_square(a);
    lemma_product_close(l, l, 1real);
    lemma_square_of_sum(n, e);
    lemma_square_range(n);
}

proof fn lemma_unit_square(a: real)
    requires
        0real <= a <= 1real,
    ensures
        0real <= a * a <= 1real,
{
    assert(0real <= a * a <= 1real) by (nonlinear_arith)
        requires
            0real <= a <= 1real,
    ;
}

proof fn lemma_square_of_sum(n: real, e: real)
    requires
        380real <= n <= 730real,
        size(e) <= tiny(),
    ensures
        size((n / 1000real + e) * (n / 1000real + e) - n * n / 1000000real) <= 3real * tiny(),
{
    let h = n / 1000real;
    assert(h * h == n * n / 1000000real) by (nonlinear_arith)
        requires
            h == n / 1000real,
    ;
    assert((h + e) * (h + e) == h * h + 2real * (h * e) + e * e) by (nonlinear_arith);
    assert(-tiny() <= h * e <= tiny()) by (nonlinear_arith)
        requires
            0real <= h <= 1real,
            -tiny() <= e <= tiny(),
    ;
    assert(0real <= e * e <= tiny()) by (nonlinear_arith)
        requires
            -tiny() <= e <= tiny(),
            tiny() <= 1real,
    ;
}

proof fn lemma_square_range(n: real)
    requires
        380real <= n <= 730real,
    ensures
        144400real <= n * n <= 532900real,
{
    assert(144400real <= n * n <= 532900real) by (nonlinear_arith)
        requires
            380real <= n <= 730real,
    ;
}

/// Distinct wavelengths have squares well apart.
pub proof fn lemma_squares_apart(l1: Scalar, l2: Scalar)
    requires
        is_visible(l1),
        is_visible(l2),
        number(l1) + 1real <= number(l2),
    ensures
        fine(squared_micrometres(l1)) + 7real / 10000real <= fine(squared_micrometres(l2)),
{
    let (a, b) = (number(l1), number(l2));
    lemma_square_close(l1);
    lemma_square_close(l2);
    assert(b * b >= a * a + 760real) by (nonlinear_arith)
        requires
            a + 1real <= b,
            380real <= a,
    ;
}

/// One term of the dispersion formula in exact arithmetic.
#[verifier::opaque]
pub open spec fn exact_term(b: real, c: real, l: real) -> real {
    b * l / (l - c)
}

/// The squares of the wavelengths at which the formula is used.
pub open spec fn in_range(l: real) -> bool {
    1443999real / 10000000real <= l <= 5329001real / 10000000real
}

/// The resonance lies below the visible range.
pub open spec fn resonates_below(c: real) -> bool {
    5real / 1000real <= c <= 63real / 1000real
}

/// The resonance lies far above the visible range.
pub open spec fn resonates_above(c: real) -> bool {
    100real <= c <= 160real
}

proof fn lemma_exact_term(b: real, c: real, l: real)
    requires
        0real < b <= 2real,
        in_range(l),
        resonates_below(c) || resonates_above(c),
    ensures
        exact_term(b, c, l) * (l - c) == b * l,
        0real < b * l <= 2real,
        resonates_below(c) ==> b <= exact_term(b, c, l) <= 14real,
        resonates_above(c) ==> -2real / 100real <= exact_term(b, c, l) < 0real,
{
    reveal(exact_term);
    let t = exact_term(b, c, l);
    let d = l - c;
    let p = b * l;
    assert(t * d == p) by (nonlinear_arith)
        requires
            t == p / d,
            d != 0real,
    ;
    assert(0real < p <= 2real * l) by (nonlinear_arith)
        requires
            p == b * l,
            0real < b <= 2real,
            0real < l,
    ;
    if resonates_below(c) {
        assert(b * d <= p) by (nonlinear_arith)
            requires
                p == b * l,
                d <= l,
                0real < b,
        ;
        assert(t >= b) by (nonlinear_arith)
            requires
                b * d <= t * d,
                d > 0real,
        ;
        assert(t <= 14real) by (nonlinear_arith)
            requires
                t * d <= 14real * d,
                d > 0real,
        ;
    } else {
        assert(t < 0real) by (nonlinear_arith)
            requires
                t * d > 0real,
                d < 0real,
        ;
        assert(t >= -2real / 100real) by (nonlinear_arith)
            requires
                t * d <= 11real / 10real,
                d <= -99real,
        ;
    }
}

/// A quotient of perturbed numbers.
proof fn lemma_perturbed_quotient(t: real, d: real, e1: real, e2: real, e: real)
    requires
        size(d + e2) >= 8real / 100real,
        size(e1 - t * e2) <= e,
    ensures
        size((t * d + e1) / (d + e2) - t) <= 13real * e,
{
    let p = t * d + e1;
    let q = d + e2;
    let u = p / q;
    assert(u * q == p) by (nonlinear_arith)
        requires
            u == p / q,
            q != 0real,
    ;
    let x = u - t;
    assert(x * q == e1 - t * e2) by (nonlinear_arith)
        requires
            u * q == p,
            p == t * d + e1,
            q == d + e2,
            x == u - t,
    ;
    assert(-13real * e <= x <= 13real * e) by (nonlinear_arith)
        requires
            -e <= x * q <= e,
            q >= 8real / 100real || q <= -8real / 100real,
    ;
}

proof fn lemma_small_factor(t: real, e: real, bound: real, limit: real)
    requires
        size(t) <= bound,
        size(e) <= limit,
    ensures
        size(t * e) <= bound * limit,
{
    assert(-(bound * limit) <= t * e <= bound * limit) by (nonlinear_arith)
        requires
            -bound <= t <= bound,
            -limit <= e <= limit,
    ;
}

/// One computed term of the dispersion formula.
proof fn lemma_term_close(b: Double, c: Double, l: Double)
    requires
        b.finite(),
        c.finite(),
        l.finite(),
        0real < fine(b) <= 2real,
        in_range(fine(l)),
        resonates_below(fine(c)) || resonates_above(fine(c)),
    ensures
        near(
            sellmeier_term(b, c, l),
            exact_term(fine(b), fine(c), fine(l)),
            1000real * tiny(),
        ),
{
    let d = fine(l) - fine(c);
    let t = exact_term(fine(b), fine(c), fine(l));
    let p = b.product(l);
    let q = l.difference(c);
    lemma_exact_term(fine(b), fine(c), fine(l));
    lemma_product_close(b, l, 2real);
    let e1 = fine(p) - t * d;
    let e2 = fine(q) - d;
    if resonates_below(fine(c)) {
        lemma_difference_close(l, c, 1real);
        lemma_small_factor(t, e2, 14real, tiny());
    } else {
        lemma_difference_close(l, c, 160real);
        lemma_small_factor(t, e2, 2real / 100real, 160real * tiny());
    }
    lemma_perturbed_quotient(t, d, e1, e2, 18real * tiny());
    assert(fine(p) / fine(q) == (t * d + e1) / (d + e2));
    lemma_quotient_close(p, q, 15real);
}

/// The dispersion formula in exact arithmetic.
#[verifier::opaque]
pub open spec fn exact_square(b: (real, real, real), c: (real, real, real), l: real) -> real {
    1real + exact_term(b.0, c.0, l) + exact_term(b.1, c.1, l) + exact_term(b.2, c.2, l)
}

/// Coefficients with two resonances below the visible range and one above.
pub open spec fn are_coefficients(b: (real, real, real), c: (real, real, real)) -> bool {
    &&& 0real < b.0 <= 2real
    &&& 0real < b.1 <= 2real
    &&& 0real < b.2 <= 2real
    &&& resonates_below(c.0)
    &&& resonates_below(c.1)
    &&& resonates_above(c.2)
}

/// The square of the computed index.
proof fn lemma_index_close(
    b1: Double,
    b2: Double,
    b3: Double,
    c1: Double,
    c2: Double,
    c3: Double,
    l: Double,
)
    requires
        b1.finite() && b2.finite() && b3.finite() && c1.finite() && c2.finite() && c3.finite(),
        l.finite(),
        in_range(fine(l)),
        are_coefficients((fine(b1), fine(b2), fine(b3)), (fine(c1), fine(c2), fine(c3))),
    ensures
        ({
            let n = (Dispersion::Sellmeier { b1, b2, b3, c1, c2, c3 }).index(l);
            let exact = exact_square(
                (fine(b1), fine(b2), fine(b3)),
                (fine(c1), fine(c2), fine(c3)),
                fine(l),
            );
            n.finite() && fine(n) >= 0real && size(fine(n) * fine(n) - exact) <= 4000real * tiny()
        }),
{
    reveal(exact_square);
    let (t1, t2, t3) = (
        sellmeier_term(b1, c1, l),
        sellmeier_term(b2, c2, l),
        sellmeier_term(b3, c3, l),
    );
    lemma_term_close(b1, c1, l);
    lemma_term_close(b2, c2, l);
    lemma_term_close(b3, c3, l);
    lemma_exact_term(fine(b1), fine(c1), fine(l));
    lemma_exact_term(fine(b2), fine(c2), fine(l));
    lemma_exact_term(fine(b3), fine(c3), fine(l));
    lemma_sum_close(t1, t2, 30real);
    lemma_sum_close(t1.sum(t2), t3, 30real);
    lemma_units();
    let unit = Double { bits: DOUBLE_ONE_BITS };
    let terms = t1.sum(t2).sum(t3);
    lemma_sum_close(unit, terms, 30real);
    let square = unit.sum(terms);
    assert(0real <= fine(square) <= 31real);
    lemma_root_close(square);
    assert(3real * tiny() * fine(square) <= 3real * tiny() * 31real) by (nonlinear_arith)
        requires
            fine(square) <= 31real,
            tiny() > 0real,
    ;
}

/// How a term falls.
proof fn lemma_term_falls(b: real, c: real, l1: real, l2: real)
    requires
        0real < b <= 2real,
        in_range(l1),
        in_range(l2),
        l1 < l2,
        resonates_below(c) || resonates_above(c),
    ensures
        (exact_term(b, c, l1) - exact_term(b, c, l2)) * ((l1 - c) * (l2 - c)) == b * c * (l2 - l1),
        (l1 - c) * (l2 - c) > 0real,
        exact_term(b, c, l1) > exact_term(b, c, l2),
{
    let (t1, t2) = (exact_term(b, c, l1), exact_term(b, c, l2));
    let (d1, d2) = (l1 - c, l2 - c);
    lemma_exact_term(b, c, l1);
    lemma_exact_term(b, c, l2);
    assert(t1 * (d1 * d2) == (b * l1) * d2) by (nonlinear_arith)
        requires
            t1 * d1 == b * l1,
    ;
    assert(t2 * (d1 * d2) == (b * l2) * d1) by (nonlinear_arith)
        requires
            t2 * d2 == b * l2,
    ;
    assert((t1 - t2) * (d1 * d2) == t1 * (d1 * d2) - t2 * (d1 * d2)) by (nonlinear_arith);
    assert((b * l1) * d2 - (b * l2) * d1 == b * c * (l2 - l1)) by (nonlinear_arith)
        requires
            d1 == l1 - c,
            d2 == l2 - c,
    ;
    let x = d1 * d2;
    assert(x > 0real) by (nonlinear_arith)
        requires
            x == d1 * d2,
            d1 > 0real && d2 > 0real || d1 < 0real && d2 < 0real,
    ;
    assert(b * c > 0real) by (nonlinear_arith)
        requires
            b > 0real,
            c > 0real,
    ;
    assert(b * c * (l2 - l1) > 0real) by (nonlinear_arith)
        requires
            b * c > 0real,
            l2 - l1 > 0real,
    ;
    let f = t1 - t2;
    assert(f > 0real) by (nonlinear_arith)
        requires
            f * x > 0real,
            x > 0real,
    ;
}

/// A stronger resonance nearer to the visible range makes a term fall faster.
proof fn lemma_terms_compare(b: real, c: real, bb: real, cc: real, l1: real, l2: real)
    requires
        0real < b <= 2real,
        0real < bb <= 2real,
        in_range(l1),
        in_range(l2),
        l1 < l2,
        resonates_below(c),
        resonates_below(cc),
        c <= cc,
        36real / 10real * (b * c) <= bb * cc,
    ensures
        36real / 10real * (exact_term(b, c, l1) - exact_term(b, c, l2)) <= exact_term(bb, cc, l1)
            - exact_term(bb, cc, l2),
{
    lemma_term_falls(b, c, l1, l2);
    lemma_term_falls(bb, cc, l1, l2);
    let f = exact_term(b, c, l1) - exact_term(b, c, l2);
    let g = exact_term(bb, cc, l1) - exact_term(bb, cc, l2);
    let x = (l1 - c) * (l2 - c);
    let y = (l1 - cc) * (l2 - cc);
    let (k, kk, w) = (b * c, bb * cc, l2 - l1);
    assert(y <= x) by (nonlinear_arith)
        requires
            x == (l1 - c) * (l2 - c),
            y == (l1 - cc) * (l2 - cc),
            0real < l1 - cc <= l1 - c,
            0real < l2 - cc <= l2 - c,
    ;
    assert(36real / 10real * (k * w) <= kk * w) by (nonlinear_arith)
        requires
            36real / 10real * k <= kk,
            w > 0real,
    ;
    assert(f * y <= f * x) by (nonlinear_arith)
        requires
            y <= x,
            f > 0real,
    ;
    let h = 36real / 10real * f;
    assert(h * y == 36real / 10real * (f * y)) by (nonlinear_arith)
        requires
            h == 36real / 10real * f,
    ;
    assert(h <= g) by (nonlinear_arith)
        requires
            h * y <= g * y,
            y > 0real,
    ;
}

/// A term with a resonance below the visible range falls at least as fast as
/// its coefficients tell.
proof fn lemma_term_falls_fast(b: real, c: real, l1: real, l2: real, k: real)
    requires
        0real < b <= 2real,
        in_range(l1),
        in_range(l2),
        l1 < l2,
        resonates_below(c),
        k <= b * c,
    ensures
        k * (l2 - l1) <= 2842real / 10000real * (exact_term(b, c, l1) - exact_term(b, c, l2)),
{
    lemma_term_falls(b, c, l1, l2);
    let f = exact_term(b, c, l1) - exact_term(b, c, l2);
    let x = (l1 - c) * (l2 - c);
    let m = 5329001real / 10000000real;
    assert(x <= m * m) by (nonlinear_arith)
        requires
            x == (l1 - c) * (l2 - c),
            0real < l1 - c <= m,
            0real < l2 - c <= m,
    ;
    assert(f * x <= f * (2842real / 10000real)) by (nonlinear_arith)
        requires
            x <= 2842real / 10000real,
            f > 0real,
    ;
    let (w, p) = (l2 - l1, b * c);
    assert(k * w <= p * w) by (nonlinear_arith)
        requires
            k <= p,
            w > 0real,
    ;
}

/// A term with a resonance far above falls slowly.
proof fn lemma_term_falls_slowly(b: real, c: real, l1: real, l2: real)
    requires
        0real < b <= 102real / 100real,
        in_range(l1),
        in_range(l2),
        l1 < l2,
        103real <= c <= 104real,
    ensures
        exact_term(b, c, l1) - exact_term(b, c, l2) <= 11real / 1000real * (l2 - l1),
{
    lemma_term_falls(b, c, l1, l2);
    let f = exact_term(b, c, l1) - exact_term(b, c, l2);
    let (d1, d2) = (c - l1, c - l2);
    let x = (l1 - c) * (l2 - c);
    assert(x >= 10404real) by (nonlinear_arith)
        requires
            x == (l1 - c) * (l2 - c),
            c - l1 >= 102real,
            c - l2 >= 102real,
    ;
    let (w, p) = (l2 - l1, b * c);
    assert(p <= 102real / 100real * 104real) by (nonlinear_arith)
        requires
            p == b * c,
            0real < b <= 102real / 100real,
            0real < c <= 104real,
    ;
    assert(p * w <= 107real * w) by (nonlinear_arith)
        requires
            p <= 107real,
            w > 0real,
    ;
    assert(f * 10404real <= f * x) by (nonlinear_arith)
        requires
            x >= 10404real,
            f > 0real,
    ;
}

/// The resonances of one glass are stronger than those of the other, and
/// nearer to the visible range.
#[verifier::opaque]
pub open spec fn are_stronger(
    b: (real, real, real),
    c: (real, real, real),
    f: (real, real, real),
    g: (real, real, real),
) -> bool {
    &&& 62real / 10000real <= b.0 * c.0
    &&& 46real / 10000real <= b.1 * c.1
    &&& 36real / 10real * (b.0 * c.0) <= f.0 * g.0
    &&& 36real / 10real * (b.1 * c.1) <= f.1 * g.1
    &&& c.0 <= g.0
    &&& c.1 <= g.1
    &&& b.2 <= 102real / 100real
    &&& 103real <= c.2 <= 104real
}

/// The strengths of the resonances of the crown.
proof fn lemma_crown_strengths()
    ensures
        62real / 10000real <= fine(Double { bits: BK7_B1_BITS }) * fine(
            Double { bits: BK7_C1_BITS },
        ) <= 63real / 10000real,
        46real / 10000real <= fine(Double { bits: BK7_B2_BITS }) * fine(
            Double { bits: BK7_C2_BITS },
        ) <= 47real / 10000real,
{
    lemma_crown();
    lemma_product_range(
        fine(Double { bits: BK7_B1_BITS }),
        fine(Double { bits: BK7_C1_BITS }),
        1039real / 1000real,
        104real / 100real,
        60006real / 10000000real,
        6001real / 1000000real,
    );
    lemma_product_range(
        fine(Double { bits: BK7_B2_BITS }),
        fine(Double { bits: BK7_C2_BITS }),
        2317real / 10000real,
        2319real / 10000real,
        20017real / 1000000real,
        2002real / 100000real,
    );
}

/// The strengths of the resonances of the flint.
proof fn lemma_flint_strengths()
    ensures
        229real / 10000real <= fine(Double { bits: SF11_B1_BITS }) * fine(
            Double { bits: SF11_C1_BITS },
        ),
        195real / 10000real <= fine(Double { bits: SF11_B2_BITS }) * fine(
            Double { bits: SF11_C2_BITS },
        ),
{
    lemma_flint();
    lemma_product_range(
        fine(Double { bits: SF11_B1_BITS }),
        fine(Double { bits: SF11_C1_BITS }),
        1737real / 1000real,
        174real / 100real,
        13188real / 1000000real,
        1319real / 100000real,
    );
    lemma_product_range(
        fine(Double { bits: SF11_B2_BITS }),
        fine(Double { bits: SF11_C2_BITS }),
        3137real / 10000real,
        314real / 1000real,
        623real / 10000real,
        6231real / 100000real,
    );
}

/// Those of the flint are stronger than those of the crown.
pub proof fn lemma_strengths()
    ensures
        are_stronger(
            (
                fine(Double { bits: BK7_B1_BITS }),
                fine(Double { bits: BK7_B2_BITS }),
                fine(Double { bits: BK7_B3_BITS }),
            ),
            (
                fine(Double { bits: BK7_C1_BITS }),
                fine(Double { bits: BK7_C2_BITS }),
                fine(Double { bits: BK7_C3_BITS }),
            ),
            (
                fine(Double { bits: SF11_B1_BITS }),
                fine(Double { bits: SF11_B2_BITS }),
                fine(Double { bits: SF11_B3_BITS }),
            ),
            (
                fine(Double { bits: SF11_C1_BITS }),
                fine(Double { bits: SF11_C2_BITS }),
                fine(Double { bits: SF11_C3_BITS }),
            ),
        ),
{
    reveal(are_stronger);
    lemma_crown();
    lemma_flint();
    lemma_crown_strengths();
    lemma_flint_strengths();
}

proof fn lemma_times(a: real, b: real, k: real)
    requires
        a <= b,
        k >= 0real,
    ensures
        a * k <= b * k,
        k * a <= k * b,
{
    assert(a * k <= b * k && k * a <= k * b) by (nonlinear_arith)
        requires
            a <= b,
            k >= 0real,
    ;
}

proof fn lemma_product_range(b: real, c: real, b0: real, b1: real, c0: real, c1: real)
    requires
        0real <= b0 <= b <= b1,
        0real <= c0 <= c <= c1,
    ensures
        b0 * c0 <= b * c <= b1 * c1,
{
    lemma_times(b0, b, c0);
    lemma_times(c0, c, b);
    lemma_times(b, b1, c);
    lemma_times(c, c1, b1);
}

proof fn lemma_times_less(a: real, b: real, k: real)
    requires
        a < b,
        k > 0real,
    ensures
        a * k < b * k,
        k * a < k * b,
{
    assert(a * k < b * k && k * a < k * b) by (nonlinear_arith)
        requires
            a < b,
            k > 0real,
    ;
}

proof fn lemma_sum_times(k: real, a: real, b: real)
    ensures
        k * (a + b) == k * a + k * b,
{
    assert(k * (a + b) == k * a + k * b) by (nonlinear_arith);
}

/// A term is largest at the shortest wavelength.
proof fn lemma_term_bound(b: real, c: real, l: real, limit: real)
    requires
        0real < b <= 2real,
        in_range(l),
        resonates_below(c),
        b * (1443999real / 10000000real) <= limit * (1443999real / 10000000real - c),
        b <= limit,
    ensures
        exact_term(b, c, l) <= limit,
{
    lemma_exact_term(b, c, l);
    let t = exact_term(b, c, l);
    let d = l - c;
    let m = 1443999real / 10000000real;
    let e = l - m;
    lemma_sum_times(b, m, e);
    lemma_sum_times(limit, m - c, e);
    lemma_times(b, limit, e);
    if t > limit {
        lemma_times_less(limit, t, d);
    }
}

/// A number whose square lies in a range.
proof fn lemma_root_range(m: real, low: real, high: real)
    requires
        m >= 0real,
        low >= 0real,
        high >= 0real,
        low * low <= m * m <= high * high,
    ensures
        low <= m <= high,
{
    if m < low {
        lemma_times(m, low, m);
        lemma_times_less(m, low, low);
    }
    if m > high {
        lemma_times(high, m, high);
        lemma_times_less(high, m, m);
    }
}

/// Numbers whose squares differ.
pub proof fn lemma_roots_apart(m1: real, m2: real)
    requires
        15real / 10real <= m1 <= 19real / 10real,
        15real / 10real <= m2 <= 19real / 10real,
        0real <= m1 * m1 - m2 * m2,
    ensures
        3real * (m1 - m2) <= m1 * m1 - m2 * m2 <= 38real / 10real * (m1 - m2),
{
    let x = m1 - m2;
    let s = m1 + m2;
    assert((m1 - m2) * (m1 + m2) == m1 * m1 - m2 * m2) by (nonlinear_arith);
    if x < 0real {
        lemma_times_less(x, 0real, s);
        assert(0real * s == 0real);
    }
    lemma_times(3real, s, x);
    lemma_times(s, 38real / 10real, x);
}

/// Coefficients of a glass whose index lies between 1.5 and 1.9.
#[verifier::opaque]
pub open spec fn are_of_glass(b: (real, real, real), c: (real, real, real)) -> bool {
    &&& 1039real / 1000real <= b.0 <= 174real / 100real
    &&& 2317real / 10000real <= b.1 <= 314real / 1000real
    &&& 0real < b.2 <= 2real
    &&& 6real / 1000real <= c.0 <= 1319real / 100000real
    &&& 2real / 100real <= c.1 <= 6231real / 100000real
    &&& resonates_above(c.2)
}

proof fn lemma_exact_range(b: (real, real, real), c: (real, real, real), l: real)
    requires
        are_of_glass(b, c),
        in_range(l),
    ensures
        225066real / 100000real <= exact_square(b, c, l) <= 352real / 100real,
{
    reveal(are_of_glass);
    reveal(exact_square);
    lemma_exact_term(b.0, c.0, l);
    lemma_exact_term(b.1, c.1, l);
    lemma_exact_term(b.2, c.2, l);
    lemma_term_bound(b.0, c.0, l, 195real / 100real);
    lemma_term_bound(b.1, c.1, l, 56real / 100real);
}

/// A computed root of a number that is known to a little.
#[verifier::opaque]
pub open spec fn is_root_of(n: Double, exact: real) -> bool {
    n.finite() && fine(n) >= 0real && size(fine(n) * fine(n) - exact) <= 4000real * tiny()
}

/// The computed index of such a glass.
proof fn lemma_computed_range(n: Double, exact: real)
    requires
        is_root_of(n, exact),
        225066real / 100000real <= exact <= 352real / 100real,
    ensures
        15real / 10real <= fine(n) <= 19real / 10real,
        close(n.narrowed(), fine(n), 2real * eps()),
{
    reveal(is_root_of);
    lemma_root_range(fine(n), 15real / 10real, 19real / 10real);
    lemma_narrowed_close(n, 2real);
}

/// The index in exact arithmetic, squared.
#[verifier::opaque]
pub open spec fn ideal_square(dispersion: Dispersion, l: real) -> real {
    match dispersion {
        Dispersion::Sellmeier { b1, b2, b3, c1, c2, c3 } => exact_square(
            (fine(b1), fine(b2), fine(b3)),
            (fine(c1), fine(c2), fine(c3)),
            l,
        ),
        Dispersion::Cauchy { .. } => 0real,
    }
}

/// Coefficients of a glass have their resonances outside the visible range.
proof fn lemma_glass_resonances(b: (real, real, real), c: (real, real, real))
    requires
        are_of_glass(b, c),
    ensures
        are_coefficients(b, c),
{
    reveal(are_of_glass);
}

/// The square of a visible wavelength lies in the range of the formula.
pub proof fn lemma_visible_square(lambda: Scalar)
    requires
        is_visible(lambda),
    ensures
        squared_micrometres(lambda).finite(),
        in_range(fine(squared_micrometres(lambda))),
{
    lemma_square_close(lambda);
}

/// How much the square of the index falls between two wavelengths.
pub proof fn lemma_squares_fall(
    b: (real, real, real),
    c: (real, real, real),
    f: (real, real, real),
    g: (real, real, real),
    l1: real,
    l2: real,
)
    requires
        are_of_glass(b, c),
        are_of_glass(f, g),
        are_stronger(b, c, f, g),
        in_range(l1),
        in_range(l2),
        l1 + 7real / 10000real <= l2,
    ensures
        exact_square(b, c, l1) - exact_square(b, c, l2) >= 26real / 1000000real,
        exact_square(f, g, l1) - exact_square(f, g, l2) >= 2real * (exact_square(b, c, l1)
            - exact_square(b, c, l2)),
{
    reveal(exact_square);
    reveal(are_of_glass);
    reveal(are_stronger);
    lemma_term_falls_fast(b.0, c.0, l1, l2, 62real / 10000real);
    lemma_term_falls_fast(b.1, c.1, l1, l2, 46real / 10000real);
    lemma_term_falls(b.2, c.2, l1, l2);
    lemma_term_falls_slowly(b.2, c.2, l1, l2);
    lemma_term_falls(f.2, g.2, l1, l2);
    lemma_terms_compare(b.0, c.0, f.0, g.0, l1, l2);
    lemma_terms_compare(b.1, c.1, f.1, g.1, l1, l2);
}

/// The computed index is a root of what the formula gives.
proof fn lemma_index_is_root(
    b1: Double,
    b2: Double,
    b3: Double,
    c1: Double,
    c2: Double,
    c3: Double,
    l: Double,
)
    requires
        b1.finite() && b2.finite() && b3.finite() && c1.finite() && c2.finite() && c3.finite(),
        are_of_glass((fine(b1), fine(b2), fine(b3)), (fine(c1), fine(c2), fine(c3))),
        l.finite(),
        in_range(fine(l)),
    ensures
        ({
            let d = Dispersion::Sellmeier { b1, b2, b3, c1, c2, c3 };
            is_root_of(d.index(l), ideal_square(d, fine(l)))
        }),
{
    reveal(ideal_square);
    reveal(is_root_of);
    lemma_glass_resonances((fine(b1), fine(b2), fine(b3)), (fine(c1), fine(c2), fine(c3)));
    lemma_index_close(b1, b2, b3, c1, c2, c3, l);
}

proof fn lemma_ideal_range(
    b1: Double,
    b2: Double,
    b3: Double,
    c1: Double,
    c2: Double,
    c3: Double,
    l: real,
)
    requires
        are_of_glass((fine(b1), fine(b2), fine(b3)), (fine(c1), fine(c2), fine(c3))),
        in_range(l),
    ensures
        225066real / 100000real <= ideal_square(
            Dispersion::Sellmeier { b1, b2, b3, c1, c2, c3 },
            l,
        ) <= 352real / 100real,
{
    reveal(ideal_square);
    lemma_exact_range((fine(b1), fine(b2), fine(b3)), (fine(c1), fine(c2), fine(c3)), l);
}

/// What is known of a glass at a wavelength: its index before it is rounded
/// squares to what the formula gives, and moves little when it is rounded.
#[verifier::opaque]
pub open spec fn is_index(d: Dispersion, lambda: Scalar) -> bool {
    let l = squared_micrometres(lambda);
    &&& is_root_of(d.index(l), ideal_square(d, fine(l)))
    &&& 15real / 10real <= fine(d.index(l)) <= 19real / 10real
    &&& close(d.index(l).narrowed(), fine(d.index(l)), 2real * eps())
}

pub proof fn lemma_sellmeier_index(
    b1: Double,
    b2: Double,
    b3: Double,
    c1: Double,
    c2: Double,
    c3: Double,
    lambda: Scalar,
)
    requires
        b1.finite() && b2.finite() && b3.finite() && c1.finite() && c2.finite() && c3.finite(),
        are_of_glass((fine(b1), fine(b2), fine(b3)), (fine(c1), fine(c2), fine(c3))),
        is_visible(lambda),
    ensures
        is_index(Dispersion::Sellmeier { b1, b2, b3, c1, c2, c3 }, lambda),
{
    reveal(is_index);
    let l = squared_micrometres(lambda);
    let d = Dispersion::Sellmeier { b1, b2, b3, c1, c2, c3 };
    lemma_visible_square(lambda);
    lemma_index_is_root(b1, b2, b3, c1, c2, c3, l);
    lemma_ideal_range(b1, b2, b3, c1, c2, c3, fine(l));
    lemma_computed_range(d.index(l), ideal_square(d, fine(l)));
}

} // verus!
