//! Where light is transmitted the reflectance stays below one, and where it is
//! not the reflectance is one.
use crate::convert::one;
use crate::exact::close;
use crate::exact::eps;
use crate::exact::lemma_difference_close;
use crate::exact::lemma_product_close;
use crate::exact::lemma_quotient_close;
use crate::exact::lemma_root_close;
use crate::exact::lemma_sum_close;
use crate::exact::number;
use crate::exact::size;
use crate::grazing::is_index;
use crate::grazing::lemma_polarisations;
use crate::grazing::transmittance;
use crate::optics::clamped_cosine;
use crate::optics::contrast;
use crate::optics::incidence;
use crate::optics::lemma_steep_sine;
use crate::optics::lemma_total_reflection_agrees;
use crate::optics::reflectance;
use crate::optics::refracted;
use crate::optics::transmitted_sine;
use crate::optics::HALF_BITS;
use crate::order::lemma_difference_sign;
use crate::order::lemma_one_size;
use crate::order::lemma_sum_sign;
use crate::scalar::lemma_magnitude_sign;
use crate::scalar::lemma_negated;
use crate::scalar::Scalar;
use crate::scalar::ONE_BITS;
use crate::snell::lemma_number_sign;
use crate::snell::lemma_small_product;
use crate::squares::lemma_square_near_one;
use crate::triple::lemma_eps;
use crate::triple::lemma_one_number;
use crate::vector::dot;
use crate::vector::Vector;
use vstd::arithmetic::power2::lemma2_to64;
use vstd::arithmetic::power2::lemma_pow2_adds;
use vstd::arithmetic::power2::lemma_pow2_pos;
use vstd::arithmetic::power2::lemma_pow2_unfold;
use vstd::prelude::*;

verus! {

/// The exact squared sine of transmission.
pub open spec fn sine_square(n1: Scalar, n2: Scalar, c: real) -> real {
    let ratio = number(n1) / number(n2);
    (ratio * ratio) * (1real - c * c)
}

/// A denser medium and a rarer one, at most 4096 times as rare.
pub open spec fn into_rarer(n1: Scalar, n2: Scalar) -> bool {
    &&& is_index(n1)
    &&& is_index(n2)
    &&& number(n2) < number(n1) <= 4096real * number(n2)
}

pub proof fn lemma_half_number()
    ensures
        number(Scalar { bits: HALF_BITS }) == 1real / 2real,
        (Scalar { bits: HALF_BITS }).finite(),
{
    reveal(number);
    lemma2_to64();
    lemma_pow2_adds(23, 125);
    lemma_pow2_unfold(149);
    lemma_pow2_pos(148);
    let half = Scalar { bits: HALF_BITS };
    assert(one() == 2 * half.value());
    let (v, o) = (half.value() as real, one() as real);
    assert((2 * half.value()) as real == 2real * v);
    assert(v / o == 1real / 2real) by (nonlinear_arith)
        requires
            o == 2real * v,
            v > 0real,
    ;
}

/// A cosine in its range is kept.
pub proof fn lemma_cosine_kept(c: Scalar)
    requires
        c.finite(),
        0real < number(c) <= 1real,
    ensures
        clamped_cosine(c) == c,
{
    reveal(number);
    lemma_number_sign(c);
    lemma_one_size();
    lemma_pow2_pos(149);
    lemma_magnitude_sign(0);
    let (v, o) = (c.value() as real, one() as real);
    assert(v <= o) by (nonlinear_arith)
        requires
            v / o <= 1real,
            o > 0real,
    ;
}

/// A difference from one that is positive tells that the number is below one.
pub proof fn lemma_below_one(s: Scalar)
    requires
        (Scalar { bits: ONE_BITS }).difference(s).finite(),
        number((Scalar { bits: ONE_BITS }).difference(s)) > 0real,
    ensures
        !(Scalar { bits: ONE_BITS }).at_most(s),
{
    let unit = Scalar { bits: ONE_BITS };
    reveal(Scalar::difference);
    lemma_number_sign(unit.difference(s));
    lemma_negated(s);
    lemma_one_size();
    if s.finite() {
        lemma_sum_sign(unit, s.negated());
    } else {
        reveal(Scalar::sum);
    }
}

/// The ratio of two indices, squared.
proof fn lemma_ratio_square(n1: Scalar, n2: Scalar)
    requires
        into_rarer(n1, n2),
    ensures
        ({
            let eta = n1.quotient(n2);
            let ratio = number(n1) / number(n2);
            let rr = ratio * ratio;
            &&& 1real < ratio <= 4096real
            &&& 1real < rr <= 16777216real
            &&& eta.product(eta).finite()
            &&& size(number(eta.product(eta)) - rr) <= (302real / 100real) * (rr / 16700000real)
        }),
{
    let e = 1real / 16700000real;
    assert(eps() == e);
    let (a, b) = (number(n1), number(n2));
    let ratio = a / b;
    assert(ratio * b == a) by (nonlinear_arith)
        requires
            ratio == a / b,
            b > 0real,
    ;
    assert(1real < ratio <= 4096real) by (nonlinear_arith)
        requires
            ratio * b == a,
            b < a <= 4096real * b,
            b > 0real,
    ;
    let rr = ratio * ratio;
    assert(1real < rr <= 16777216real) by (nonlinear_arith)
        requires
            rr == ratio * ratio,
            1real < ratio <= 4096real,
    ;
    lemma_quotient_close(n1, n2, ratio);
    lemma_eps(ratio);
    let eta = n1.quotient(n2);
    let h = number(eta);
    let d = h - ratio;
    let hh = h * h;
    assert(hh == rr + 2real * (ratio * d) + d * d) by (nonlinear_arith)
        requires
            hh == h * h,
            d == h - ratio,
            rr == ratio * ratio,
    ;
    assert(size(ratio * d) <= rr / 16700000real) by (nonlinear_arith)
        requires
            -(ratio / 16700000real) <= d <= ratio / 16700000real,
            ratio > 0real,
            rr == ratio * ratio,
    ;
    assert(0real <= d * d <= rr / 1670000000real) by (nonlinear_arith)
        requires
            -(ratio / 16700000real) <= d <= ratio / 16700000real,
            ratio > 0real,
            rr == ratio * ratio,
    ;
    lemma_product_close(eta, eta, hh);
    lemma_eps(hh);
}

/// A square near one is rounded finely: its error is a small part of the squared
/// sine.
proof fn lemma_fine_square(x: real, f: real)
    requires
        1real / 2real <= x <= 1real,
        size(f) <= 1real / 33554432real,
        size(f) <= (1real - x) * (1real - x),
    ensures
        size(f) <= (87real / 1000000real) * (1real - x * x),
{
    let d = 1real - x;
    let y = 1real - x * x;
    assert(y == d * (2real - d)) by (nonlinear_arith)
        requires
            y == 1real - x * x,
            d == 1real - x,
    ;
    let dd = d * d;
    if d <= 1739real / 10000000real {
        assert(dd <= (1739real / 10000000real) * d) by (nonlinear_arith)
            requires
                dd == d * d,
                0real <= d <= 1739real / 10000000real,
        ;
        assert(y == 2real * d - dd) by (nonlinear_arith)
            requires
                y == d * (2real - d),
                dd == d * d,
        ;
    } else {
        assert(y >= 34774real / 100000000real) by (nonlinear_arith)
            requires
                y == d * (2real - d),
                1739real / 10000000real <= d <= 1real / 2real,
        ;
    }
}

/// The square of a cosine, as it is rounded: its error is a small part of the
/// squared sine.
proof fn lemma_cosine_squared(c: Scalar)
    requires
        c.finite(),
        0real <= number(c) <= 1real,
    ensures
        c.product(c).finite(),
        size(number(c.product(c)) - number(c) * number(c)) <= (87real / 1000000real) * (1real
            - number(c) * number(c)),
{
    assert(eps() == 1real / 16700000real);
    let x = number(c);
    if x >= 1real / 2real {
        lemma_square_near_one(c);
        lemma_fine_square(x, number(c.product(c)) - x * x);
    } else {
        let xx = x * x;
        assert(0real <= xx <= 1real / 4real) by (nonlinear_arith)
            requires
                xx == x * x,
                0real <= x <= 1real / 2real,
        ;
        lemma_product_close(c, c, 1real);
        lemma_eps(1real);
    }
}

/// The squared sine of transmission, as it is computed.
proof fn lemma_sine_close(c: Scalar, n1: Scalar, n2: Scalar)
    requires
        into_rarer(n1, n2),
        c.finite(),
        0real <= number(c) <= 1real,
    ensures
        ({
            let s = transmitted_sine(n1.quotient(n2), c);
            let z = sine_square(n1, n2, number(c));
            &&& 0real <= z <= 16777216real
            &&& close(s, z, (88real / 1000000real) * z + 1real / 1000000000real)
        }),
{
    let e = 1real / 16700000real;
    assert(eps() == e);
    lemma_one_number();
    lemma_ratio_square(n1, n2);
    let unit = Scalar { bits: ONE_BITS };
    let eta = n1.quotient(n2);
    let ratio = number(n1) / number(n2);
    let rr = ratio * ratio;
    let p = eta.product(eta);
    let pn = number(p);
    let x = number(c);
    let xx = x * x;
    assert(0real <= xx <= 1real) by (nonlinear_arith)
        requires
            xx == x * x,
            0real <= x <= 1real,
    ;
    let y = 1real - xx;
    let z = rr * y;
    assert(0real <= z <= rr) by (nonlinear_arith)
        requires
            z == rr * y,
            rr > 0real,
            0real <= y <= 1real,
    ;
    lemma_cosine_squared(c);
    let q = c.product(c);
    let low = 1real / 1000000000000000000000000real;
    let wide = size(1real - number(q)) + low;
    lemma_difference_close(unit, q, wide);
    lemma_eps(wide);
    let m = unit.difference(q);
    let mn = number(m);
    // The error of the factor is a small part of it.
    let g = mn - y;
    let part = (871real / 10000000real) * y + low;
    assert(size(g) <= part);
    lemma_small_product(g, rr, part, rr);
    assert(rr * part == (871real / 10000000real) * (rr * y) + rr * low) by (nonlinear_arith)
        requires
            part == (871real / 10000000real) * y + low,
    ;
    let dp = pn - rr;
    let l = (302real / 100real) * e;
    assert(size(dp) <= l * rr) by {
        assert(l * rr == (302real / 100real) * (rr / 16700000real)) by (nonlinear_arith)
            requires
                l == (302real / 100real) * (1real / 16700000real),
        ;
    }
    let h = y + g;
    let wh = size(h);
    lemma_small_product(dp, h, l * rr, wh);
    assert(wh * (l * rr) == l * (rr * wh)) by (nonlinear_arith);
    assert(wh <= (1001real / 1000real) * y + low);
    let rw = rr * wh;
    assert(rw <= (1001real / 1000real) * (rr * y) + rr * low) by (nonlinear_arith)
        requires
            rw == rr * wh,
            wh <= (1001real / 1000real) * y + low,
            rr > 0real,
    ;
    assert(pn * mn == z + g * rr + dp * h) by (nonlinear_arith)
        requires
            z == rr * y,
            dp == pn - rr,
            g == mn - y,
            h == y + g,
    ;
    let rl = rr * low;
    assert(0real <= rl <= 1real / 100000000000000real) by (nonlinear_arith)
        requires
            rl == rr * low,
            0real <= rr <= 16777216real,
            low == 1real / 1000000000000000000000000real,
    ;
    let lw = l * rw;
    assert(lw <= (303real / 100real) * ((z + 1real / 100000000000000real) / 16700000real))
        by (nonlinear_arith)
        requires
            lw == l * rw,
            l == (302real / 100real) * (1real / 16700000real),
            rw <= (1001real / 1000real) * z + 1real / 100000000000000real,
            z >= 0real,
    ;
    let exact = pn * mn;
    let bound = size(exact) + 1real / 1000000000000real;
    lemma_product_close(p, m, bound);
    lemma_eps(bound);
}

/// A transmittance that is not small.
proof fn lemma_transmittance_not_small(t: real)
    requires
        1real / 300real <= t <= 1300000real,
    ensures
        transmittance(t) >= 1real / 400000real,
{
    let o = (1real + t) * (1real + t);
    let r = transmittance(t);
    assert(o > 0real && o <= 1600000real * t) by (nonlinear_arith)
        requires
            o == (1real + t) * (1real + t),
            1real / 300real <= t <= 1300000real,
    ;
    assert(r >= 1real / 400000real) by (nonlinear_arith)
        requires
            r == 4real * t / o,
            o > 0real,
            o <= 1600000real * t,
    ;
}

proof fn lemma_square_bounds(w: real, low: real, high: real)
    requires
        w >= 0real,
        low >= 0real,
        high >= 0real,
        low * low <= w * w <= high * high,
    ensures
        low <= w <= high,
{
    assert(low <= w) by (nonlinear_arith)
        requires
            low * low <= w * w,
            w >= 0real,
            low >= 0real,
    ;
    assert(w <= high) by (nonlinear_arith)
        requires
            w * w <= high * high,
            w >= 0real,
            high >= 0real,
    ;
}

/// The ratios of the projected indices.
proof fn lemma_projected_ratios(m: real, n: real, x: real, w: real)
    requires
        m > 0real,
        n > 0real,
        n <= m <= 4096real * n,
        99real / 10000real <= x <= 1real,
        34real / 10000real <= w <= 101real / 100real,
    ensures
        1real / 300real <= (m * x) / (n * w) <= 1300000real,
        1real / 300real <= (m * w) / (n * x) <= 1300000real,
{
    let r = m / n;
    assert(r * n == m && 1real <= r <= 4096real) by (nonlinear_arith)
        requires
            r == m / n,
            n > 0real,
            n <= m <= 4096real * n,
    ;
    lemma_quotient_range(r, n, x, w);
    lemma_quotient_range(r, n, w, x);
    assert(m * x == (r * n) * x && m * w == (r * n) * w);
}

proof fn lemma_quotient_range(r: real, n: real, x: real, w: real)
    requires
        n > 0real,
        1real <= r <= 4096real,
        34real / 10000real <= x <= 101real / 100real,
        34real / 10000real <= w <= 101real / 100real,
    ensures
        1real / 300real <= ((r * n) * x) / (n * w) <= 1300000real,
{
    let (p, q) = (r * x, n * w);
    assert((r * n) * x == n * p) by (nonlinear_arith)
        requires
            p == r * x,
    ;
    assert(34real / 10000real <= p <= 4140real) by (nonlinear_arith)
        requires
            p == r * x,
            1real <= r <= 4096real,
            34real / 10000real <= x <= 101real / 100real,
    ;
    assert(q > 0real) by (nonlinear_arith)
        requires
            q == n * w,
            n > 0real,
            w > 0real,
    ;
    let t = (n * p) / q;
    assert(t * q == n * p) by (nonlinear_arith)
        requires
            t == (n * p) / q,
            q > 0real,
    ;
    assert(t * w == p) by (nonlinear_arith)
        requires
            t * q == n * p,
            q == n * w,
            n > 0real,
    ;
    assert(t >= 1real / 300real) by (nonlinear_arith)
        requires
            t * w == p,
            p >= 34real / 10000real,
            0real < w <= 101real / 100real,
    ;
    assert(t <= 1300000real) by (nonlinear_arith)
        requires
            t * w == p,
            p <= 4140real,
            w >= 34real / 10000real,
    ;
}

/// Short of the critical angle some light is transmitted.
proof fn lemma_partial_reflection(c: Scalar, n1: Scalar, n2: Scalar)
    requires
        into_rarer(n1, n2),
        c.finite(),
        0real <= number(c) <= 1real,
        sine_square(n1, n2, number(c)) <= 1real - 1real / 10000real,
    ensures
        reflectance(c, n1, n2).finite(),
        number(reflectance(c, n1, n2)) < 1real,
{
    let e = 1real / 16700000real;
    assert(eps() == e);
    lemma_one_number();
    let unit = Scalar { bits: ONE_BITS };
    let s = transmitted_sine(n1.quotient(n2), c);
    let z = sine_square(n1, n2, number(c));
    lemma_sine_close(c, n1, n2);
    let k = unit.difference(s);
    lemma_difference_close(unit, s, 101real / 100real);
    lemma_eps(101real / 100real);
    assert(118real / 10000000real <= number(k) <= 1real + 1real / 10000real);
    lemma_below_one(s);
    lemma_root_close(k);
    let cos_t = k.square_root();
    let w = number(cos_t);
    assert(2real * eps() * number(k) == number(k) / 8350000real) by (nonlinear_arith)
        requires
            eps() == 1real / 16700000real,
    ;
    lemma_square_bounds(w, 34real / 10000real, 101real / 100real);
    let x = number(c);
    lemma_cosine_not_small(n1, n2, x);
    lemma_cosine_kept(c);
    lemma_polarisations(c, cos_t, n1, n2);
    lemma_projected_ratios(number(n1), number(n2), x, w);
    let (ts, tp) = (
        (number(n1) * x) / (number(n2) * w),
        (number(n1) * w) / (number(n2) * x),
    );
    lemma_transmittance_not_small(ts);
    lemma_transmittance_not_small(tp);
    lemma_eps(transmittance(ts));
    lemma_eps(transmittance(tp));
    let rs = contrast(n1.product(c), n2.product(cos_t));
    let rp = contrast(n1.product(cos_t), n2.product(c));
    lemma_half_number();
    let half = Scalar { bits: HALF_BITS };
    lemma_sum_close(rs, rp, 21real / 10real);
    lemma_eps(21real / 10real);
    let t = number(rs.sum(rp));
    assert(number(half) * t == t / 2real) by (nonlinear_arith)
        requires
            number(half) == 1real / 2real,
    ;
    lemma_product_close(half, rs.sum(rp), 11real / 10real);
    lemma_eps(11real / 10real);
}

/// Into the rarer medium nothing is transmitted at a small cosine.
proof fn lemma_cosine_not_small(n1: Scalar, n2: Scalar, x: real)
    requires
        into_rarer(n1, n2),
        0real <= x <= 1real,
        sine_square(n1, n2, x) <= 1real - 1real / 10000real,
    ensures
        x >= 99real / 10000real,
{
    lemma_ratio_square(n1, n2);
    let ratio = number(n1) / number(n2);
    let rr = ratio * ratio;
    let xx = x * x;
    let y = 1real - xx;
    assert(y >= 0real) by (nonlinear_arith)
        requires
            y == 1real - xx,
            xx == x * x,
            0real <= x <= 1real,
    ;
    assert(y <= rr * y) by (nonlinear_arith)
        requires
            rr > 1real,
            y >= 0real,
    ;
    assert(x >= 99real / 10000real) by (nonlinear_arith)
        requires
            x * x >= 1real / 10000real,
            x >= 0real,
    ;
}

/// Past the critical angle all light is reflected.
proof fn lemma_whole_reflection(c: Scalar, n1: Scalar, n2: Scalar)
    requires
        into_rarer(n1, n2),
        c.finite(),
        0real <= number(c) <= 1real,
        sine_square(n1, n2, number(c)) >= 1real + 1real / 10000real,
    ensures
        reflectance(c, n1, n2) == (Scalar { bits: ONE_BITS }),
        (Scalar { bits: ONE_BITS }).difference(transmitted_sine(n1.quotient(n2), c)).below(
            Scalar { bits: 0 },
        ),
{
    let e = 1real / 16700000real;
    assert(eps() == e);
    lemma_one_number();
    let unit = Scalar { bits: ONE_BITS };
    let s = transmitted_sine(n1.quotient(n2), c);
    let z = sine_square(n1, n2, number(c));
    lemma_sine_close(c, n1, n2);
    let k = unit.difference(s);
    let bound = size(1real - number(s)) + 1real / 1000000000real;
    lemma_difference_close(unit, s, bound);
    lemma_eps(bound);
    assert(number(k) < 0real);
    lemma_number_sign(k);
    lemma_number_sign(Scalar { bits: 0 });
    lemma_magnitude_sign(0);
    lemma_one_size();
    lemma_negated(s);
    reveal(Scalar::difference);
    lemma_sum_sign(unit, s.negated());
    if number(c) > 0real {
        lemma_cosine_kept(c);
    } else {
        lemma_number_sign(c);
    }
}

/// Reflectance and refraction agree on total reflection: from a medium into a
/// rarer one, where the squared sine of transmission differs from one by 1e-4 or
/// more, the reflectance is one exactly where refraction transmits nothing, and
/// below one where it transmits.
pub proof fn lemma_reflectance_decides(d: Vector, n: Vector, n1: Scalar, n2: Scalar)
    requires
        into_rarer(n1, n2),
        dot(d, n).finite(),
        size(sine_square(n1, n2, number(incidence(d, n).cos_i)) - 1real) >= 1real / 10000real,
    ensures
        ({
            let r = reflectance(incidence(d, n).cos_i, n1, n2);
            &&& r == (Scalar { bits: ONE_BITS }) <==> refracted(d, n, n1, n2) is None
            &&& refracted(d, n, n1, n2) is Some ==> r.finite() && number(r) < 1real
        }),
{
    let unit = Scalar { bits: ONE_BITS };
    let c = incidence(d, n).cos_i;
    let s = transmitted_sine(n1.quotient(n2), c);
    lemma_one_number();
    lemma_negated(dot(d, n));
    lemma_negated(dot(d, n).negated());
    lemma_magnitude_sign(0);
    assert(c.finite() && c.value() >= 0);
    lemma_number_sign(c);
    lemma_one_size();
    lemma_difference_sign(unit, s);
    if number(c) <= 1real {
        if sine_square(n1, n2, number(c)) < 1real {
            lemma_partial_reflection(c, n1, n2);
            lemma_total_reflection_agrees(d, n, n1, n2);
        } else {
            lemma_whole_reflection(c, n1, n2);
        }
    } else {
        lemma_above_one(c);
        lemma_steep_sine(n1.quotient(n2), c);
        lemma_cosine_kept(unit);
        assert(sine_square(n1, n2, 1real) == 0real) by (nonlinear_arith)
            requires
                sine_square(n1, n2, 1real) == (number(n1) / number(n2) * (number(n1) / number(n2)))
                    * (1real - 1real * 1real),
        ;
        lemma_partial_reflection(unit, n1, n2);
    }
}

/// A number above one has a larger encoding than one.
proof fn lemma_above_one(c: Scalar)
    requires
        c.finite(),
        number(c) > 1real,
    ensures
        (Scalar { bits: ONE_BITS }).below(c),
        clamped_cosine(c) == (Scalar { bits: ONE_BITS }),
{
    reveal(number);
    lemma_one_size();
    lemma_pow2_pos(149);
    lemma_magnitude_sign(0);
    let (v, o) = (c.value() as real, one() as real);
    assert(v > o) by (nonlinear_arith)
        requires
            v / o > 1real,
            o > 0real,
    ;
}

} // verus!
