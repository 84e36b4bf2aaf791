//! The law of refraction: how near a transmitted direction comes to it.
use crate::exact::close;
use crate::exact::eps;
use crate::exact::lemma_difference_close;
use crate::exact::lemma_product_close;
use crate::exact::lemma_quotient_close;
use crate::exact::lemma_root_close;
use crate::exact::number;
use crate::exact::size;
use crate::optics::incidence;
use crate::optics::refracted;
use crate::optics::transmitted_sine;
use crate::scalar::Scalar;
use crate::scalar::ONE_BITS;
use crate::snell::is_unit_vector;
use crate::snell::lemma_incidence_close;
use crate::snell::lemma_number_sign;
use crate::snell::lemma_quotient_sign;
use crate::snell::lemma_small_product;
use crate::triple::inner;
use crate::triple::lemma_eps;
use crate::triple::lemma_inner_bounds;
use crate::triple::lemma_one_number;
use crate::triple::triple;
use crate::vector::Vector;
use vstd::prelude::*;

verus! {

/// Indices of media, the first at most 32 times the second.
pub open spec fn are_media(n1: Scalar, n2: Scalar) -> bool {
    &&& n1.finite()
    &&& n2.finite()
    &&& number(n1) > 0real
    &&& number(n2) > 0real
    &&& number(n1) <= 32real * number(n2)
}

/// The unit of the errors of a refraction: that of one rounding, times the
/// square of the ratio of the indices where this is more than one.
pub open spec fn grain(ratio: real) -> real {
    if ratio <= 1real {
        eps()
    } else {
        (ratio * ratio) * eps()
    }
}

/// The larger of the ratio and one.
pub open spec fn reach(ratio: real) -> real {
    if ratio <= 1real {
        1real
    } else {
        ratio
    }
}

/// The squared cosine of transmission.
pub open spec fn cosine_square(ratio: real, q: real) -> real {
    1real - (ratio * ratio) * (1real - q * q)
}

pub proof fn lemma_grain(ratio: real)
    requires
        0real <= ratio <= 32real,
    ensures
        ({
            let (e, r) = (grain(ratio), reach(ratio));
            &&& eps() == 1real / 16700000real
            &&& eps() <= e <= 1real / 16000real
            &&& 1real <= r <= 32real
            &&& ratio <= r
            &&& r / 16700000real <= e
            &&& (r * r) / 16700000real == e
            &&& (ratio * ratio) / 16700000real <= e
        }),
{
    let (e, r) = (grain(ratio), reach(ratio));
    let rr = ratio * ratio;
    lemma_eps(rr);
    assert(rr <= 1024real && rr >= 0real && (ratio <= 1real ==> rr <= 1real) && (ratio > 1real ==>
        rr >= ratio)) by (nonlinear_arith)
        requires
            rr == ratio * ratio,
            0real <= ratio <= 32real,
    ;
    assert(r * r == if ratio <= 1real {
        1real
    } else {
        rr
    });
}

/// A small factor of a bounded number.
pub proof fn lemma_scaled_error(x: real, f: real, k: real, bound: real, e: real)
    requires
        size(f) <= k * (1real / 16700000real),
        size(x) / 16700000real <= bound * e,
        k >= 0real,
    ensures
        size(x * f) <= k * (bound * e),
{
    let a = size(x);
    assert(size(x * f) <= a * (k * (1real / 16700000real))) by (nonlinear_arith)
        requires
            a == size(x),
            -(k * (1real / 16700000real)) <= f <= k * (1real / 16700000real),
    ;
    assert(a * (k * (1real / 16700000real)) <= k * (bound * e)) by (nonlinear_arith)
        requires
            a / 16700000real <= bound * e,
            k >= 0real,
    ;
}

/// The radicand of a refraction, as it is rounded.
proof fn lemma_radicand_close(eta: Scalar, cos_i: Scalar, e: real)
    requires
        eta.finite(),
        cos_i.finite(),
        0real <= number(eta) <= 33real,
        0real <= number(cos_i) <= 1real + 1real / 100000real,
        1real / 16700000real <= e <= 1real / 16000real,
        (number(eta) * number(eta)) / 16700000real <= (1001real / 1000real) * e,
    ensures
        ({
            let k = (Scalar { bits: ONE_BITS }).difference(transmitted_sine(eta, cos_i));
            close(k, cosine_square(number(eta), number(cos_i)), (56real / 10real) * e)
        }),
{
    assert(eps() == 1real / 16700000real);
    lemma_one_number();
    let unit = Scalar { bits: ONE_BITS };
    let (h, c) = (number(eta), number(cos_i));
    let (hh, cc) = (h * h, c * c);
    assert(0real <= hh <= 1089real && 0real <= cc <= 1real + 3real / 100000real)
        by (nonlinear_arith)
        requires
            hh == h * h,
            cc == c * c,
            0real <= h <= 33real,
            0real <= c <= 1real + 1real / 100000real,
    ;
    let low = 1real / 1000000real;
    lemma_product_close(eta, eta, hh + low);
    lemma_eps(hh + low);
    lemma_product_close(cos_i, cos_i, cc + low);
    lemma_eps(cc + low);
    let p = eta.product(eta);
    let q = cos_i.product(cos_i);
    let pn = number(p);
    let z = 1real - cc;
    let wide = size(1real - number(q)) + low;
    lemma_difference_close(unit, q, wide);
    lemma_eps(wide);
    let m = unit.difference(q);
    let mn = number(m);
    let (dp, dm) = (pn - hh, mn - z);
    assert(size(dm) <= (1001real / 1000real) * (1real / 16700000real));
    assert(size(dp) <= (1002real / 1000real) * e);
    assert(size(mn) <= 1001real / 1000real);
    assert(pn * mn == hh * z + hh * dm + dp * mn) by (nonlinear_arith)
        requires
            dp == pn - hh,
            dm == mn - z,
    ;
    lemma_scaled_error(hh, dm, 1001real / 1000real, 1001real / 1000real, e);
    lemma_small_product(dp, mn, (1002real / 1000real) * e, 1001real / 1000real);
    let exact = pn * mn;
    let hz = hh * z;
    assert(size(hz) <= hh + 1real / 10real) by (nonlinear_arith)
        requires
            hz == hh * z,
            -1real / 20000real <= z <= 1real,
            0real <= hh <= 1089real,
    ;
    assert(size(exact - hz) <= (2007real / 1000real) * e);
    let bound = hh + 2real / 10real;
    lemma_product_close(p, m, bound);
    lemma_eps(bound);
    let s = p.product(m);
    let last = 1real + hh + 3real / 10real;
    lemma_difference_close(unit, s, last);
    lemma_eps(last);
}

/// The ratio of the indices, as it is rounded.
pub proof fn lemma_ratio_close(n1: Scalar, n2: Scalar)
    requires
        are_media(n1, n2),
    ensures
        ({
            let ratio = number(n1) / number(n2);
            let h = number(n1.quotient(n2));
            let (e, r) = (grain(ratio), reach(ratio));
            &&& n1.quotient(n2).finite()
            &&& 0real < ratio <= 32real
            &&& size(h - ratio) <= (ratio + 1real / 1000000real) / 16700000real
            &&& size(h - ratio) <= (1001real / 1000real) * e
            &&& 0real <= h <= (10001real / 10000real) * r
            &&& h <= 33real
            &&& (h * h) / 16700000real <= (1001real / 1000real) * e
        }),
{
    let (a, b) = (number(n1), number(n2));
    let ratio = a / b;
    assert(0real < ratio <= 32real) by (nonlinear_arith)
        requires
            ratio == a / b,
            a > 0real,
            b > 0real,
            a <= 32real * b,
    ;
    lemma_grain(ratio);
    let (e, r) = (grain(ratio), reach(ratio));
    let bound = ratio + 1real / 1000000real;
    lemma_quotient_close(n1, n2, bound);
    lemma_eps(bound);
    lemma_quotient_sign(n1, n2);
    let h = number(n1.quotient(n2));
    assert(h * h <= (1001real / 1000real) * (r * r)) by (nonlinear_arith)
        requires
            0real <= h <= (10001real / 10000real) * r,
    ;
}

/// The squared cosine of transmission, from the rounded ratio and cosine.
pub proof fn lemma_cosine_squares(h: real, c: real, ratio: real, q: real, e: real, r: real)
    requires
        size(c + q) <= (311real / 100real) * (1real / 16700000real),
        size(h - ratio) <= (1001real / 1000real) * (r / 16700000real),
        0real <= h <= (10001real / 10000real) * r,
        0real <= ratio <= r,
        0real <= c <= 1real + 1real / 100000real,
        (r * r) / 16700000real == e,
        1real <= r,
        e <= 1real / 16000real,
    ensures
        size(cosine_square(h, c) - cosine_square(ratio, q)) <= (83real / 10real) * e,
{
    let (hh, rr, cc, qq) = (h * h, ratio * ratio, c * c, q * q);
    let f = h - ratio;
    assert(hh - rr == f * (h + ratio)) by (nonlinear_arith)
        requires
            hh == h * h,
            rr == ratio * ratio,
            f == h - ratio,
    ;
    assert(size(f * (h + ratio)) <= (2003real / 1000real) * ((r * r) / 16700000real))
        by (nonlinear_arith)
        requires
            -((1001real / 1000real) * (r / 16700000real)) <= f <= (1001real / 1000real) * (r
                / 16700000real),
            0real <= h + ratio <= (20001real / 10000real) * r,
            r >= 1real,
    ;
    let z = 1real - cc;
    assert(-1real / 20000real <= z <= 1real) by (nonlinear_arith)
        requires
            z == 1real - cc,
            cc == c * c,
            0real <= c <= 1real + 1real / 100000real,
    ;
    lemma_small_product(hh - rr, z, (2003real / 1000real) * e, 1real);
    let g = c + q;
    assert(cc - qq == g * (c - q)) by (nonlinear_arith)
        requires
            cc == c * c,
            qq == q * q,
            g == c + q,
    ;
    lemma_small_product(
        g,
        c - q,
        (311real / 100real) * (1real / 16700000real),
        2001real / 1000real,
    );
    assert(size(cc - qq) <= (623real / 100real) * (1real / 16700000real));
    assert(0real <= rr <= r * r) by (nonlinear_arith)
        requires
            rr == ratio * ratio,
            0real <= ratio <= r,
    ;
    lemma_scaled_error(rr, cc - qq, 623real / 100real, 1real, e);
    assert(hh * z - rr * (1real - qq) == (hh - rr) * z - rr * (cc - qq)) by (nonlinear_arith)
        requires
            z == 1real - cc,
    ;
}

/// Total internal reflection sets in where Snell's law leaves no angle: nothing
/// is transmitted only where the squared cosine of transmission is not above
/// zero by more than rounding can move it, and something only where it is not
/// below zero by more than that.
pub proof fn lemma_reflection_threshold(d: Vector, n: Vector, n1: Scalar, n2: Scalar)
    requires
        is_unit_vector(d),
        is_unit_vector(n),
        are_media(n1, n2),
    ensures
        ({
            let ratio = number(n1) / number(n2);
            let k = cosine_square(ratio, inner(triple(d), triple(n)));
            &&& refracted(d, n, n1, n2) is None ==> k < 14real * grain(ratio)
            &&& refracted(d, n, n1, n2) is Some ==> k > -14real * grain(ratio)
        }),
{
    let ratio = number(n1) / number(n2);
    let (e, r) = (grain(ratio), reach(ratio));
    let eta = n1.quotient(n2);
    let i = incidence(d, n);
    let q = inner(triple(d), triple(i.normal));
    let s = inner(triple(d), triple(n));
    lemma_ratio_close(n1, n2);
    lemma_grain(ratio);
    lemma_incidence_close(d, n);
    lemma_radicand_close(eta, i.cos_i, e);
    lemma_cosine_squares(number(eta), number(i.cos_i), ratio, q, e, r);
    assert(q * q == s * s) by (nonlinear_arith)
        requires
            q == s || q == -s,
    ;
    let k = (Scalar { bits: ONE_BITS }).difference(transmitted_sine(eta, i.cos_i));
    lemma_number_sign(k);
    lemma_one_number();
    lemma_number_sign(Scalar { bits: 0 });
}

/// What a refraction computes on the way, as numbers: the ratio `h` of the
/// indices, the cosine of incidence `c`, the cosine of transmission `w`, and
/// the factor `g` of the normal.
pub struct Passage {
    pub h: real,
    pub c: real,
    pub w: real,
    pub g: real,
}

/// The passage of a refraction.
pub open spec fn passage(d: Vector, n: Vector, n1: Scalar, n2: Scalar) -> Passage {
    let eta = n1.quotient(n2);
    let i = incidence(d, n);
    let k = (Scalar { bits: ONE_BITS }).difference(transmitted_sine(eta, i.cos_i));
    Passage {
        h: number(eta),
        c: number(i.cos_i),
        w: number(k.square_root()),
        g: number(eta.product(i.cos_i).difference(k.square_root())),
    }
}

/// What holds of a passage, with errors in units of `e`.
pub open spec fn is_passage(p: Passage, ratio: real, q: real, e: real, r: real) -> bool {
    &&& size(p.h - ratio) <= (1001real / 1000real) * (r / 16700000real)
    &&& 0real <= p.h <= (10001real / 10000real) * r
    &&& 0real <= p.c <= 1real + 1real / 100000real
    &&& size(p.c + q) <= (311real / 100real) * (1real / 16700000real)
    &&& 0real <= p.w <= 1002real / 1000real
    &&& size(p.w * p.w - cosine_square(p.h, p.c)) <= (77real / 10real) * e
    &&& size(p.g - (p.h * p.c - p.w)) <= (202real / 100real) * (r / 16700000real)
    &&& size(p.g) <= (101real / 100real) * r
}

/// The cosine of transmission is at most one, as far as rounding leaves it so.
proof fn lemma_cosine_at_most(h: real, c: real, w: real, e: real, r: real)
    requires
        0real <= h <= (10001real / 10000real) * r,
        (r * r) / 16700000real == e,
        0real <= c <= 1real + 14real / 16700000real,
        w >= 0real,
        w * w <= cosine_square(h, c) + (77real / 10real) * e,
        e <= 1real / 16000real,
    ensures
        w <= 1002real / 1000real,
{
    let (hh, cc) = (h * h, c * c);
    let f = cc - 1real;
    assert(f <= 29real * (1real / 16700000real)) by (nonlinear_arith)
        requires
            f == cc - 1real,
            cc == c * c,
            0real <= c <= 1real + 14real / 16700000real,
    ;
    assert(0real <= hh <= (1001real / 1000real) * (r * r)) by (nonlinear_arith)
        requires
            hh == h * h,
            0real <= h <= (10001real / 10000real) * r,
    ;
    let rr = r * r;
    assert(hh / 16700000real <= (1001real / 1000real) * e) by (nonlinear_arith)
        requires
            hh <= (1001real / 1000real) * rr,
            rr / 16700000real == e,
    ;
    let hf = hh * f;
    assert(hf <= 30real * e) by (nonlinear_arith)
        requires
            hf == hh * f,
            f <= 29real * (1real / 16700000real),
            0real <= hh,
            hh / 16700000real <= (1001real / 1000real) * e,
    ;
    assert(hh * (1real - cc) == -hf) by (nonlinear_arith)
        requires
            hf == hh * f,
            f == cc - 1real,
    ;
    assert(w <= 1002real / 1000real) by (nonlinear_arith)
        requires
            w * w <= 1003real / 1000real,
            w >= 0real,
    ;
}

pub proof fn lemma_passage(d: Vector, n: Vector, n1: Scalar, n2: Scalar)
    requires
        is_unit_vector(d),
        is_unit_vector(n),
        are_media(n1, n2),
        refracted(d, n, n1, n2) is Some,
    ensures
        ({
            let ratio = number(n1) / number(n2);
            let i = incidence(d, n);
            let eta = n1.quotient(n2);
            let k = (Scalar { bits: ONE_BITS }).difference(transmitted_sine(eta, i.cos_i));
            let g = eta.product(i.cos_i).difference(k.square_root());
            &&& is_passage(
                passage(d, n, n1, n2),
                ratio,
                inner(triple(d), triple(i.normal)),
                grain(ratio),
                reach(ratio),
            )
            &&& eta.finite()
            &&& g.finite()
        }),
{
    let ratio = number(n1) / number(n2);
    let (e, r) = (grain(ratio), reach(ratio));
    let eta = n1.quotient(n2);
    let i = incidence(d, n);
    lemma_ratio_close(n1, n2);
    lemma_grain(ratio);
    lemma_incidence_close(d, n);
    lemma_radicand_close(eta, i.cos_i, e);
    let k = (Scalar { bits: ONE_BITS }).difference(transmitted_sine(eta, i.cos_i));
    lemma_number_sign(k);
    lemma_one_number();
    lemma_number_sign(Scalar { bits: 0 });
    lemma_root_close(k);
    let root = k.square_root();
    let (h, c, w) = (number(eta), number(i.cos_i), number(root));
    assert(2real * eps() * number(k) == number(k) / 8350000real) by (nonlinear_arith)
        requires
            eps() == 1real / 16700000real,
    ;
    lemma_cosine_bound(d, n);
    lemma_radicand_at_most(h, c, number(k), e, r);
    lemma_cosine_at_most(h, c, w, e, r);
    let hc = h * c;
    assert(0real <= hc <= (10003real / 10000real) * r) by (nonlinear_arith)
        requires
            hc == h * c,
            0real <= h <= (10001real / 10000real) * r,
            0real <= c <= 1real + 1real / 100000real,
    ;
    let bound = (1001real / 1000real) * r;
    lemma_product_close(eta, i.cos_i, bound);
    lemma_eps(bound);
    let wide = (1005real / 1000real) * r;
    lemma_difference_close(eta.product(i.cos_i), root, wide);
    lemma_eps(wide);
}

/// The radicand is at most one, as far as rounding leaves it so.
proof fn lemma_radicand_at_most(h: real, c: real, k: real, e: real, r: real)
    requires
        0real <= h <= (10001real / 10000real) * r,
        (r * r) / 16700000real == e,
        0real <= c <= 1real + 14real / 16700000real,
        size(k - cosine_square(h, c)) <= (56real / 10real) * e,
        1real / 16700000real <= e <= 1real / 16000real,
    ensures
        k <= 101real / 100real,
        k / 8350000real <= (21real / 10real) * e,
{
    let (hh, cc) = (h * h, c * c);
    let f = cc - 1real;
    assert(f <= 29real * (1real / 16700000real)) by (nonlinear_arith)
        requires
            f == cc - 1real,
            cc == c * c,
            0real <= c <= 1real + 14real / 16700000real,
    ;
    assert(0real <= hh <= (1001real / 1000real) * (r * r)) by (nonlinear_arith)
        requires
            hh == h * h,
            0real <= h <= (10001real / 10000real) * r,
    ;
    let rr = r * r;
    assert(hh / 16700000real <= (1001real / 1000real) * e) by (nonlinear_arith)
        requires
            hh <= (1001real / 1000real) * rr,
            rr / 16700000real == e,
    ;
    let hf = hh * f;
    assert(hf <= 30real * e) by (nonlinear_arith)
        requires
            hf == hh * f,
            f <= 29real * (1real / 16700000real),
            0real <= hh,
            hh / 16700000real <= (1001real / 1000real) * e,
    ;
    assert(hh * (1real - cc) == -hf) by (nonlinear_arith)
        requires
            hf == hh * f,
            f == cc - 1real,
    ;
}

/// The cosine of incidence is at most one, as far as rounding leaves it so.
proof fn lemma_cosine_bound(d: Vector, n: Vector)
    requires
        is_unit_vector(d),
        is_unit_vector(n),
    ensures
        number(incidence(d, n).cos_i) <= 1real + 14real / 16700000real,
{
    assert(eps() == 1real / 16700000real);
    lemma_incidence_close(d, n);
    lemma_inner_bounds(triple(d), triple(n), 1real + 10real / 16700000real);
}

} // verus!
