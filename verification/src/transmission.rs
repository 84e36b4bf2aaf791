//! Snell's law: where a transmitted direction goes.
use crate::exact::eps;
use crate::exact::lemma_product_close;
use crate::exact::lemma_sum_close;
use crate::exact::number;
use crate::exact::size;
use crate::norm::along_surface;
use crate::norm::lemma_along_combined;
use crate::norm::lemma_along_short;
use crate::norm::lemma_inner_short;
use crate::norm::lemma_short_components;
use crate::norm::lemma_short_longer;
use crate::norm::lemma_short_scaled;
use crate::norm::lemma_short_sizes;
use crate::norm::lemma_short_smaller;
use crate::norm::lemma_short_sum;
use crate::norm::minus;
use crate::norm::scaled;
use crate::norm::short;
use crate::norm::sizes;
use crate::optics::incidence;
use crate::optics::refracted;
use crate::optics::transmitted_sine;
use crate::refraction::are_media;
use crate::refraction::cosine_square;
use crate::refraction::grain;
use crate::refraction::is_passage;
use crate::refraction::lemma_cosine_squares;
use crate::refraction::lemma_grain;
use crate::refraction::lemma_passage;
use crate::refraction::lemma_ratio_close;
use crate::refraction::lemma_scaled_error;
use crate::refraction::passage;
use crate::refraction::reach;
use crate::refraction::Passage;
use crate::scalar::Scalar;
use crate::scalar::ONE_BITS;
use crate::snell::is_unit_vector;
use crate::snell::lemma_along_ignores_side;
use crate::snell::lemma_incidence_close;
use crate::snell::lemma_inner_combined;
use crate::snell::lemma_inner_commutes;
use crate::snell::lemma_inner_sum;
use crate::snell::lemma_small_product;
use crate::triple::apart;
use crate::triple::combined;
use crate::triple::finite;
use crate::triple::inner;
use crate::triple::lemma_eps;
use crate::triple::lemma_unit_close;
use crate::triple::triple;
use crate::triple::Triple;
use crate::vector::vector_scaled;
use crate::vector::vector_sum;
use crate::vector::Vector;
use vstd::prelude::*;

verus! {

/// The transmitted direction before it is rounded and brought to unit length.
pub open spec fn transmitted(p: Passage, a: Triple, m: Triple) -> Triple {
    combined(scaled(p.h, a), p.g, m)
}

/// A unit vector of exact numbers, as far as rounding leaves it one.
pub open spec fn is_unit(a: Triple) -> bool {
    size(inner(a, a) - 1real) <= 10real / 16700000real
}

/// The units of the errors.
pub open spec fn are_units(e: real, r: real) -> bool {
    &&& (r * r) / 16700000real == e
    &&& 1real / 16700000real <= e <= 1real / 16000real
    &&& r / 16700000real <= e
    &&& 1real <= r <= 32real
}

proof fn lemma_unit_short(a: Triple)
    requires
        is_unit(a),
    ensures
        short(a, 100001real / 100000real),
{
}

pub proof fn lemma_inner_scaled(k: real, a: Triple, b: Triple)
    ensures
        inner(scaled(k, a), b) == k * inner(a, b),
{
    lemma_three_products(k, a.x, b.x, a.y, b.y, a.z, b.z);
}

proof fn lemma_three_products(k: real, a: real, b: real, c: real, d: real, e: real, f: real)
    ensures
        (k * a) * b + (k * c) * d + (k * e) * f == k * (a * b + c * d + e * f),
{
    assert((k * a) * b == k * (a * b)) by (nonlinear_arith);
    assert((k * c) * d == k * (c * d)) by (nonlinear_arith);
    assert((k * e) * f == k * (e * f)) by (nonlinear_arith);
    let (p, q, r) = (a * b, c * d, e * f);
    assert(k * (p + q + r) == k * p + k * q + k * r) by (nonlinear_arith);
}

/// The squared length of the transmitted direction, spelled out.
proof fn lemma_square_form(p: Passage, a: Triple, m: Triple)
    ensures
        ({
            let v = transmitted(p, a, m);
            inner(v, v) == (p.h * p.h) * inner(a, a) + 2real * ((p.h * p.g) * inner(a, m)) + (p.g
                * p.g) * inner(m, m)
        }),
{
    let v = transmitted(p, a, m);
    let (h, g) = (p.h, p.g);
    let (aa, nn, q) = (inner(a, a), inner(m, m), inner(a, m));
    let ha = scaled(h, a);
    lemma_inner_combined(ha, g, m, v);
    lemma_inner_commutes(ha, v);
    lemma_inner_commutes(m, v);
    lemma_inner_combined(ha, g, m, ha);
    lemma_inner_combined(ha, g, m, m);
    lemma_inner_scaled(h, a, m);
    lemma_inner_scaled(h, a, ha);
    lemma_inner_commutes(a, ha);
    lemma_inner_scaled(h, a, a);
    lemma_inner_commutes(m, ha);
    lemma_square_sum(h, g, aa, q, nn);
}

proof fn lemma_square_sum(h: real, g: real, aa: real, q: real, nn: real)
    ensures
        (h * (h * aa) + g * (h * q)) + g * (h * q + g * nn) == (h * h) * aa + 2real * ((h * g) * q)
            + (g * g) * nn,
{
    assert(h * (h * aa) == (h * h) * aa) by (nonlinear_arith);
    assert(g * (h * q) == (h * g) * q) by (nonlinear_arith);
    assert(g * (h * q + g * nn) == (h * g) * q + (g * g) * nn) by (nonlinear_arith);
}

/// The same, about the cosine of transmission.
proof fn lemma_square_about(h: real, c: real, w: real, g: real)
    ensures
        ({
            let f = g - (h * c - w);
            h * h - 2real * ((h * g) * c) + g * g == (h * h) * (1real - c * c) + w * w - 2real * (w
                * f) + f * f
        }),
{
    let hc = h * c;
    let f = g - (hc - w);
    assert((f - w) * (f - w) == f * f - 2real * (w * f) + w * w) by (nonlinear_arith);
    assert(f - w == g - hc);
    assert((g - hc) * (g - hc) == g * g - 2real * (g * hc) + hc * hc) by (nonlinear_arith);
    assert(g * (h * c) == (h * g) * c) by (nonlinear_arith);
    assert((h * c) * (h * c) == (h * h) * (c * c)) by (nonlinear_arith);
    let hh = h * h;
    assert(hh * (1real - c * c) == hh - hh * (c * c)) by (nonlinear_arith);
}

/// Squares and products of bounded numbers, in units of the errors.
proof fn lemma_in_units(x: real, y: real, s: real, t: real, e: real, r: real)
    requires
        are_units(e, r),
        size(x) <= s * r,
        size(y) <= t * r,
        s >= 0real,
        t >= 0real,
    ensures
        size(x * y) / 16700000real <= (s * t) * e,
{
    lemma_small_product(x, y, s * r, t * r);
    assert((t * r) * (s * r) == (s * t) * (r * r)) by (nonlinear_arith);
    let (st, rr) = (s * t, r * r);
    assert((st * rr) / 16700000real == st * (rr / 16700000real)) by (nonlinear_arith);
}

/// The squared length of the transmitted direction is one, but for rounding.
proof fn lemma_transmitted_square(p: Passage, a: Triple, m: Triple, ratio: real, e: real, r: real)
    requires
        is_passage(p, ratio, inner(a, m), e, r),
        is_unit(a),
        is_unit(m),
        are_units(e, r),
    ensures
        size(inner(transmitted(p, a, m), transmitted(p, a, m)) - 1real) <= 39real * e,
        short(transmitted(p, a, m), 10015real / 10000real),
{
    let (aa, nn, q) = (inner(a, a), inner(m, m), inner(a, m));
    let (h, c, w, g) = (p.h, p.c, p.w, p.g);
    let (hh, gg, hg) = (h * h, g * g, h * g);
    lemma_square_form(p, a, m);
    lemma_square_about(h, c, w, g);
    lemma_in_units(h, h, 10001real / 10000real, 10001real / 10000real, e, r);
    lemma_in_units(g, g, 101real / 100real, 101real / 100real, e, r);
    lemma_in_units(h, g, 10001real / 10000real, 101real / 100real, e, r);
    let (s1, s2, s3) = (
        (10001real / 10000real) * (10001real / 10000real),
        (101real / 100real) * (101real / 100real),
        (10001real / 10000real) * (101real / 100real),
    );
    lemma_scaled_error(hh, aa - 1real, 10real, s1, e);
    lemma_scaled_error(gg, nn - 1real, 10real, s2, e);
    lemma_scaled_error(hg, c + q, 311real / 100real, s3, e);
    let f = g - (h * c - w);
    assert(size(f) <= (202real / 100real) * e);
    lemma_small_product(f, w, (202real / 100real) * e, 1002real / 1000real);
    assert(f * w == w * f) by (nonlinear_arith);
    lemma_small_product(f, f, (202real / 100real) * e, 1real / 1000real);
    assert(hh * aa == hh + hh * (aa - 1real)) by (nonlinear_arith);
    assert(gg * nn == gg + gg * (nn - 1real)) by (nonlinear_arith);
    assert(hg * q == hg * (c + q) - hg * c) by (nonlinear_arith);
}

/// A component of the transmitted direction, as it is rounded.
proof fn lemma_direction_component(x: Scalar, m: Scalar, eta: Scalar, g: Scalar)
    requires
        x.finite(),
        m.finite(),
        eta.finite(),
        g.finite(),
        size(number(eta) * number(x)) <= 40real,
        size(number(g) * number(m)) <= 40real,
    ensures
        ({
            let t = x.product(eta).sum(m.product(g));
            let (p, q) = (number(eta) * number(x), number(g) * number(m));
            t.finite() && size(number(t) - (p + q)) <= (size(p) + size(q) + size(p + q) + 1real
                / 10000real) / 16700000real
        }),
{
    let (p, q) = (number(eta) * number(x), number(g) * number(m));
    assert(number(x) * number(eta) == p) by (nonlinear_arith)
        requires
            p == number(eta) * number(x),
    ;
    assert(number(m) * number(g) == q) by (nonlinear_arith)
        requires
            q == number(g) * number(m),
    ;
    let low = 1real / 1000000real;
    lemma_product_close(x, eta, size(p) + low);
    lemma_eps(size(p) + low);
    lemma_product_close(m, g, size(q) + low);
    lemma_eps(size(q) + low);
    let (a, b) = (x.product(eta), m.product(g));
    let wide = size(number(a) + number(b)) + low;
    lemma_sum_close(a, b, wide);
    lemma_eps(wide);
}

/// A vector of equal small components.
proof fn lemma_even_vector(k: real)
    requires
        k >= 0real,
    ensures
        short(Triple { x: k, y: k, z: k }, 2real * k),
{
    assert(k * k + k * k + k * k <= (2real * k) * (2real * k)) by (nonlinear_arith);
}

/// A length in units of one rounding.
proof fn lemma_short_rounding(a: Triple, b: Triple, e: real, f: real)
    requires
        short(a, e),
        short(b, f),
    ensures
        short(combined(a, 1real / 16700000real, b), e + f / 16700000real),
{
    let k = 1real / 16700000real;
    lemma_short_sum(a, k, b, e, f);
    assert(size(k) * f == f / 16700000real) by (nonlinear_arith)
        requires
            size(k) == 1real / 16700000real,
    ;
}

/// The transmitted direction, as it is rounded.
proof fn lemma_direction_close(
    d: Vector,
    n: Vector,
    eta: Scalar,
    g: Scalar,
    p: Passage,
    e: real,
    r: real,
)
    requires
        finite(d),
        finite(n),
        eta.finite(),
        g.finite(),
        is_unit(triple(d)),
        is_unit(triple(n)),
        are_units(e, r),
        p.h == number(eta),
        p.g == number(g),
        size(p.h) <= (10001real / 10000real) * r,
        size(p.g) <= (101real / 100real) * r,
        short(transmitted(p, triple(d), triple(n)), 10015real / 10000real),
    ensures
        ({
            let t = vector_sum(vector_scaled(d, eta), vector_scaled(n, g));
            &&& finite(t)
            &&& short(
                minus(triple(t), transmitted(p, triple(d), triple(n))),
                (305real / 100real) * e,
            )
        }),
{
    let (a, m) = (triple(d), triple(n));
    let t = vector_sum(vector_scaled(d, eta), vector_scaled(n, g));
    let v = transmitted(p, a, m);
    let c = minus(triple(t), v);
    let (ha, gm) = (scaled(p.h, a), scaled(p.g, m));
    lemma_unit_short(a);
    lemma_unit_short(m);
    let (lh, lg) = ((10001real / 10000real) * r, (101real / 100real) * r);
    lemma_short_scaled(p.h, a, 100001real / 100000real, lh);
    lemma_short_scaled(p.g, m, 100001real / 100000real, lg);
    let (eh, eg) = (lh * (100001real / 100000real), lg * (100001real / 100000real));
    lemma_short_components(ha, eh);
    lemma_short_components(gm, eg);
    lemma_direction_component(d.x, n.x, eta, g);
    lemma_direction_component(d.y, n.y, eta, g);
    lemma_direction_component(d.z, n.z, eta, g);
    lemma_short_sizes(ha, eh);
    lemma_short_sizes(gm, eg);
    lemma_short_sizes(v, 10015real / 10000real);
    let k = (1real / 10000real) / 16700000real;
    let even = Triple { x: k, y: k, z: k };
    lemma_even_vector(k);
    let s1 = combined(even, 1real / 16700000real, sizes(ha));
    lemma_short_rounding(even, sizes(ha), 2real * k, eh);
    let e1 = 2real * k + eh / 16700000real;
    let s2 = combined(s1, 1real / 16700000real, sizes(gm));
    lemma_short_rounding(s1, sizes(gm), e1, eg);
    let e2 = e1 + eg / 16700000real;
    let s3 = combined(s2, 1real / 16700000real, sizes(v));
    lemma_short_rounding(s2, sizes(v), e2, 10015real / 10000real);
    let e3 = e2 + (10015real / 10000real) / 16700000real;
    lemma_short_smaller(c, s3, e3);
    assert(e3 <= (305real / 100real) * e) by {
        assert(r / 16700000real <= e);
        assert(e3 <= (302real / 100real) * (r / 16700000real));
    }
    lemma_short_longer(c, e3, (305real / 100real) * e);
}

/// The length of a vector that lies near another.
proof fn lemma_length_near(u: Triple, v: Triple, e: real)
    requires
        0real <= e <= 1real / 16000real,
        short(minus(u, v), (305real / 100real) * e),
        short(v, 10015real / 10000real),
        size(inner(v, v) - 1real) <= 39real * e,
    ensures
        size(inner(u, u) - 1real) <= 46real * e,
{
    let c = minus(u, v);
    let l = (305real / 100real) * e;
    lemma_inner_short(c, v, l, 10015real / 10000real);
    lemma_inner_short(c, c, l, l);
    assert(l * l <= e / 10real) by (nonlinear_arith)
        requires
            l == (305real / 100real) * e,
            0real <= e <= 1real / 16000real,
    ;
    lemma_inner_sum(u, v, c, u);
    lemma_inner_sum(u, v, c, v);
    lemma_inner_sum(u, v, c, c);
    lemma_inner_commutes(v, u);
    lemma_inner_commutes(c, u);
    lemma_inner_commutes(v, c);
    assert(inner(u, u) == inner(v, v) + 2real * inner(c, v) + inner(c, c));
}

/// The factor that brings such a vector to unit length.
proof fn lemma_factor_near_one(k: real, tt: real, e: real)
    requires
        k > 0real,
        0real <= e <= 1real / 16000real,
        size((k * k) * tt - 1real) <= (714real / 100real) * e,
        size(tt - 1real) <= 46real * e,
    ensures
        size(k - 1real) <= 27real * e,
{
    let kk = k * k;
    let f = tt - 1real;
    assert(kk * tt == kk + kk * f) by (nonlinear_arith)
        requires
            f == tt - 1real,
    ;
    assert(kk > 0real) by (nonlinear_arith)
        requires
            kk == k * k,
            k > 0real,
    ;
    assert(kk * f >= -(kk / 100real)) by (nonlinear_arith)
        requires
            f >= -1real / 100real,
            kk > 0real,
    ;
    assert(kk <= 102real / 100real);
    lemma_small_product(f, kk, 46real * e, 102real / 100real);
    assert(f * kk == kk * f) by (nonlinear_arith);
    assert(size(kk - 1real) <= (5407real / 100real) * e);
    // Once more, with a better bound on the square.
    lemma_small_product(f, kk, 46real * e, 1004real / 1000real);
    assert(size(kk - 1real) <= (5333real / 100real) * e);
    let g = k - 1real;
    assert(g * (k + 1real) == kk - 1real) by (nonlinear_arith)
        requires
            g == k - 1real,
            kk == k * k,
    ;
    assert(k >= 996real / 1000real) by (nonlinear_arith)
        requires
            k * k >= 996real / 1000real,
            k > 0real,
    ;
    let h = k + 1real;
    let b = (5333real / 100real) * e;
    assert(g <= 27real * e && -g <= 27real * e) by (nonlinear_arith)
        requires
            g * h <= b,
            -(g * h) <= b,
            h >= 1996real / 1000real,
            b == (5333real / 100real) * e,
            e >= 0real,
    ;
}

/// What is left of the transmitted direction beside its exact multiple.
proof fn lemma_residual(t: Triple, u: Triple, v: Triple, k: real, e: real)
    requires
        1real / 16700000real <= e <= 1real / 16000real,
        size(k - 1real) <= 27real * e,
        apart(t, scaled(k, u), (101real / 100real) * (1real / 16700000real)),
        short(minus(u, v), (305real / 100real) * e),
    ensures
        short(minus(t, scaled(k, v)), 5real * e),
{
    let a = minus(t, scaled(k, u));
    let b = minus(u, v);
    let l = (101real / 100real) * e;
    let even = Triple { x: l, y: l, z: l };
    assert(short(even, (176real / 100real) * e)) by {
        assert(l * l + l * l + l * l <= ((176real / 100real) * e) * ((176real / 100real) * e))
            by (nonlinear_arith)
            requires
                l == (101real / 100real) * e,
        ;
    }
    lemma_short_smaller(a, even, (176real / 100real) * e);
    lemma_short_sum(a, k, b, (176real / 100real) * e, (305real / 100real) * e);
    let c = combined(a, k, b);
    assert(k * u.x - k * v.x == k * (u.x - v.x)) by (nonlinear_arith);
    assert(k * u.y - k * v.y == k * (u.y - v.y)) by (nonlinear_arith);
    assert(k * u.z - k * v.z == k * (u.z - v.z)) by (nonlinear_arith);
    assert(c == minus(t, scaled(k, v)));
    let kl = size(k) * ((305real / 100real) * e);
    assert(kl <= (102real / 100real) * ((305real / 100real) * e)) by (nonlinear_arith)
        requires
            kl == size(k) * ((305real / 100real) * e),
            size(k) <= 102real / 100real,
            e >= 0real,
    ;
    lemma_short_longer(c, (176real / 100real) * e + kl, 5real * e);
}

proof fn lemma_along_scaled(k: real, a: Triple, n: Triple)
    ensures
        along_surface(scaled(k, a), n) == scaled(k, along_surface(a, n)),
{
    lemma_inner_scaled(k, a, n);
    let s = inner(a, n);
    lemma_scaled_component(k, a.x, s, n.x);
    lemma_scaled_component(k, a.y, s, n.y);
    lemma_scaled_component(k, a.z, s, n.z);
}

proof fn lemma_scaled_component(k: real, a: real, s: real, n: real)
    ensures
        k * a + (-(k * s)) * n == k * (a + (-s) * n),
{
    assert(k * a + (-(k * s)) * n == k * (a + (-s) * n)) by (nonlinear_arith);
}

proof fn lemma_along_normal(m: Triple)
    ensures
        along_surface(m, m) == scaled(1real - inner(m, m), m),
{
    let nn = inner(m, m);
    assert(m.x + (-nn) * m.x == (1real - nn) * m.x) by (nonlinear_arith);
    assert(m.y + (-nn) * m.y == (1real - nn) * m.y) by (nonlinear_arith);
    assert(m.z + (-nn) * m.z == (1real - nn) * m.z) by (nonlinear_arith);
}

/// What of the transmitted direction lies along the surface, and what along the
/// normal.
proof fn lemma_direction_parts(
    p: Passage,
    a: Triple,
    m: Triple,
    t: Triple,
    k: real,
    ratio: real,
    e: real,
    r: real,
)
    requires
        is_passage(p, ratio, inner(a, m), e, r),
        is_unit(a),
        is_unit(m),
        are_units(e, r),
        size(k - 1real) <= 27real * e,
        short(transmitted(p, a, m), 10015real / 10000real),
        short(minus(t, scaled(k, transmitted(p, a, m))), 5real * e),
    ensures
        short(
            minus(along_surface(t, m), scaled(ratio, along_surface(a, m))),
            44real * e,
        ),
        size(inner(t, m) + p.w) <= 48real * e,
{
    let v = transmitted(p, a, m);
    let rest = minus(t, scaled(k, v));
    let (nn, q) = (inner(m, m), inner(a, m));
    lemma_unit_short(a);
    lemma_unit_short(m);
    // Along the surface.
    assert(combined(rest, k, v) == t);
    lemma_along_combined(rest, k, v, m);
    lemma_along_combined(scaled(p.h, a), p.g, m, m);
    lemma_along_scaled(p.h, a, m);
    lemma_along_normal(m);
    lemma_along_short(rest, m, 5real * e);
    lemma_along_short(v, m, 10015real / 10000real);
    lemma_along_short(a, m, 100001real / 100000real);
    let (ra, va, aa) = (along_surface(rest, m), along_surface(v, m), along_surface(a, m));
    let f = k - 1real;
    let x1 = combined(ra, f, va);
    lemma_short_sum(ra, f, va, 5real * e, 10015real / 10000real);
    let e1 = 5real * e + size(f) * (10015real / 10000real);
    let b = p.g * (1real - nn);
    assert(size(p.g) / 16700000real <= (101real / 100real) * e);
    lemma_scaled_error(p.g, 1real - nn, 10real, 101real / 100real, e);
    let x2 = combined(x1, b, m);
    lemma_short_sum(x1, b, m, e1, 100001real / 100000real);
    let e2 = e1 + size(b) * (100001real / 100000real);
    let j = p.h - ratio;
    let x3 = combined(x2, j, aa);
    lemma_short_sum(x2, j, aa, e2, 100001real / 100000real);
    let e3 = e2 + size(j) * (100001real / 100000real);
    assert(size(j) <= (1001real / 1000real) * e);
    assert(e3 <= 44real * e);
    lemma_parts_component(ra.x, va.x, m.x, aa.x, k, p.h, p.g, nn, ratio);
    lemma_parts_component(ra.y, va.y, m.y, aa.y, k, p.h, p.g, nn, ratio);
    lemma_parts_component(ra.z, va.z, m.z, aa.z, k, p.h, p.g, nn, ratio);
    assert(x3 == minus(along_surface(t, m), scaled(ratio, aa)));
    lemma_short_longer(x3, e3, 44real * e);
    // Along the normal.
    lemma_inner_combined(rest, k, v, m);
    lemma_inner_combined(scaled(p.h, a), p.g, m, m);
    lemma_inner_scaled(p.h, a, m);
    lemma_inner_short(rest, m, 5real * e, 100001real / 100000real);
    lemma_normal_part(p, q, nn, ratio, e, r);
    let y = inner(v, m);
    lemma_small_product(f, y, 27real * e, 1004real / 1000real);
    assert(k * y == y + f * y) by (nonlinear_arith)
        requires
            f == k - 1real,
    ;
}

proof fn lemma_parts_component(
    ra: real,
    va: real,
    m: real,
    aa: real,
    k: real,
    h: real,
    g: real,
    nn: real,
    ratio: real,
)
    requires
        va == h * aa + g * ((1real - nn) * m),
    ensures
        ((ra + (k - 1real) * va) + (g * (1real - nn)) * m) + (h - ratio) * aa == (ra + k * va)
            - ratio * aa,
{
    assert((k - 1real) * va == k * va - va) by (nonlinear_arith);
    assert(g * ((1real - nn) * m) == (g * (1real - nn)) * m) by (nonlinear_arith);
    assert((h - ratio) * aa == h * aa - ratio * aa) by (nonlinear_arith);
}

/// The part along the normal before rounding.
proof fn lemma_normal_part(p: Passage, q: real, nn: real, ratio: real, e: real, r: real)
    requires
        is_passage(p, ratio, q, e, r),
        size(nn - 1real) <= 10real / 16700000real,
        are_units(e, r),
    ensures
        size((p.h * q + p.g * nn) + p.w) <= (154real / 10real) * e,
{
    let (h, c, w, g) = (p.h, p.c, p.w, p.g);
    assert(size(h) / 16700000real <= (10001real / 10000real) * e);
    assert(size(g) / 16700000real <= (101real / 100real) * e);
    lemma_scaled_error(h, c + q, 311real / 100real, 10001real / 10000real, e);
    lemma_scaled_error(g, nn - 1real, 10real, 101real / 100real, e);
    let f = g - (h * c - w);
    assert(h * q == h * (c + q) - h * c) by (nonlinear_arith);
    assert(g * nn == g + g * (nn - 1real)) by (nonlinear_arith);
}

/// Refraction obeys Snell's law: where a direction is transmitted, it is a unit
/// vector, and what of it lies along the surface is that of the incident
/// direction times the ratio of the indices, which fixes both the sine and the
/// sense. The component along the normal is the cosine of transmission: away
/// from grazing the direction goes on through the surface. The errors are in
/// units of one rounding, times the square of the ratio where it is above one.
pub proof fn lemma_snell(d: Vector, n: Vector, n1: Scalar, n2: Scalar)
    requires
        is_unit_vector(d),
        is_unit_vector(n),
        are_media(n1, n2),
    ensures
        refracted(d, n, n1, n2) matches Some(t) ==> {
            let (a, u, m) = (triple(d), triple(t), triple(n));
            let ratio = number(n1) / number(n2);
            let k = cosine_square(ratio, inner(a, m));
            let e = grain(ratio);
            &&& is_unit_vector(t)
            &&& short(minus(along_surface(u, m), scaled(ratio, along_surface(a, m))), 44real * e)
            &&& size(inner(u, m) * inner(u, m) - k) <= 120real * e
            &&& k >= 18real * e && size(inner(a, m)) >= 4real * eps() ==> (inner(u, m) > 0real
                <==> inner(a, m) > 0real) && inner(u, m) != 0real
        },
{
    if let Some(t) = refracted(d, n, n1, n2) {
        let ratio = number(n1) / number(n2);
        let (e, r) = (grain(ratio), reach(ratio));
        let i = incidence(d, n);
        let eta = n1.quotient(n2);
        let radicand = (Scalar { bits: ONE_BITS }).difference(transmitted_sine(eta, i.cos_i));
        let g = eta.product(i.cos_i).difference(radicand.square_root());
        let p = passage(d, n, n1, n2);
        let (a, u, nt, m) = (triple(d), triple(t), triple(n), triple(i.normal));
        lemma_ratio_close(n1, n2);
        lemma_grain(ratio);
        lemma_incidence_close(d, n);
        lemma_passage(d, n, n1, n2);
        lemma_transmitted_square(p, a, m, ratio, e, r);
        lemma_direction_close(d, i.normal, eta, g, p, e, r);
        let v = transmitted(p, a, m);
        let sum = vector_sum(vector_scaled(d, eta), vector_scaled(i.normal, g));
        lemma_length_near(triple(sum), v, e);
        let k = lemma_unit_close(sum);
        lemma_factor_near_one(k, inner(triple(sum), triple(sum)), e);
        lemma_residual(u, triple(sum), v, k, e);
        lemma_direction_parts(p, a, m, u, k, ratio, e, r);
        if m != nt {
            lemma_along_ignores_side(u, nt, m);
            lemma_along_ignores_side(a, nt, m);
        }
        lemma_transmitted_cosine(p, inner(a, m), inner(u, m), ratio, e, r);
        let (q, s, x, y) = (inner(a, m), inner(a, nt), inner(u, m), inner(u, nt));
        assert(q * q == s * s) by (nonlinear_arith)
            requires
                q == s || q == -s,
        ;
        assert(x * x == y * y) by (nonlinear_arith)
            requires
                x == y || x == -y,
        ;
    }
}

/// The square of the transmitted cosine, and its sign.
proof fn lemma_transmitted_cosine(p: Passage, q: real, x: real, ratio: real, e: real, r: real)
    requires
        is_passage(p, ratio, q, e, r),
        0real <= ratio <= r,
        are_units(e, r),
        size(x + p.w) <= 48real * e,
    ensures
        size(x * x - cosine_square(ratio, q)) <= 120real * e,
        cosine_square(ratio, q) >= 18real * e ==> x < 0real,
        size(q) >= 4real * (1real / 16700000real) ==> q < 0real,
{
    let w = p.w;
    lemma_cosine_squares(p.h, p.c, ratio, q, e, r);
    let f = x + w;
    assert(x * x == w * w - 2real * (f * w) + f * f) by (nonlinear_arith)
        requires
            f == x + w,
    ;
    lemma_small_product(f, w, 48real * e, 1002real / 1000real);
    lemma_small_product(f, f, 48real * e, 3real / 1000real);
    if cosine_square(ratio, q) >= 18real * e {
        assert(w * w >= 2real * e);
        assert(w > 48real * e) by (nonlinear_arith)
            requires
                w * w >= 2real * e,
                w >= 0real,
                0real < e <= 1real / 16000real,
        ;
    }
}

} // verus!
