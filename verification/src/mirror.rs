//! The law of reflection.
use crate::exact::close;
use crate::exact::eps;
use crate::exact::lemma_difference_close;
use crate::exact::lemma_product_close;
use crate::exact::number;
use crate::exact::size;
use crate::geom::TWO_BITS;
use crate::optics::mirrored;
use crate::scalar::Scalar;
use crate::snell::is_unit_vector;
use crate::snell::lemma_inner_combined;
use crate::snell::lemma_inner_commutes;
use crate::snell::lemma_inner_sum;
use crate::snell::lemma_small_product;
use crate::snell::lemma_two_number;
use crate::triple::apart;
use crate::triple::combined;
use crate::triple::finite;
use crate::triple::inner;
use crate::triple::lemma_component_bounds;
use crate::triple::lemma_eps;
use crate::triple::lemma_from_square;
use crate::triple::lemma_half_squares;
use crate::triple::lemma_products_summed;
use crate::triple::triple;
use crate::triple::Triple;
use crate::vector::dot;
use crate::vector::Vector;
use vstd::prelude::*;

verus! {

/// A scale that keeps clear of underflow and of overflow: from 1e-24 to 1e24.
pub open spec fn is_scale(scale: real) -> bool {
    1real / 1000000000000000000000000real <= scale <= 1000000000000000000000000real
}

/// A vector of length `scale` at most.
pub open spec fn within(d: Vector, scale: real) -> bool {
    finite(d) && inner(triple(d), triple(d)) <= scale * scale && is_scale(scale)
}

/// The exact mirror image of a vector.
pub open spec fn mirror_image(d: Triple, n: Triple) -> Triple {
    combined(d, -(2real * inner(d, n)), n)
}

/// A product is at most the weighted mean of the squares.
proof fn lemma_weighted_squares(x: real, y: real, scale: real)
    requires
        scale > 0real,
    ensures
        2real * size(x * y) <= (x * x) / scale + scale * (y * y),
{
    let (a, b) = (size(x), size(y));
    assert(a * b == size(x * y)) by (nonlinear_arith)
        requires
            a == size(x),
            b == size(y),
    ;
    assert(a * a == x * x && b * b == y * y) by (nonlinear_arith)
        requires
            a == x || a == -x,
            b == y || b == -y,
    ;
    let r = (x * x) / scale;
    assert(r * scale == a * a) by (nonlinear_arith)
        requires
            r == (a * a) / scale,
            scale > 0real,
    ;
    let d = a - scale * b;
    assert(d * d == a * a - 2real * (scale * (a * b)) + scale * (scale * (b * b)))
        by (nonlinear_arith)
        requires
            d == a - scale * b,
    ;
    assert(d * d >= 0real) by (nonlinear_arith);
    let (p, q) = (a * b, scale * (b * b));
    assert((r + q - 2real * p) * scale >= 0real) by (nonlinear_arith)
        requires
            r * scale - 2real * (scale * p) + scale * q >= 0real,
    ;
    let z = r + q - 2real * p;
    assert(z >= 0real) by (nonlinear_arith)
        requires
            z * scale >= 0real,
            scale > 0real,
    ;
}

/// The products of the components of a bounded and a unit vector.
pub proof fn lemma_scaled_inner(a: Triple, m: Triple, scale: real)
    requires
        scale > 0real,
        inner(a, a) <= scale * scale,
        inner(m, m) <= 1001real / 1000real,
    ensures
        size(a.x * m.x) + size(a.y * m.y) + size(a.z * m.z) <= (1001real / 1000real) * scale,
        size(inner(a, m)) <= (1001real / 1000real) * scale,
{
    lemma_weighted_squares(a.x, m.x, scale);
    lemma_weighted_squares(a.y, m.y, scale);
    lemma_weighted_squares(a.z, m.z, scale);
    let (p, q, r) = (a.x * a.x, a.y * a.y, a.z * a.z);
    let (u, v, w) = (m.x * m.x, m.y * m.y, m.z * m.z);
    assert(p / scale + q / scale + r / scale <= scale) by (nonlinear_arith)
        requires
            p + q + r <= scale * scale,
            scale > 0real,
    ;
    assert(scale * u + scale * v + scale * w <= (1001real / 1000real) * scale) by (nonlinear_arith)
        requires
            u + v + w <= 1001real / 1000real,
            scale > 0real,
    ;
}

/// The sizes of the components of a vector of bounded length.
pub proof fn lemma_component_sum(m: Triple, scale: real)
    requires
        scale >= 0real,
        inner(m, m) <= (1001real / 1000real) * (scale * scale),
    ensures
        size(m.x) + size(m.y) + size(m.z) <= (174real / 100real) * scale,
{
    let (a, b, c) = (size(m.x), size(m.y), size(m.z));
    lemma_half_squares(a, b);
    lemma_half_squares(b, c);
    lemma_half_squares(c, a);
    let s = a + b + c;
    assert(s * s == a * a + b * b + c * c + 2real * (a * b) + 2real * (b * c) + 2real * (c * a))
        by (nonlinear_arith)
        requires
            s == a + b + c,
    ;
    assert(a * a == m.x * m.x && b * b == m.y * m.y && c * c == m.z * m.z) by (nonlinear_arith)
        requires
            a == m.x || a == -m.x,
            b == m.y || b == -m.y,
            c == m.z || c == -m.z,
    ;
    let ss = s * s;
    assert(ss <= 3real * inner(m, m));
    let t = (174real / 100real) * scale;
    assert(t * t == (30276real / 10000real) * (scale * scale)) by (nonlinear_arith)
        requires
            t == (174real / 100real) * scale,
    ;
    let q = scale * scale;
    assert(q >= 0real) by (nonlinear_arith)
        requires
            q == scale * scale,
    ;
    assert(inner(m, m) <= (1001real / 1000real) * q);
    assert(t * t == (30276real / 10000real) * q);
    let mm = inner(m, m);
    assert(ss <= t * t) by (nonlinear_arith)
        requires
            ss <= 3real * mm,
            mm <= (1001real / 1000real) * q,
            t * t == (30276real / 10000real) * q,
            q >= 0real,
    ;
    lemma_from_square(s, t);
}

/// The inner product with a vector of small components.
pub proof fn lemma_small_inner(c: Triple, m: Triple, e: real, scale: real)
    requires
        size(c.x) <= e,
        size(c.y) <= e,
        size(c.z) <= e,
        scale >= 0real,
        inner(m, m) <= (1001real / 1000real) * (scale * scale),
    ensures
        size(inner(c, m)) <= (174real / 100real) * (scale * e),
{
    lemma_component_sum(m, scale);
    lemma_small_product(c.x, m.x, e, size(m.x));
    lemma_small_product(c.y, m.y, e, size(m.y));
    lemma_small_product(c.z, m.z, e, size(m.z));
    let (a, b, d) = (size(m.x), size(m.y), size(m.z));
    let s = a + b + d;
    assert(a * e + b * e + d * e == s * e) by (nonlinear_arith)
        requires
            s == a + b + d,
    ;
    assert(s * e <= (174real / 100real) * (scale * e)) by (nonlinear_arith)
        requires
            s <= (174real / 100real) * scale,
            e >= 0real,
    ;
}

/// A reflected vector is close to the exact mirror image.
proof fn lemma_mirror_close(d: Vector, n: Vector, scale: real)
    requires
        finite(d),
        inner(triple(d), triple(d)) <= scale * scale,
        is_scale(scale) || is_scale(scale / 2real),
        is_unit_vector(n),
    ensures
        finite(mirrored(d, n)),
        apart(
            triple(mirrored(d, n)),
            mirror_image(triple(d), triple(n)),
            14real * (scale * eps()),
        ),
{
    let (a, b) = (triple(d), triple(n));
    let s = inner(a, b);
    assert(eps() == 1real / 16700000real);
    let wide = (1001real / 1000real) * scale;
    lemma_scaled_inner(a, b, scale);
    lemma_products_summed(d, n, a.x * b.x, a.y * b.y, a.z * b.z, wide);
    lemma_eps((31real / 10real) * wide);
    lemma_eps(scale);
    lemma_two_number();
    let two = Scalar { bits: TWO_BITS };
    let p = dot(d, n);
    let f = two.product(p);
    assert(2real * number(p) == number(two) * number(p));
    lemma_product_close(two, p, (201real / 100real) * scale);
    lemma_eps((201real / 100real) * scale);
    assert(close(f, 2real * s, (85real / 10real) * (scale * eps())));
    lemma_component_bounds(a, scale);
    lemma_component_bounds(b, 1001real / 1000real);
    lemma_mirror_component(d.x, n.x, f, s, scale);
    lemma_mirror_component(d.y, n.y, f, s, scale);
    lemma_mirror_component(d.z, n.z, f, s, scale);
}

proof fn lemma_mirror_component(x: Scalar, m: Scalar, f: Scalar, s: real, scale: real)
    requires
        x.finite(),
        m.finite(),
        is_scale(scale) || is_scale(scale / 2real),
        size(number(x)) <= scale,
        size(number(m)) <= 1001real / 1000real,
        size(s) <= (1001real / 1000real) * scale,
        close(f, 2real * s, (85real / 10real) * (scale * eps())),
    ensures
        close(
            x.difference(m.product(f)),
            number(x) + (-(2real * s)) * number(m),
            14real * (scale * eps()),
        ),
{
    assert(eps() == 1real / 16700000real);
    lemma_eps(scale);
    let e = scale * eps();
    let (a, b) = (number(m), number(f));
    let c = b - 2real * s;
    let wide = (203real / 100real) * scale;
    lemma_small_product(a, b, 1001real / 1000real, (2003real / 1000real) * scale);
    assert((2003real / 1000real) * scale * (1001real / 1000real) <= wide) by (nonlinear_arith)
        requires
            wide == (203real / 100real) * scale,
            scale > 0real,
    ;
    lemma_product_close(m, f, wide);
    lemma_eps(wide);
    lemma_small_product(c, a, (85real / 10real) * e, 1001real / 1000real);
    assert(a * b == a * (2real * s) + c * a) by (nonlinear_arith)
        requires
            c == b - 2real * s,
    ;
    let p = m.product(f);
    assert(a * (2real * s) == -((-(2real * s)) * a)) by (nonlinear_arith);
    lemma_difference_close(x, p, (31real / 10real) * scale);
    lemma_eps((31real / 10real) * scale);
}

/// The exact mirror image: its component along the normal, and its length.
proof fn lemma_mirror_along(t: Triple, m: Triple)
    ensures
        ({
            let v = mirror_image(t, m);
            let s = inner(t, m);
            let w = s * (inner(m, m) - 1real);
            inner(v, m) == -s - 2real * w && inner(v, v) == inner(t, t) + 4real * (s * w)
        }),
{
    let v = mirror_image(t, m);
    let s = inner(t, m);
    let nn = inner(m, m);
    let w = s * (nn - 1real);
    let k = -(2real * s);
    lemma_inner_combined(t, k, m, m);
    lemma_inner_combined(t, k, m, t);
    lemma_inner_combined(t, k, m, v);
    lemma_inner_commutes(t, v);
    lemma_inner_commutes(m, v);
    lemma_inner_commutes(m, t);
    assert(k * nn == -(2real * s) - 2real * w) by (nonlinear_arith)
        requires
            k == -(2real * s),
            w == s * (nn - 1real),
    ;
    assert(inner(v, v) == inner(t, t) + k * s + k * (s + k * nn));
    assert(k * s + k * (s + k * nn) == 4real * (s * w)) by (nonlinear_arith)
        requires
            k == -(2real * s),
            k * nn == -(2real * s) - 2real * w,
    ;
}

/// The length is kept.
proof fn lemma_length_kept(t: Triple, u: Triple, m: Triple, scale: real)
    requires
        scale > 0real,
        inner(t, t) <= scale * scale,
        size(inner(m, m) - 1real) <= 10real * eps(),
        apart(u, mirror_image(t, m), 14real * (scale * eps())),
    ensures
        size(inner(u, u) - inner(t, t)) <= scale * scale / 150000real,
{
    assert(eps() == 1real / 16700000real);
    lemma_eps(scale);
    let e = scale * eps();
    let v = mirror_image(t, m);
    let c = Triple { x: u.x - v.x, y: u.y - v.y, z: u.z - v.z };
    let s = inner(t, m);
    let z = inner(m, m) - 1real;
    let ss = scale * scale;
    lemma_scaled_inner(t, m, scale);
    lemma_mirror_along(t, m);
    assert(ss > 0real) by (nonlinear_arith)
        requires
            ss == scale * scale,
            scale > 0real,
    ;
    lemma_small_product(s, s, (1001real / 1000real) * scale, (1001real / 1000real) * scale);
    assert((1001real / 1000real) * scale * ((1001real / 1000real) * scale) <= (1003real / 1000real)
        * ss) by (nonlinear_arith)
        requires
            ss == scale * scale,
            scale > 0real,
    ;
    lemma_small_product(z, s * s, 10real * eps(), (1003real / 1000real) * ss);
    assert(s * (s * z) == z * (s * s)) by (nonlinear_arith);
    lemma_eps((1003real / 1000real) * ss);
    assert((1003real / 1000real) * ss * (10real * eps()) == 10real * ((1003real / 1000real) * ss
        * eps())) by (nonlinear_arith);
    lemma_eps(ss);
    let (zs, h) = (size(z * (s * s)), (1003real / 1000real) * ss * (10real * eps()));
    assert(zs <= ss / 1600000real) by (nonlinear_arith)
        requires
            zs <= h,
            h == (1003real / 1000real) * ss * (10real * eps()),
            eps() == 1real / 16700000real,
            ss > 0real,
    ;
    assert(size(4real * (s * (s * z))) <= ss / 400000real);
    assert(inner(v, v) <= ss + ss / 400000real);
    assert(inner(v, v) <= (1001real / 1000real) * ss);
    lemma_small_inner(c, v, 14real * e, scale);
    assert(scale * (14real * e) == 14real * (ss * eps())) by (nonlinear_arith)
        requires
            e == scale * eps(),
            ss == scale * scale,
    ;
    lemma_small_product(c.x, c.x, 14real * e, 14real * e);
    lemma_small_product(c.y, c.y, 14real * e, 14real * e);
    lemma_small_product(c.z, c.z, 14real * e, 14real * e);
    assert((14real * e) * (14real * e) <= ss / 100000000real) by (nonlinear_arith)
        requires
            e == scale / 16700000real,
            ss == scale * scale,
            scale > 0real,
    ;
    lemma_inner_sum(u, v, c, u);
    lemma_inner_sum(u, v, c, v);
    lemma_inner_sum(u, v, c, c);
    lemma_inner_commutes(v, u);
    lemma_inner_commutes(c, u);
    lemma_inner_commutes(v, c);
    assert(inner(u, u) == inner(v, v) + 2real * inner(c, v) + inner(c, c));
}

proof fn lemma_tangent_component(
    u: real,
    t: real,
    v: real,
    m: real,
    s: real,
    g: real,
    e: real,
)
    requires
        size(u - v) <= 14real * e,
        v == t + (-(2real * s)) * m,
        size(m) <= 1001real / 1000real,
        size(g) <= 45real * e,
    ensures
        size((u + (-(g - s)) * m) - (t + (-s) * m)) <= 60real * e,
        size((u + (-(2real * (g - s))) * m) - t) <= 105real * e,
{
    let p = g * m;
    lemma_small_product(g, m, 45real * e, 1001real / 1000real);
    assert((-(g - s)) * m == s * m - p && (-s) * m == -(s * m) && (-(2real * s)) * m == -(2real * (
    s * m)) && (-(2real * (g - s))) * m == 2real * (s * m) - 2real * p) by (nonlinear_arith)
        requires
            p == g * m,
    ;
}

/// Reflection, as it is rounded: only the component along the normal flips; the
/// length and what lies along the surface stay, and a second reflection gives
/// the vector back. The errors are in proportion to the length.
pub proof fn lemma_reflection(d: Vector, n: Vector, scale: real)
    requires
        within(d, scale),
        is_unit_vector(n),
    ensures
        ({
            let r = mirrored(d, n);
            let (t, u, m) = (triple(d), triple(r), triple(n));
            &&& finite(r)
            &&& size(inner(u, m) + inner(t, m)) <= scale / 300000real
            &&& size(inner(u, u) - inner(t, t)) <= scale * scale / 150000real
            &&& apart(
                combined(u, -inner(u, m), m),
                combined(t, -inner(t, m), m),
                scale / 200000real,
            )
            &&& finite(mirrored(r, n))
            &&& apart(triple(mirrored(r, n)), t, scale / 100000real)
        }),
{
    let r = mirrored(d, n);
    let (t, u, m) = (triple(d), triple(r), triple(n));
    let s = inner(t, m);
    assert(eps() == 1real / 16700000real);
    lemma_eps(scale);
    let e = scale * eps();
    lemma_mirror_close(d, n, scale);
    let v = mirror_image(t, m);
    let c = Triple { x: u.x - v.x, y: u.y - v.y, z: u.z - v.z };
    let nn = inner(m, m);
    lemma_component_bounds(m, 1001real / 1000real);
    lemma_scaled_inner(t, m, scale);
    // The component along the normal.
    lemma_small_inner(c, m, 14real * e, 1real);
    lemma_inner_sum(u, v, c, m);
    lemma_mirror_along(t, m);
    let w = s * (nn - 1real);
    lemma_small_product(nn - 1real, s, 10real * eps(), (1001real / 1000real) * scale);
    assert(w == (nn - 1real) * s) by (nonlinear_arith)
        requires
            w == s * (nn - 1real),
    ;
    assert((1001real / 1000real) * scale * (10real * eps()) == (1001real / 100real) * e)
        by (nonlinear_arith)
        requires
            e == scale * eps(),
    ;
    let g = inner(u, m) + s;
    assert(size(g) <= 45real * e);
    // The length.
    lemma_length_kept(t, u, m, scale);
    // What lies along the surface, and the second reflection.
    lemma_tangent_component(u.x, t.x, v.x, m.x, s, g, e);
    lemma_tangent_component(u.y, t.y, v.y, m.y, s, g, e);
    lemma_tangent_component(u.z, t.z, v.z, m.z, s, g, e);
    assert(inner(u, m) == g - s);
    let more = (10001real / 10000real) * scale;
    assert(inner(u, u) <= more * more) by (nonlinear_arith)
        requires
            inner(u, u) <= scale * scale + scale * scale / 150000real,
            more == (10001real / 10000real) * scale,
            scale > 0real,
    ;
    lemma_mirror_close(r, n, more);
    lemma_eps(more);
}

} // verus!
