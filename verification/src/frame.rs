//! The axes of a camera: how nearly they are square to each other.
use crate::exact::close;
use crate::exact::eps;
use crate::exact::lemma_difference_close;
use crate::exact::lemma_product_close;
use crate::exact::number;
use crate::exact::size;
use crate::norm::lemma_inner_short;
use crate::norm::lemma_short_components;
use crate::norm::lemma_short_smaller;
use crate::norm::minus;
use crate::norm::scaled;
use crate::norm::short;
use crate::scalar::Scalar;
use crate::snell::is_unit_vector;
use crate::snell::lemma_inner_commutes;
use crate::snell::lemma_inner_sum;
use crate::snell::lemma_small_product;
use crate::transmission::lemma_inner_scaled;
use crate::triple::finite;
use crate::triple::inner;
use crate::triple::lemma_eps;
use crate::triple::lemma_half_squares;
use crate::triple::lemma_unit_close;
use crate::triple::triple;
use crate::triple::Triple;
use crate::vector::cross;
use crate::vector::unit;
use crate::vector::vector_difference;
use crate::vector::Vector;
use vstd::prelude::*;

verus! {

/// The exact cross product.
pub open spec fn crossed(a: Triple, b: Triple) -> Triple {
    Triple {
        x: a.y * b.z - b.y * a.z,
        y: a.z * b.x - b.z * a.x,
        z: a.x * b.y - b.x * a.y,
    }
}

/// The cross product is square to both factors.
pub proof fn lemma_crossed_square(a: Triple, b: Triple)
    ensures
        inner(crossed(a, b), a) == 0real,
        inner(crossed(a, b), b) == 0real,
{
    lemma_mixed(a.x, a.y, a.z, b.x, b.y, b.z);
    lemma_mixed(b.x, b.y, b.z, a.x, a.y, a.z);
    let c = crossed(a, b);
    assert(inner(c, b) == -((b.y * a.z - a.y * b.z) * b.x + (b.z * a.x - a.z * b.x) * b.y + (b.x
        * a.y - a.x * b.y) * b.z)) by {
        lemma_opposite(b.y * a.z, a.y * b.z, b.x);
        lemma_opposite(b.z * a.x, a.z * b.x, b.y);
        lemma_opposite(b.x * a.y, a.x * b.y, b.z);
    }
}

proof fn lemma_opposite(p: real, q: real, k: real)
    ensures
        (q - p) * k == -((p - q) * k),
{
    assert((q - p) * k == -((p - q) * k)) by (nonlinear_arith);
}

proof fn lemma_mixed(a: real, b: real, c: real, d: real, e: real, f: real)
    ensures
        (b * f - e * c) * a + (c * d - f * a) * b + (a * e - d * b) * c == 0real,
{
    assert((b * f - e * c) * a == (b * f) * a - (e * c) * a) by (nonlinear_arith);
    assert((c * d - f * a) * b == (c * d) * b - (f * a) * b) by (nonlinear_arith);
    assert((a * e - d * b) * c == (a * e) * c - (d * b) * c) by (nonlinear_arith);
    assert((b * f) * a == (f * a) * b) by (nonlinear_arith);
    assert((e * c) * a == (a * e) * c) by (nonlinear_arith);
    assert((c * d) * b == (d * b) * c) by (nonlinear_arith);
}

/// The squared length of the cross product.
pub proof fn lemma_crossed_length(a: Triple, b: Triple)
    ensures
        inner(crossed(a, b), crossed(a, b)) == inner(a, a) * inner(b, b) - inner(a, b) * inner(
            a,
            b,
        ),
{
    lemma_lagrange(a.x, a.y, a.z, b.x, b.y, b.z);
}

proof fn lemma_lagrange(a: real, b: real, c: real, d: real, e: real, f: real)
    ensures
        (b * f - e * c) * (b * f - e * c) + (c * d - f * a) * (c * d - f * a) + (a * e - d * b) * (a
            * e - d * b) == (a * a + b * b + c * c) * (d * d + e * e + f * f) - (a * d + b * e + c
            * f) * (a * d + b * e + c * f),
{
    let (p1, p2, p3, p4, p5, p6) = (b * f, e * c, c * d, f * a, a * e, d * b);
    lemma_square_difference(p1, p2);
    lemma_square_difference(p3, p4);
    lemma_square_difference(p5, p6);
    let (ad, be, cf) = (a * d, b * e, c * f);
    lemma_square_of_three(ad, be, cf);
    lemma_three_by_three(a * a, b * b, c * c, d * d, e * e, f * f);
    lemma_squares_multiply(a, d);
    lemma_squares_multiply(a, e);
    lemma_squares_multiply(f, a);
    lemma_squares_multiply(d, b);
    lemma_squares_multiply(b, e);
    lemma_squares_multiply(b, f);
    lemma_squares_multiply(c, d);
    lemma_squares_multiply(e, c);
    lemma_squares_multiply(c, f);
    assert((a * a) * (f * f) == (f * f) * (a * a)) by (nonlinear_arith);
    assert((b * b) * (d * d) == (d * d) * (b * b)) by (nonlinear_arith);
    assert((c * c) * (e * e) == (e * e) * (c * c)) by (nonlinear_arith);
    assert(p1 * p2 == be * cf) by {
        assert((b * f) * (e * c) == (b * e) * (c * f)) by (nonlinear_arith);
    }
    assert(p3 * p4 == ad * cf) by {
        assert((c * d) * (f * a) == (a * d) * (c * f)) by (nonlinear_arith);
    }
    assert(p5 * p6 == ad * be) by {
        assert((a * e) * (d * b) == (a * d) * (b * e)) by (nonlinear_arith);
    }
}

proof fn lemma_square_difference(p: real, q: real)
    ensures
        (p - q) * (p - q) == p * p - 2real * (p * q) + q * q,
{
    assert((p - q) * (p - q) == p * p - 2real * (p * q) + q * q) by (nonlinear_arith);
}

proof fn lemma_square_of_three(p: real, q: real, r: real)
    ensures
        (p + q + r) * (p + q + r) == p * p + q * q + r * r + 2real * (p * q) + 2real * (p * r)
            + 2real * (q * r),
{
    assert((p + q + r) * (p + q + r) == p * p + q * q + r * r + 2real * (p * q) + 2real * (p * r)
        + 2real * (q * r)) by (nonlinear_arith);
}

proof fn lemma_three_by_three(p: real, q: real, r: real, x: real, y: real, z: real)
    ensures
        (p + q + r) * (x + y + z) == p * x + p * y + p * z + q * x + q * y + q * z + r * x + r * y
            + r * z,
{
    let s = x + y + z;
    assert((p + q + r) * s == p * s + q * s + r * s) by (nonlinear_arith);
    assert(p * (x + y + z) == p * x + p * y + p * z) by (nonlinear_arith);
    assert(q * (x + y + z) == q * x + q * y + q * z) by (nonlinear_arith);
    assert(r * (x + y + z) == r * x + r * y + r * z) by (nonlinear_arith);
}

proof fn lemma_squares_multiply(p: real, q: real)
    ensures
        (p * q) * (p * q) == (p * p) * (q * q),
{
    assert((p * q) * (p * q) == (p * p) * (q * q)) by (nonlinear_arith);
}

/// A component of the cross product, as it is rounded.
proof fn lemma_cross_component(p: Scalar, q: Scalar, r: Scalar, t: Scalar)
    requires
        p.finite(),
        q.finite(),
        r.finite(),
        t.finite(),
        size(number(p) * number(q)) <= 102real / 100real,
        size(number(r) * number(t)) <= 102real / 100real,
    ensures
        close(
            p.product(q).difference(r.product(t)),
            number(p) * number(q) - number(r) * number(t),
            (41real / 10real) * eps(),
        ),
{
    assert(eps() == 1real / 16700000real);
    lemma_product_close(p, q, 102real / 100real);
    lemma_product_close(r, t, 102real / 100real);
    lemma_difference_close(p.product(q), r.product(t), 205real / 100real);
    lemma_eps(102real / 100real);
    lemma_eps(205real / 100real);
}

/// The cross product of vectors of unit length at most, as it is rounded.
pub proof fn lemma_cross_close(a: Vector, b: Vector)
    requires
        finite(a),
        finite(b),
        short(triple(a), 1001real / 1000real),
        short(triple(b), 1001real / 1000real),
    ensures
        finite(cross(a, b)),
        short(minus(triple(cross(a, b)), crossed(triple(a), triple(b))), (72real / 10real) * eps()),
{
    assert(eps() == 1real / 16700000real);
    let (s, t) = (triple(a), triple(b));
    let one = 1001real / 1000real;
    lemma_short_components(s, one);
    lemma_short_components(t, one);
    lemma_small_product(s.y, t.z, one, one);
    lemma_small_product(t.y, s.z, one, one);
    lemma_small_product(s.z, t.x, one, one);
    lemma_small_product(t.z, s.x, one, one);
    lemma_small_product(s.x, t.y, one, one);
    lemma_small_product(t.x, s.y, one, one);
    lemma_cross_component(a.y, b.z, b.y, a.z);
    lemma_cross_component(a.z, b.x, b.z, a.x);
    lemma_cross_component(a.x, b.y, b.x, a.y);
    let k = (41real / 10real) * eps();
    let even = Triple { x: k, y: k, z: k };
    let c = minus(triple(cross(a, b)), crossed(s, t));
    let l = (72real / 10real) * eps();
    assert(k * k + k * k + k * k <= l * l) by (nonlinear_arith)
        requires
            k == (41real / 10real) * (1real / 16700000real),
            l == (72real / 10real) * (1real / 16700000real),
    ;
    lemma_short_smaller(c, even, l);
}

/// Axes that are square to each other, and of unit length, but for rounding.
pub open spec fn are_axes(u: Triple, v: Triple, w: Triple) -> bool {
    &&& size(inner(w, w) - 1real) <= 1real / 200000real
    &&& size(inner(u, u) - 1real) <= 1real / 200000real
    &&& size(inner(v, v) - 1real) <= 1real / 200000real
    &&& size(inner(u, w)) <= 1real / 200000real
    &&& size(inner(v, w)) <= 1real / 200000real
    &&& size(inner(u, v)) <= 1real / 200000real
}

/// What a camera needs to see: the eye apart from the target, and an upward
/// direction that is not along the line of sight.
pub open spec fn has_sight(origin: Vector, target: Vector, up: Vector) -> bool {
    let sight = vector_difference(origin, target);
    let across = crossed(triple(up), triple(unit(sight)));
    &&& finite(sight)
    &&& finite(up)
    &&& 1real / 1000000real <= inner(triple(sight), triple(sight)) <= 1000000real
    &&& short(triple(up), 1001real / 1000real)
    &&& inner(across, across) >= 1real / 100real
}

/// The third axis.
pub proof fn lemma_third_axis(w: Vector, u: Vector)
    requires
        is_unit_vector(w),
        is_unit_vector(u),
        size(inner(triple(u), triple(w))) <= 80real * eps(),
    ensures
        finite(cross(w, u)),
        are_axes(triple(u), triple(cross(w, u)), triple(w)),
{
    let e = eps();
    assert(e == 1real / 16700000real);
    let (a, b) = (triple(w), triple(u));
    let v = triple(cross(w, u));
    let c = crossed(a, b);
    let f = minus(v, c);
    let one = 1001real / 1000real;
    assert(short(a, one) && short(b, one));
    lemma_cross_close(w, u);
    lemma_crossed_square(a, b);
    lemma_crossed_length(a, b);
    lemma_inner_commutes(a, b);
    let l = (72real / 10real) * e;
    lemma_inner_sum(v, c, f, a);
    lemma_inner_sum(v, c, f, b);
    lemma_inner_short(f, a, l, one);
    lemma_inner_short(f, b, l, one);
    lemma_inner_commutes(v, b);
    // The length.
    let (aa, bb, ab) = (inner(a, a), inner(b, b), inner(a, b));
    assert(size(aa * bb - 1real) <= 21real * e) by {
        let (p, q) = (aa - 1real, bb - 1real);
        assert(aa * bb == 1real + p + q + p * q) by (nonlinear_arith)
            requires
                p == aa - 1real,
                q == bb - 1real,
        ;
        lemma_small_product(p, q, 10real * e, 1real / 1000real);
    }
    lemma_small_product(ab, ab, 80real * e, 1real / 1000real);
    assert(short(c, 1001real / 1000real));
    lemma_inner_sum(v, c, f, v);
    lemma_inner_sum(v, c, f, c);
    lemma_inner_sum(v, c, f, f);
    lemma_inner_commutes(c, v);
    lemma_inner_commutes(f, v);
    lemma_inner_commutes(c, f);
    lemma_inner_short(f, c, l, one);
    lemma_inner_short(f, f, l, l);
    assert(l * l <= e) by (nonlinear_arith)
        requires
            l == (72real / 10real) * e,
            e == 1real / 16700000real,
    ;
    assert(inner(v, v) == inner(c, c) + 2real * inner(f, c) + inner(f, f));
}

/// The axes of a camera.
pub proof fn lemma_axes(origin: Vector, target: Vector, up: Vector)
    requires
        has_sight(origin, target, up),
    ensures
        ({
            let w = unit(vector_difference(origin, target));
            let u = unit(cross(up, w));
            let v = cross(w, u);
            &&& finite(w) && finite(u) && finite(v)
            &&& are_axes(triple(u), triple(v), triple(w))
        }),
{
    let e = eps();
    assert(e == 1real / 16700000real);
    let sight = vector_difference(origin, target);
    let w = unit(sight);
    let k0 = lemma_unit_close(sight);
    assert(is_unit_vector(w));
    let a = triple(w);
    let one = 1001real / 1000real;
    assert(short(a, one));
    let side = cross(up, w);
    lemma_cross_close(up, w);
    let (s, c) = (triple(side), crossed(triple(up), a));
    let f = minus(s, c);
    let l = (72real / 10real) * e;
    // The length of the side.
    lemma_crossed_length(triple(up), a);
    let (pp, aa, pa) = (inner(triple(up), triple(up)), inner(a, a), inner(triple(up), a));
    assert(inner(c, c) <= 2real) by {
        assert(pa * pa >= 0real) by (nonlinear_arith);
        let t = triple(up);
        lemma_half_squares(t.x, t.y);
        lemma_half_squares(t.z, t.y);
        lemma_small_product(pp, aa, 1003real / 1000real, 1001real / 1000real);
    }
    lemma_inner_sum(s, c, f, s);
    lemma_inner_sum(s, c, f, c);
    lemma_inner_sum(s, c, f, f);
    lemma_inner_commutes(c, s);
    lemma_inner_commutes(f, s);
    lemma_inner_commutes(c, f);
    assert(short(c, 142real / 100real));
    lemma_inner_short(f, c, l, 142real / 100real);
    lemma_inner_short(f, f, l, l);
    assert(l * l <= e) by (nonlinear_arith)
        requires
            l == (72real / 10real) * e,
            e == 1real / 16700000real,
    ;
    assert(inner(s, s) == inner(c, c) + 2real * inner(f, c) + inner(f, f));
    let k = lemma_unit_close(side);
    let u = unit(side);
    assert(is_unit_vector(u));
    let (kk, ss) = (k * k, inner(s, s));
    assert(kk >= 0real) by (nonlinear_arith)
        requires
            kk == k * k,
    ;
    assert(kk <= 102real) by (nonlinear_arith)
        requires
            kk * ss <= 1001real / 1000real,
            ss >= 99real / 10000real,
            kk >= 0real,
    ;
    assert(k <= 102real / 10real) by (nonlinear_arith)
        requires
            k * k <= 102real,
            k > 0real,
    ;
    // It is square to the line of sight.
    lemma_crossed_square(triple(up), a);
    lemma_inner_sum(s, c, f, a);
    lemma_inner_short(f, a, l, one);
    let ks = scaled(k, s);
    lemma_inner_scaled(k, s, a);
    let g = minus(triple(u), ks);
    let h = (101real / 100real) * e;
    let even = Triple { x: h, y: h, z: h };
    let m = (176real / 100real) * e;
    assert(h * h + h * h + h * h <= m * m) by (nonlinear_arith)
        requires
            h == (101real / 100real) * e,
            m == (176real / 100real) * e,
            e == 1real / 16700000real,
    ;
    lemma_short_smaller(g, even, m);
    lemma_inner_sum(triple(u), ks, g, a);
    lemma_inner_short(g, a, m, one);
    let sa = inner(s, a);
    lemma_small_product(sa, k, l * one, 102real / 10real);
    assert(sa * k == k * sa) by (nonlinear_arith);
    assert((102real / 10real) * (l * one) <= 74real * e) by (nonlinear_arith)
        requires
            l == (72real / 10real) * e,
            one == 1001real / 1000real,
            e == 1real / 16700000real,
    ;
    lemma_third_axis(w, u);
}

} // verus!
