//! Where a camera looks: ahead at its target, with the right of the image to the
//! right and its top upward.
use crate::camera::looking_at;
use crate::canvas::is_within;
use crate::canvas::lemma_dot_off;
use crate::exact::eps;
use crate::exact::lemma_difference_close;
use crate::exact::number;
use crate::exact::size;
use crate::frame::are_axes;
use crate::frame::crossed;
use crate::frame::has_sight;
use crate::frame::lemma_axes;
use crate::frame::lemma_cross_close;
use crate::frame::lemma_crossed_length;
use crate::frame::lemma_crossed_square;
use crate::norm::lemma_inner_short;
use crate::norm::lemma_short_components;
use crate::norm::lemma_short_longer;
use crate::norm::lemma_short_sum;
use crate::norm::minus;
use crate::norm::scaled;
use crate::norm::short;
use crate::projection::aim;
use crate::projection::edge_lengths;
use crate::projection::is_sharp;
use crate::projection::blur;
use crate::projection::lemma_aim;
use crate::projection::lemma_basis_close;
use crate::projection::lemma_camera_parts;
use crate::projection::lemma_even_short;
use crate::projection::lemma_sharp;
use crate::projection::lemma_unit_factor;
use crate::projection::span;
use crate::scalar::Scalar;
use crate::geom::TWO_BITS;
use crate::snell::is_unit_vector;
use crate::snell::lemma_inner_combined;
use crate::snell::lemma_inner_commutes;
use crate::snell::lemma_inner_sum;
use crate::snell::lemma_number_sign;
use crate::snell::lemma_small_product;
use crate::transmission::lemma_inner_scaled;
use crate::triple::apart;
use crate::triple::combined;
use crate::triple::finite;
use crate::triple::inner;
use crate::triple::lemma_eps;
use crate::triple::lemma_half_squares;
use crate::triple::lemma_unit_close;
use crate::triple::triple;
use crate::triple::Triple;
use crate::vector::cross;
use crate::vector::unit;
use crate::vector::vector_difference;
use crate::vector::vector_scaled;
use crate::vector::vector_sum;
use crate::vector::Vector;
use crate::viewport::girth;
use crate::viewport::is_edge;
use crate::viewport::lemma_edge;
use vstd::prelude::*;

verus! {

/// The direction from the target back to the eye.
pub open spec fn back(origin: Vector, target: Vector) -> Triple {
    triple(unit(vector_difference(origin, target)))
}

/// The way to the right of someone who stands along `up` and looks at the target:
/// the cross product of `up` with the direction back from the target.
pub open spec fn rightward(origin: Vector, target: Vector, up: Vector) -> Triple {
    crossed(triple(up), back(origin, target))
}

/// What is left of `up` across the line of sight.
pub open spec fn upward(origin: Vector, target: Vector, up: Vector) -> Triple {
    let w = back(origin, target);
    minus(triple(up), scaled(inner(triple(up), w), w))
}

/// `(w x u) . p = (p x w) . u`.
proof fn lemma_turned(w: Triple, u: Triple, p: Triple)
    ensures
        inner(crossed(w, u), p) == inner(crossed(p, w), u),
{
    lemma_term(w.y, u.z, u.y, w.z, p.x);
    lemma_term(w.z, u.x, u.z, w.x, p.y);
    lemma_term(w.x, u.y, u.x, w.y, p.z);
    lemma_term(p.y, w.z, w.y, p.z, u.x);
    lemma_term(p.z, w.x, w.z, p.x, u.y);
    lemma_term(p.x, w.y, w.x, p.y, u.z);
    lemma_order(w.y, u.z, p.x);
    lemma_order(u.y, w.z, p.x);
    lemma_order(w.z, u.x, p.y);
    lemma_order(u.z, w.x, p.y);
    lemma_order(w.x, u.y, p.z);
    lemma_order(u.x, w.y, p.z);
}

proof fn lemma_term(a: real, b: real, c: real, d: real, p: real)
    ensures
        (a * b - c * d) * p == (a * b) * p - (c * d) * p,
{
    let (x, y) = (a * b, c * d);
    assert((x - y) * p == x * p - y * p) by (nonlinear_arith);
}

proof fn lemma_order(a: real, b: real, p: real)
    ensures
        (a * b) * p == (p * a) * b,
        (a * b) * p == (a * p) * b,
        (a * b) * p == (p * b) * a,
        (a * b) * p == (b * p) * a,
{
    assert((a * b) * p == (p * a) * b) by (nonlinear_arith);
    assert((a * b) * p == (a * p) * b) by (nonlinear_arith);
    assert((a * b) * p == (p * b) * a) by (nonlinear_arith);
    assert((a * b) * p == (b * p) * a) by (nonlinear_arith);
}

/// The horizontal axis is the rightward direction, brought to unit length.
proof fn lemma_side(origin: Vector, target: Vector, up: Vector) -> (k: real)
    requires
        has_sight(origin, target, up),
    ensures
        ({
            let w = unit(vector_difference(origin, target));
            let u = unit(cross(up, w));
            let c = rightward(origin, target, up);
            &&& is_unit_vector(w)
            &&& is_unit_vector(u)
            &&& 7real / 10real <= k <= 102real / 10real
            &&& size((k * k) * inner(c, c) - 1real) <= 1real / 5000real
            &&& inner(c, c) <= 2real
            &&& short(minus(triple(u), scaled(k, c)), 80real * eps())
        }),
{
    let e = eps();
    assert(e == 1real / 16700000real);
    let sight = vector_difference(origin, target);
    let w = unit(sight);
    let k0 = lemma_unit_close(sight);
    let a = triple(w);
    let one = 1001real / 1000real;
    assert(short(a, one));
    let side = cross(up, w);
    lemma_cross_close(up, w);
    let (s, c) = (triple(side), crossed(triple(up), a));
    let f = minus(s, c);
    let l = (72real / 10real) * e;
    lemma_crossed_length(triple(up), a);
    let (pp, aa, pa) = (inner(triple(up), triple(up)), inner(a, a), inner(triple(up), a));
    assert(inner(c, c) <= 2real) by {
        assert(pa * pa >= 0real) by (nonlinear_arith);
        let t = triple(up);
        lemma_half_squares(t.x, t.y);
        lemma_half_squares(t.z, t.y);
        lemma_small_product(pp, aa, 1003real / 1000real, 1001real / 1000real);
    }
    lemma_inner_sum(s, c, f, s);
    lemma_inner_sum(s, c, f, c);
    lemma_inner_sum(s, c, f, f);
    lemma_inner_commutes(c, s);
    lemma_inner_commutes(f, s);
    lemma_inner_commutes(c, f);
    assert(short(c, 142real / 100real));
    lemma_inner_short(f, c, l, 142real / 100real);
    lemma_inner_short(f, f, l, l);
    assert(l * l <= e) by (nonlinear_arith)
        requires
            l == (72real / 10real) * e,
            e == 1real / 16700000real,
    ;
    assert(inner(s, s) == inner(c, c) + 2real * inner(f, c) + inner(f, f));
    let k = lemma_unit_close(side);
    let u = unit(side);
    let (kk, ss, cc) = (k * k, inner(s, s), inner(c, c));
    assert(kk >= 0real) by (nonlinear_arith)
        requires
            kk == k * k,
    ;
    assert(kk <= 102real) by (nonlinear_arith)
        requires
            kk * ss <= 1001real / 1000real,
            ss >= 99real / 10000real,
            kk >= 0real,
    ;
    assert(kk >= 49real / 100real) by (nonlinear_arith)
        requires
            kk * ss >= 999real / 1000real,
            ss <= 201real / 100real,
            kk >= 0real,
    ;
    assert(k <= 102real / 10real) by (nonlinear_arith)
        requires
            k * k <= 102real,
            k > 0real,
    ;
    assert(k >= 7real / 10real) by (nonlinear_arith)
        requires
            k * k >= 49real / 100real,
            k > 0real,
    ;
    let x = ss - cc;
    lemma_small_product(x, kk, 22real * e, 102real);
    assert(kk * cc == kk * ss - x * kk) by (nonlinear_arith)
        requires
            x == ss - cc,
    ;
    // How far the axis is from the direction.
    let ks = scaled(k, s);
    let g = minus(triple(u), ks);
    let h = (101real / 100real) * e;
    lemma_even_short(g, h);
    lemma_short_longer(g, (174real / 100real) * h, 2real * e);
    lemma_short_sum(g, k, f, 2real * e, l);
    assert(combined(g, k, f) == minus(triple(u), scaled(k, c))) by {
        lemma_distribute(k, s.x, c.x);
        lemma_distribute(k, s.y, c.y);
        lemma_distribute(k, s.z, c.z);
    }
    lemma_small_product(l, k, l, 102real / 10real);
    assert(l * k == k * l) by (nonlinear_arith);
    lemma_short_longer(combined(g, k, f), 2real * e + size(k) * l, 80real * e);
    k
}

proof fn lemma_distribute(k: real, a: real, b: real)
    ensures
        k * (a - b) == k * a - k * b,
{
    assert(k * (a - b) == k * a - k * b) by (nonlinear_arith);
}

/// How the axes lie to the rightward and the upward direction.
proof fn lemma_axes_point(up: Triple, w: Triple, u: Triple, v: Triple, k: real)
    requires
        short(up, 1001real / 1000real),
        are_axes(u, v, w),
        7real / 10real <= k <= 102real / 10real,
        size((k * k) * inner(crossed(up, w), crossed(up, w)) - 1real) <= 1real / 5000real,
        1real / 100real <= inner(crossed(up, w), crossed(up, w)) <= 2real,
        short(minus(u, scaled(k, crossed(up, w))), 80real * eps()),
        short(minus(v, crossed(w, u)), (72real / 10real) * eps()),
    ensures
        ({
            let c = crossed(up, w);
            let p = minus(up, scaled(inner(up, w), w));
            let r = k * inner(c, c);
            &&& r > 0real
            &&& size(r * r - inner(c, c)) <= 1real / 2500real
            &&& inner(w, c) == 0real
            &&& size(inner(u, c) - r) <= 1real / 100000real
            &&& size(inner(v, c)) <= 1real / 50000real
            &&& size(inner(w, p)) <= 1real / 100000real
            &&& size(inner(u, p)) <= 1real / 50000real
            &&& size(inner(v, p) - r) <= 1real / 40000real
            &&& short(c, 142real / 100real)
            &&& short(p, 21real / 10real)
        }),
{
    let e = eps();
    assert(e == 1real / 16700000real);
    let c = crossed(up, w);
    let cc = inner(c, c);
    let r = k * cc;
    let one = 1001real / 1000real;
    assert(short(w, one) && short(u, one) && short(v, one));
    assert(short(c, 142real / 100real));
    let kk = k * k;
    let z = kk * cc - 1real;
    assert(r > 0real) by (nonlinear_arith)
        requires
            r == k * cc,
            k > 0real,
            cc > 0real,
    ;
    assert(r * r - cc == z * cc) by (nonlinear_arith)
        requires
            r == k * cc,
            kk == k * k,
            z == kk * cc - 1real,
    ;
    lemma_small_product(z, cc, 1real / 5000real, 2real);
    // The rightward direction.
    lemma_crossed_square(up, w);
    lemma_inner_commutes(w, c);
    let kc = scaled(k, c);
    let q = minus(u, kc);
    lemma_inner_sum(u, kc, q, c);
    lemma_inner_scaled(k, c, c);
    lemma_inner_short(q, c, 80real * e, 142real / 100real);
    lemma_inner_sum(u, kc, q, v);
    lemma_inner_scaled(k, c, v);
    lemma_inner_short(q, v, 80real * e, one);
    lemma_inner_commutes(v, c);
    let cv = inner(c, v);
    let kcv = k * cv;
    assert(size(kcv) <= 1real / 90000real);
    assert(cv <= 1real / 60000real && -cv <= 1real / 60000real) by (nonlinear_arith)
        requires
            kcv == k * cv,
            kcv <= 1real / 90000real,
            -kcv <= 1real / 90000real,
            k >= 7real / 10real,
    ;
    // The upward direction.
    let n = inner(up, w);
    lemma_inner_short(up, w, one, one);
    let nw = scaled(n, w);
    let p = minus(up, nw);
    lemma_inner_sum(up, nw, p, w);
    lemma_inner_sum(up, nw, p, u);
    lemma_inner_sum(up, nw, p, v);
    lemma_inner_scaled(n, w, w);
    lemma_inner_scaled(n, w, u);
    lemma_inner_scaled(n, w, v);
    lemma_inner_commutes(w, p);
    lemma_inner_commutes(u, p);
    lemma_inner_commutes(v, p);
    lemma_inner_commutes(w, u);
    lemma_inner_commutes(w, v);
    let (ww, uw, vw) = (inner(w, w), inner(u, w), inner(v, w));
    let y = ww - 1real;
    let wide = 11real / 10real;
    lemma_small_product(y, n, 1real / 200000real, wide);
    lemma_small_product(uw, n, 1real / 200000real, wide);
    lemma_small_product(vw, n, 1real / 200000real, wide);
    assert(n * ww == n + y * n) by (nonlinear_arith)
        requires
            y == ww - 1real,
    ;
    assert(n * uw == uw * n && n * vw == vw * n) by (nonlinear_arith);
    lemma_inner_sum(u, kc, q, up);
    lemma_inner_scaled(k, c, up);
    lemma_inner_short(q, up, 80real * e, one);
    lemma_inner_commutes(u, up);
    let cu = inner(c, up);
    assert(k * cu == 0real) by (nonlinear_arith)
        requires
            cu == 0real,
    ;
    let x = crossed(w, u);
    let o = minus(v, x);
    lemma_inner_sum(v, x, o, up);
    lemma_inner_short(o, up, (72real / 10real) * e, one);
    lemma_turned(w, u, up);
    lemma_inner_commutes(v, up);
    lemma_inner_commutes(c, u);
    // Its length.
    lemma_short_sum(up, -n, w, one, one);
    assert(combined(up, -n, w) == p) by {
        lemma_opposite_product(n, w.x);
        lemma_opposite_product(n, w.y);
        lemma_opposite_product(n, w.z);
    }
    lemma_small_product(one, n, one, wide);
    lemma_small_product(n, one, wide, one);
    assert(size(-n) * one <= wide * one) by (nonlinear_arith)
        requires
            size(-n) <= wide,
            one > 0real,
    ;
    lemma_small_product(size(-n), one, 10021real / 10000real, one);
    lemma_short_longer(combined(up, -n, w), one + size(-n) * one, 21real / 10real);
}

proof fn lemma_opposite_product(n: real, x: real)
    ensures
        (-n) * x == -(n * x),
{
    assert((-n) * x == -(n * x)) by (nonlinear_arith);
}

/// The reading of a direction along `x`.
proof fn lemma_reading(d: Triple, v: Triple, a: Triple, x: Triple, j: real, t: real, f: real)
    requires
        apart(d, scaled(j, v), (101real / 100real) * (1real / 16700000real)),
        short(minus(v, a), t),
        1real / 10real <= j <= 102real / 100real,
        short(x, f),
        0real <= f <= 21real / 10real,
        0real <= t <= 1real / 4000real,
    ensures
        size(inner(d, x) - j * inner(a, x)) <= 6real / 10000real,
{
    let jv = scaled(j, v);
    let h = minus(d, jv);
    let k = (101real / 100real) * (1real / 16700000real);
    lemma_even_short(h, k);
    lemma_inner_sum(d, jv, h, x);
    lemma_inner_short(h, x, (174real / 100real) * k, f);
    lemma_inner_scaled(j, v, x);
    let g = minus(v, a);
    lemma_inner_sum(v, a, g, x);
    lemma_inner_short(g, x, t, f);
    let (vx, ax, gx) = (inner(v, x), inner(a, x), inner(g, x));
    assert(j * vx == j * ax + gx * j) by (nonlinear_arith)
        requires
            vx == ax + gx,
    ;
    assert(t * f <= 21real / 40000real) by (nonlinear_arith)
        requires
            0real <= t <= 1real / 4000real,
            0real <= f <= 21real / 10real,
    ;
    lemma_small_product(gx, j, 21real / 40000real, 102real / 100real);
    lemma_small_product((174real / 100real) * k, f, (174real / 100real) * k, 21real / 10real);
}

/// The reading of an edge along `x`, from that of its axis.
proof fn lemma_edge_along(h: Triple, u: Triple, a: real, x: Triple, y: real, e: real, f: real)
    requires
        is_edge(h, u, a),
        1real / 16real <= a <= 14real,
        size(inner(u, x) - y) <= e,
        0real <= e <= 1real / 40000real,
        short(x, f),
        0real <= f <= 21real / 10real,
    ensures
        size(inner(h, x) - a * y) <= 14real * e + 1real / 200000real,
{
    let au = scaled(a, u);
    let g = minus(h, au);
    let k = (102real / 100real) * (a / 16700000real);
    lemma_inner_sum(h, au, g, x);
    lemma_inner_scaled(a, u, x);
    lemma_inner_short(g, x, k, f);
    lemma_small_product(k, f, 15real / 16700000real, 21real / 10real);
    let z = inner(u, x) - y;
    let ux = inner(u, x);
    lemma_small_product(z, a, e, 14real);
    assert(a * ux == a * y + z * a) by (nonlinear_arith)
        requires
            z == ux - y,
    ;
}

/// The direction through a place of the image: it goes ahead, to the right of the
/// target by the place's part of the viewport's width right of its centre, and
/// above it by the place's part of its height above the centre. The width and
/// height are in units of the way ahead; `m` bounds the components of the eye's
/// place, as for a sharp image at unit distance.
pub proof fn lemma_view_ray(
    origin: Vector,
    target: Vector,
    up: Vector,
    half_tan: Scalar,
    aspect: Scalar,
    s: Scalar,
    t: Scalar,
    m: real,
) -> (ahead_and_length: (real, real))
    requires
        has_sight(origin, target, up),
        finite(origin),
        size(number(origin.x)) <= m,
        size(number(origin.y)) <= m,
        size(number(origin.z)) <= m,
        (Scalar { bits: TWO_BITS }).product(half_tan).finite(),
        aspect.product((Scalar { bits: TWO_BITS }).product(half_tan)).finite(),
        s.finite() && t.finite(),
        0real <= number(s) <= 1real,
        0real <= number(t) <= 1real,
        is_sharp(m, 1real, edge_lengths(half_tan, aspect).0, edge_lengths(half_tan, aspect).1),
    ensures
        ({
            let d = triple(looking_at(origin, target, up, half_tan, aspect).direction(s, t));
            let (w, c, p) = (
                back(origin, target),
                rightward(origin, target, up),
                upward(origin, target, up),
            );
            let (width, height) = edge_lengths(half_tan, aspect);
            let (j, r) = ahead_and_length;
            &&& 1real / 10real <= j <= 102real / 100real
            &&& r > 0real && size(r * r - inner(c, c)) <= 1real / 2500real
            &&& size(inner(d, w) + j) <= 1real / 1000real
            &&& size(inner(d, c) - j * ((number(s) - 1real / 2real) * (width * r))) <= 1real
                / 1000real
            &&& size(inner(d, p) - j * ((number(t) - 1real / 2real) * (height * r))) <= 1real
                / 1000real
        }),
{
    let basis = looking_at(origin, target, up, half_tan, aspect);
    let w = unit(vector_difference(origin, target));
    let u = unit(cross(up, w));
    let v = cross(w, u);
    let (a, b) = edge_lengths(half_tan, aspect);
    let (sigma, tau) = (number(s) - 1real / 2real, number(t) - 1real / 2real);
    let (l, f, g) = (span(a, b), blur(m, 1real, a, b), girth(m, a, b));
    lemma_sharp(m, 1real, a, b);
    lemma_camera_parts(origin, target, up, half_tan, aspect);
    lemma_basis_close(basis, w, s, t, m, a, b);
    let (wt, h, y) = (triple(w), triple(basis.horizontal), triple(basis.vertical));
    lemma_aim(wt, h, y, sigma, tau, a, b);
    let exact = aim(wt, h, y, sigma, tau);
    let vec = vector_difference(
        vector_sum(
            vector_sum(basis.lower_left, vector_scaled(basis.horizontal, s)),
            vector_scaled(basis.vertical, t),
        ),
        basis.origin,
    );
    let vt = triple(vec);
    let ge = 9real * (g / 16700000real);
    lemma_even_short(minus(vt, exact), ge);
    lemma_short_longer(minus(vt, exact), (174real / 100real) * ge, f);
    let j = lemma_unit_factor(vec, exact, l, f);
    let k = lemma_side(origin, target, up);
    lemma_axes(origin, target, up);
    assert(short(triple(u), 1001real / 1000real) && short(wt, 1001real / 1000real));
    lemma_cross_close(w, u);
    lemma_axes_point(triple(up), wt, triple(u), triple(v), k);
    let (c, p) = (rightward(origin, target, up), upward(origin, target, up));
    let r = k * inner(c, c);
    let d = triple(unit(vec));
    lemma_reading(d, vt, exact, wt, j, f, 1001real / 1000real);
    lemma_reading(d, vt, exact, c, j, f, 142real / 100real);
    lemma_reading(d, vt, exact, p, j, f, 21real / 10real);
    let one = 100001real / 100000real;
    assert(short(triple(u), one) && short(triple(v), one));
    let vh = (Scalar { bits: TWO_BITS }).product(half_tan);
    let vw = aspect.product(vh);
    lemma_edge(u, vw);
    lemma_edge(v, vh);
    lemma_edge_along(h, triple(u), a, c, r, 1real / 100000real, 142real / 100real);
    lemma_edge_along(y, triple(v), b, c, 0real, 1real / 50000real, 142real / 100real);
    lemma_edge_along(h, triple(u), a, p, 0real, 1real / 50000real, 21real / 10real);
    lemma_edge_along(y, triple(v), b, p, r, 1real / 40000real, 21real / 10real);
    assert(a * 0real == 0real && b * 0real == 0real);
    lemma_aim_along(wt, h, y, sigma, tau, c, a * r, 0real);
    lemma_aim_along(wt, h, y, sigma, tau, p, 0real, b * r);
    assert(sigma * 0real == 0real && tau * 0real == 0real);
    let (x1, x2) = (inner(exact, c) - sigma * (a * r), inner(exact, p) - tau * (b * r));
    let x0 = inner(exact, wt) + 1real;
    let wide = 102real / 100real;
    lemma_small_product(x0, j, 1real / 10000real, wide);
    lemma_small_product(x1, j, 38real / 100000real, wide);
    lemma_small_product(x2, j, 38real / 100000real, wide);
    lemma_shift(j, inner(exact, wt), -1real, x0);
    lemma_shift(j, inner(exact, c), sigma * (a * r), x1);
    lemma_shift(j, inner(exact, p), tau * (b * r), x2);
    (j, r)
}

proof fn lemma_shift(j: real, a: real, b: real, x: real)
    requires
        x == a - b,
    ensures
        j * a == j * b + x * j,
{
    assert(j * a == j * b + x * j) by (nonlinear_arith)
        requires
            x == a - b,
    ;
}

/// The direction through the viewport, read along `x`.
proof fn lemma_aim_along(
    w: Triple,
    h: Triple,
    v: Triple,
    sigma: real,
    tau: real,
    x: Triple,
    p: real,
    q: real,
)
    requires
        size(sigma) <= 1real / 2real,
        size(tau) <= 1real / 2real,
        size(inner(w, x)) <= 1real / 100000real,
        size(inner(h, x) - p) <= 36real / 100000real,
        size(inner(v, x) - q) <= 36real / 100000real,
    ensures
        size(inner(aim(w, h, v, sigma, tau), x) - (sigma * p + tau * q)) <= 37real / 100000real,
{
    let back = scaled(-1real, w);
    let first = combined(back, sigma, h);
    lemma_inner_scaled(-1real, w, x);
    lemma_inner_combined(back, sigma, h, x);
    lemma_inner_combined(first, tau, v, x);
    let (y, z) = (inner(h, x) - p, inner(v, x) - q);
    lemma_small_product(y, sigma, 36real / 100000real, 1real / 2real);
    lemma_small_product(z, tau, 36real / 100000real, 1real / 2real);
    lemma_shift(sigma, inner(h, x), p, y);
    lemma_shift(tau, inner(v, x), q, z);
}

/// How far a point is behind the camera, as it is computed, is its way from the
/// eye along the line of sight: the depth of a point in front is what it lies
/// ahead, and not how far off it is.
pub proof fn lemma_depth_along_sight(
    origin: Vector,
    target: Vector,
    up: Vector,
    half_tan: Scalar,
    aspect: Scalar,
    p: Vector,
    m: real,
    l: real,
)
    requires
        has_sight(origin, target, up),
        is_within(origin, m),
        1real <= m <= 1000real,
        (Scalar { bits: TWO_BITS }).product(half_tan).finite(),
        aspect.product((Scalar { bits: TWO_BITS }).product(half_tan)).finite(),
        1real / 16real <= edge_lengths(half_tan, aspect).0 <= 14real,
        1real / 16real <= edge_lengths(half_tan, aspect).1 <= 14real,
        finite(p),
        1real / 1000real <= l <= 900000real,
        size(number(p.x) - number(origin.x)) <= l,
        size(number(p.y) - number(origin.y)) <= l,
        size(number(p.z) - number(origin.z)) <= l,
    ensures
        ({
            let behind = looking_at(origin, target, up, half_tan, aspect).behind(p);
            let ahead = -inner(minus(triple(p), triple(origin)), back(origin, target));
            &&& behind.finite()
            &&& size(number(behind) + ahead) <= l / 500real
        }),
{
    let e = 1real / 16700000real;
    assert(eps() == e);
    let basis = looking_at(origin, target, up, half_tan, aspect);
    let w = unit(vector_difference(origin, target));
    let (a, b) = edge_lengths(half_tan, aspect);
    lemma_camera_parts(origin, target, up, half_tan, aspect);
    lemma_number_sign(Scalar { bits: 0 });
    lemma_basis_close(basis, w, Scalar { bits: 0 }, Scalar { bits: 0 }, m, a, b);
    let bv = basis.backward();
    let (bt, wt) = (triple(bv), triple(w));
    let g = (75real / 10real) * (girth(m, a, b) / 16700000real);
    lemma_short_components(wt, 100001real / 100000real);
    let dir = vector_difference(p, origin);
    let exact = minus(triple(p), triple(origin));
    lemma_way_part(p.x, origin.x, l);
    lemma_way_part(p.y, origin.y, l);
    lemma_way_part(p.z, origin.z, l);
    let (k, f) = ((101real / 100real) * l, l / 16700000real);
    lemma_dot_off(dir, exact, bv, k, 1001real / 1000real, f);
    // From the rounded backward axis to the exact one.
    let c = minus(bt, wt);
    lemma_inner_sum(bt, wt, c, exact);
    lemma_inner_commutes(bt, exact);
    lemma_inner_commutes(wt, exact);
    lemma_small_product(c.x, exact.x, 47real / 100000real, l);
    lemma_small_product(c.y, exact.y, 47real / 100000real, l);
    lemma_small_product(c.z, exact.z, 47real / 100000real, l);
    assert(f * (1001real / 1000real) <= l / 16000000real) by (nonlinear_arith)
        requires
            f == l / 16700000real,
            l > 0real,
    ;
    assert(k * (1001real / 1000real) <= (102real / 100real) * l) by (nonlinear_arith)
        requires
            k == (101real / 100real) * l,
            l > 0real,
    ;
    assert(l * (47real / 100000real) == (47real * l) / 100000real) by (nonlinear_arith);
}

proof fn lemma_way_part(p: Scalar, o: Scalar, l: real)
    requires
        p.finite() && o.finite(),
        1real / 1000real <= l <= 1000000real,
        size(number(p) - number(o)) <= l,
    ensures
        p.difference(o).finite(),
        size(number(p.difference(o)) - (number(p) - number(o))) <= l / 16700000real,
        size(number(p.difference(o))) <= (101real / 100real) * l,
{
    lemma_difference_close(p, o, l);
    lemma_eps(l);
}

} // verus!
