//! Where a photon strikes a screen: on its plane, at the coordinates that its two
//! edges measure from its corner.
use crate::constants::lemma_constant;
use crate::exact::eps;
use crate::exact::lemma_difference_close;
use crate::exact::lemma_quotient_close;
use crate::exact::number;
use crate::exact::size;
use crate::geom::point_at;
use crate::geom::Ray;
use crate::geom::PARALLEL_BITS;
use crate::lighttrace::ScreenFrame;
use crate::lighttrace::SCREEN_NEAR_BITS;
use crate::lobe::lemma_unsigned_number;
use crate::norm::minus;
use crate::projection::lemma_number_order;
use crate::scalar::Scalar;
use crate::scalar::ONE_BITS;
use crate::segment::is_bounded;
use crate::segment::lemma_point;
use crate::snell::lemma_number_sign;
use crate::snell::lemma_small_product;
use crate::triple::combined;
use crate::triple::finite;
use crate::triple::inner;
use crate::triple::lemma_dot_close;
use crate::triple::lemma_eps;
use crate::triple::lemma_one_number;
use crate::triple::lemma_products_summed;
use crate::triple::triple;
use crate::triple::Triple;
use crate::vector::dot;
use crate::vector::vector_difference;
use crate::vector::Vector;
use vstd::arithmetic::power2::lemma2_to64;
use vstd::arithmetic::power2::lemma2_to64_rest;
use vstd::prelude::*;

verus! {

/// A vector whose components are at most `b` in size.
pub open spec fn is_within(v: Vector, b: real) -> bool {
    &&& finite(v)
    &&& size(number(v.x)) <= b
    &&& size(number(v.y)) <= b
    &&& size(number(v.z)) <= b
}

/// A rounded inner product of vectors whose first factor is off by `e` in each
/// component.
pub proof fn lemma_dot_off(a: Vector, exact: Triple, u: Vector, l: real, b: real, e: real)
    requires
        is_within(a, l),
        is_within(u, b),
        1real / 1000real <= l <= 1000000real,
        1real / 1000real <= b <= 1000000real,
        0real <= e <= l,
        size(number(a.x) - exact.x) <= e,
        size(number(a.y) - exact.y) <= e,
        size(number(a.z) - exact.z) <= e,
    ensures
        dot(a, u).finite(),
        size(number(dot(a, u)) - inner(exact, triple(u))) <= 3real * (e * b) + (l * b)
            / 1700000real,
        size(number(dot(a, u))) <= 4real * (l * b),
{
    let lb = l * b;
    assert(1real / 1000000real <= lb <= 1000000000000real) by (nonlinear_arith)
        requires
            lb == l * b,
            1real / 1000real <= l <= 1000000real,
            1real / 1000real <= b <= 1000000real,
    ;
    lemma_small_product(number(a.x), number(u.x), l, b);
    lemma_small_product(number(a.y), number(u.y), l, b);
    lemma_small_product(number(a.z), number(u.z), l, b);
    assert(b * l == lb) by (nonlinear_arith)
        requires
            lb == l * b,
    ;
    let (p, q, r) = (
        number(a.x) * number(u.x),
        number(a.y) * number(u.y),
        number(a.z) * number(u.z),
    );
    let bound = 3real * lb;
    lemma_products_summed(a, u, p, q, r, bound);
    lemma_eps((31real / 10real) * bound);
    let t = triple(u);
    lemma_off(number(a.x), exact.x, t.x, e, b);
    lemma_off(number(a.y), exact.y, t.y, e, b);
    lemma_off(number(a.z), exact.z, t.z, e, b);
}

proof fn lemma_off(a: real, x: real, u: real, e: real, b: real)
    requires
        size(a - x) <= e,
        size(u) <= b,
    ensures
        size(a * u - x * u) <= e * b,
{
    let f = a - x;
    lemma_small_product(f, u, e, b);
    assert(f * u == a * u - x * u && b * e == e * b) by (nonlinear_arith)
        requires
            f == a - x,
    ;
}

/// A coordinate along an edge.
proof fn lemma_coordinate_along(x: Scalar, u: Vector, exact: real, b: real, e: real)
    requires
        x.finite(),
        is_within(u, b),
        1real / 1000real <= b <= 1000000real,
        inner(triple(u), triple(u)) >= 1real / 10000real,
        size(number(x)) <= 1000000000000000real,
        size(number(x) - exact) <= e,
        crate::camera::in_frame(x.quotient(dot(u, u))),
    ensures
        ({
            let s = x.quotient(dot(u, u));
            let uu = inner(triple(u), triple(u));
            &&& s.finite()
            &&& 0real <= number(s) <= 1real
            &&& size(number(s) * uu - exact) <= e + uu / 2000000real
        }),
{
    assert(eps() == 1real / 16700000real);
    let t = triple(u);
    let uu = inner(t, t);
    lemma_small_product(t.x, t.x, b, b);
    lemma_small_product(t.y, t.y, b, b);
    lemma_small_product(t.z, t.z, b, b);
    assert(b * b <= 1000000000000real) by (nonlinear_arith)
        requires
            0real <= b <= 1000000real,
    ;
    lemma_dot_close(u, u, uu);
    lemma_eps((31real / 10real) * uu);
    let (xn, yn) = (number(x), number(dot(u, u)));
    let z = xn / yn;
    assert(z * yn == xn) by (nonlinear_arith)
        requires
            z == xn / yn,
            yn > 0real,
    ;
    let a = size(z);
    assert(a * yn == size(xn)) by (nonlinear_arith)
        requires
            z * yn == xn,
            yn > 0real,
            a == z && z >= 0real || a == -z && z < 0real,
    ;
    assert(a <= 100000000000000000000real) by (nonlinear_arith)
        requires
            a * yn <= 1000000000000000real,
            yn >= 1real / 100000real,
    ;
    let bound = a + 1real / 1000real;
    lemma_quotient_close(x, dot(u, u), bound);
    lemma_eps(bound);
    let s = x.quotient(dot(u, u));
    let sn = number(s);
    lemma_one_number();
    let one = Scalar { bits: ONE_BITS };
    lemma_number_sign(s);
    lemma_number_sign(Scalar { bits: 0 });
    if sn > 1real {
        lemma_number_order(one, s);
    }
    assert(0real <= sn <= 1real);
    let f = sn - z;
    lemma_small_product(f, yn, 2real / 16700000real, yn);
    assert(sn * yn == xn + f * yn) by (nonlinear_arith)
        requires
            f == sn - z,
            z * yn == xn,
    ;
    let g = uu - yn;
    lemma_small_product(g, sn, (31real / 10real) * uu / 16700000real, 1real);
    assert(sn * uu == sn * yn + g * sn) by (nonlinear_arith)
        requires
            g == uu - yn,
    ;
}

/// What a screen and a ray of ordinary size are: `m` bounds the places, and `b`
/// the edges.
pub open spec fn is_ordinary_screen(frame: ScreenFrame, ray: Ray, m: real, b: real) -> bool {
    &&& is_bounded(ray, m)
    &&& is_within(frame.corner, m)
    &&& is_within(frame.u, b)
    &&& is_within(frame.v, b)
    &&& is_within(frame.normal, 1001real / 1000real)
    &&& 1real / 1000real <= b <= 1000real
    &&& m <= 1000real
    &&& inner(triple(frame.u), triple(frame.u)) >= 1real / 10000real
    &&& inner(triple(frame.v), triple(frame.v)) >= 1real / 10000real
}

/// A screen is met ahead of the ray's origin, in its plane; the coordinates are
/// those of the point from the corner, along each edge in units of that edge,
/// and lie from zero to one.
pub proof fn lemma_screen_place(frame: ScreenFrame, ray: Ray, m: real, b: real)
    requires
        is_ordinary_screen(frame, ray, m, b),
    ensures
        frame.met(ray) matches Some((s, r, t)) ==> (t.finite() && number(t) <= m ==> {
            let p = combined(triple(ray.origin), number(t), triple(ray.dir));
            let from = minus(p, triple(frame.corner));
            let (u, v, n) = (triple(frame.u), triple(frame.v), triple(frame.normal));
            &&& number(t) > 0real
            &&& 0real <= number(s) <= 1real
            &&& 0real <= number(r) <= 1real
            &&& size(number(s) * inner(u, u) - inner(from, u)) <= (m * b) / 20000real + inner(u, u)
                / 2000000real
            &&& size(number(r) * inner(v, v) - inner(from, v)) <= (m * b) / 20000real + inner(v, v)
                / 2000000real
            &&& size(inner(from, n)) <= m / 50000real
        }),
{
    if let Some((s, r, t)) = frame.met(ray) {
        if t.finite() && number(t) <= m {
            assert(eps() == 1real / 16700000real);
            lemma2_to64();
            lemma2_to64_rest();
            lemma_constant(SCREEN_NEAR_BITS, 112, 13743895, 137438953472real);
            let near = Scalar { bits: SCREEN_NEAR_BITS };
            let tn = number(t);
            if tn <= 0real {
                lemma_number_order(t, near);
            }
            lemma_point(ray, t, tn, m);
            let pv = point_at(ray, t);
            let (o, d, c) = (triple(ray.origin), triple(ray.dir), triple(frame.corner));
            let p = combined(o, tn, d);
            let from = minus(p, c);
            let w = 1001real / 1000real;
            lemma_reach(o.x, tn, d.x, m);
            lemma_reach(o.y, tn, d.y, m);
            lemma_reach(o.z, tn, d.z, m);
            let relv = vector_difference(pv, frame.corner);
            lemma_from_component(pv.x, frame.corner.x, p.x, m);
            lemma_from_component(pv.y, frame.corner.y, p.y, m);
            lemma_from_component(pv.z, frame.corner.z, p.z, m);
            let (l, e) = ((32real / 10real) * m, m / 90000real);
            lemma_dot_off(relv, from, frame.u, l, b, e);
            lemma_dot_off(relv, from, frame.v, l, b, e);
            let mb = m * b;
            assert(0real < mb <= 1000000real) by (nonlinear_arith)
                requires
                    mb == m * b,
                    1real <= m <= 1000real,
                    1real / 1000real <= b <= 1000real,
            ;
            assert(e * b == mb / 90000real && l * b == (32real / 10real) * mb) by (nonlinear_arith)
                requires
                    e == m / 90000real,
                    l == (32real / 10real) * m,
                    mb == m * b,
            ;
            let k = mb / 20000real;
            lemma_coordinate_along(
                dot(relv, frame.u),
                frame.u,
                inner(from, triple(frame.u)),
                b,
                k,
            );
            lemma_coordinate_along(
                dot(relv, frame.v),
                frame.v,
                inner(from, triple(frame.v)),
                b,
                k,
            );
            lemma_plane(frame, ray, t, m);
        }
    }
}

proof fn lemma_reach(o: real, t: real, d: real, m: real)
    requires
        size(o) <= m,
        0real <= t <= m,
        size(d) <= 1001real / 1000real,
        m > 0real,
    ensures
        size(o + t * d) <= (2001real / 1000real) * m,
{
    lemma_small_product(t, d, m, 1001real / 1000real);
    assert((1001real / 1000real) * m == m + m / 1000real) by (nonlinear_arith);
}

proof fn lemma_from_component(p: Scalar, c: Scalar, exact: real, m: real)
    requires
        p.finite() && c.finite(),
        1real <= m <= 1000real,
        size(number(p) - exact) <= m / 100000real,
        size(exact) <= (2001real / 1000real) * m,
        size(number(c)) <= m,
    ensures
        p.difference(c).finite(),
        size(number(p.difference(c)) - (exact - number(c))) <= m / 90000real,
        size(number(p.difference(c))) <= (32real / 10real) * m,
{
    assert(eps() == 1real / 16700000real);
    lemma_difference_close(p, c, (31real / 10real) * m);
    lemma_eps((31real / 10real) * m);
}

/// The point of the ray is in the screen's plane.
proof fn lemma_plane(frame: ScreenFrame, ray: Ray, t: Scalar, m: real)
    requires
        is_bounded(ray, m),
        m <= 1000real,
        is_within(frame.corner, m),
        is_within(frame.normal, 1001real / 1000real),
        t.finite(),
        0real < number(t) <= m,
        t == dot(vector_difference(frame.corner, ray.origin), frame.normal).quotient(
            dot(ray.dir, frame.normal),
        ),
        !dot(ray.dir, frame.normal).unsigned().below(Scalar { bits: PARALLEL_BITS }),
    ensures
        ({
            let p = combined(triple(ray.origin), number(t), triple(ray.dir));
            let from = minus(p, triple(frame.corner));
            size(inner(from, triple(frame.normal))) <= m / 50000real
        }),
{
    assert(eps() == 1real / 16700000real);
    let w = 1001real / 1000real;
    let (o, d, c, n) = (
        triple(ray.origin),
        triple(ray.dir),
        triple(frame.corner),
        triple(frame.normal),
    );
    let gap = vector_difference(frame.corner, ray.origin);
    let exact = minus(c, o);
    lemma_gap_component(frame.corner.x, ray.origin.x, m);
    lemma_gap_component(frame.corner.y, ray.origin.y, m);
    lemma_gap_component(frame.corner.z, ray.origin.z, m);
    let (l, e) = ((21real / 10real) * m, m / 8000000real);
    lemma_dot_off(gap, exact, frame.normal, l, w, e);
    lemma_dot_off(ray.dir, d, frame.normal, w, w, 0real);
    let (xs, ys) = (dot(gap, frame.normal), dot(ray.dir, frame.normal));
    let (x, y, tn) = (number(xs), number(ys), number(t));
    lemma2_to64();
    lemma2_to64_rest();
    lemma_constant(PARALLEL_BITS, 99, 11258999, 1125899906842624real);
    lemma_unsigned_number(ys);
    let least = Scalar { bits: PARALLEL_BITS };
    if size(y) < number(least) {
        lemma_number_order(ys.unsigned(), least);
    }
    let z = x / y;
    assert(z * y == x) by (nonlinear_arith)
        requires
            z == x / y,
            y != 0real,
    ;
    let (a, ay) = (size(z), size(y));
    assert(a * ay == size(x)) by (nonlinear_arith)
        requires
            z * y == x,
            a == z && z >= 0real || a == -z && z < 0real,
            ay == y && y >= 0real || ay == -y && y < 0real,
    ;
    assert(a <= 100000000000000real) by (nonlinear_arith)
        requires
            a * ay <= 10000real,
            ay >= 1real / 1000000000real,
    ;
    let bound = a + 1real / 1000real;
    lemma_quotient_close(xs, ys, bound);
    lemma_eps(bound);
    let f = tn - z;
    lemma_small_product(f, y, bound / 16700000real, ay);
    assert(ay * (bound / 16700000real) == (a * ay + ay / 1000real) / 16700000real)
        by (nonlinear_arith)
        requires
            bound == a + 1real / 1000real,
    ;
    assert(tn * y == x + f * y) by (nonlinear_arith)
        requires
            f == tn - z,
            z * y == x,
    ;
    // From the rounded products to the exact ones.
    let dn = inner(d, n);
    let g = y - dn;
    lemma_small_product(g, tn, 1real / 1000000real, m);
    assert(tn * y == tn * dn + g * tn) by (nonlinear_arith)
        requires
            g == y - dn,
    ;
    let p = combined(o, tn, d);
    let from = minus(p, c);
    lemma_plane_sum(o, d, c, n, tn);
    assert(e * w <= m / 7900000real) by (nonlinear_arith)
        requires
            e == m / 8000000real,
            w == 1001real / 1000real,
            m > 0real,
    ;
    assert(l * w <= (22real / 10real) * m) by (nonlinear_arith)
        requires
            l == (21real / 10real) * m,
            w == 1001real / 1000real,
            m > 0real,
    ;
    assert(m * (1real / 1000000real) == m / 1000000real);
}

proof fn lemma_gap_component(c: Scalar, o: Scalar, m: real)
    requires
        c.finite() && o.finite(),
        1real <= m <= 1000real,
        size(number(c)) <= m,
        size(number(o)) <= m,
    ensures
        c.difference(o).finite(),
        size(number(c.difference(o)) - (number(c) - number(o))) <= m / 8000000real,
        size(number(c.difference(o))) <= (21real / 10real) * m,
{
    assert(eps() == 1real / 16700000real);
    lemma_difference_close(c, o, 2real * m);
    lemma_eps(2real * m);
}

/// `((o + t d) - c) . n = t (d . n) - (c - o) . n`.
proof fn lemma_plane_sum(o: Triple, d: Triple, c: Triple, n: Triple, t: real)
    ensures
        inner(minus(combined(o, t, d), c), n) == t * inner(d, n) - inner(minus(c, o), n),
{
    lemma_plane_term(o.x, d.x, c.x, n.x, t);
    lemma_plane_term(o.y, d.y, c.y, n.y, t);
    lemma_plane_term(o.z, d.z, c.z, n.z, t);
    let (x, y, z) = (d.x * n.x, d.y * n.y, d.z * n.z);
    assert(t * (x + y + z) == t * x + t * y + t * z) by (nonlinear_arith);
}

proof fn lemma_plane_term(o: real, d: real, c: real, n: real, t: real)
    ensures
        ((o + t * d) - c) * n == t * (d * n) - (c - o) * n,
{
    let td = t * d;
    assert(((o + td) - c) * n == td * n - (c - o) * n) by (nonlinear_arith);
    assert(td * n == t * (d * n)) by (nonlinear_arith)
        requires
            td == t * d,
    ;
}

} // verus!
