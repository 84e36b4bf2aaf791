//! Hits on a sphere lie on it, and their normals point from its centre.
use crate::exact::close;
use crate::exact::eps;
use crate::exact::lemma_difference_close;
use crate::exact::lemma_product_close;
use crate::exact::lemma_quotient_close;
use crate::exact::lemma_root_close;
use crate::exact::lemma_sum_close;
use crate::exact::number;
use crate::exact::size;
use crate::geom::oriented;
use crate::geom::point_at;
use crate::geom::Quadratic;
use crate::geom::Ray;
use crate::geom::Sphere;
use crate::inscatter::lemma_times_commutes;
use crate::norm::lemma_inner_short;
use crate::norm::lemma_short_components;
use crate::norm::lemma_short_longer;
use crate::norm::lemma_short_sum;
use crate::norm::minus;
use crate::norm::scaled;
use crate::norm::short;
use crate::optics::lemma_dot_opposite;
use crate::projection::lemma_even_short;
use crate::scalar::Scalar;
use crate::snell::lemma_inner_combined;
use crate::snell::lemma_inner_commutes;
use crate::snell::lemma_inner_sum;
use crate::snell::lemma_negated_number;
use crate::snell::lemma_number_sign;
use crate::snell::lemma_small_product;
use crate::triple::apart;
use crate::triple::combined;
use crate::triple::finite;
use crate::triple::inner;
use crate::triple::lemma_dot_close;
use crate::triple::lemma_eps;
use crate::triple::triple;
use crate::triple::Triple;
use crate::vector::dot;
use crate::vector::vector_difference;
use crate::vector::Vector;
use vstd::prelude::*;

verus! {

/// What is left of a quadratic at a root of it that is rounded.
proof fn lemma_residue(a: real, b: real, c: real, q: real, sign: real, t: real)
    requires
        49real / 100real <= a <= 201real / 100real,
        size(b) <= 143real / 10real,
        size(c) <= 101real,
        q >= 0real,
        sign == 1real || sign == -1real,
        size(q * q - (b * b - a * c)) <= 1real / 5000real,
        size(a * t + b + sign * q) <= 1real / 40000real,
    ensures
        size(a * (t * t) + 2real * (b * t) + c) <= 3real / 1000real,
        size(t) <= 72real,
{
    let (bb, ac) = (b * b, a * c);
    lemma_small_product(b, b, 143real / 10real, 143real / 10real);
    lemma_small_product(c, a, 101real, 201real / 100real);
    assert(c * a == a * c) by (nonlinear_arith);
    let qq = q * q;
    assert(q <= 203real / 10real) by (nonlinear_arith)
        requires
            q * q <= 4081real / 10real,
            q >= 0real,
    ;
    let y = a * t + b;
    let d = y + sign * q;
    let sq = sign * q;
    assert(sq * sq == qq) by (nonlinear_arith)
        requires
            sq == sign * q,
            qq == q * q,
            sign == 1real || sign == -1real,
    ;
    assert(size(sq) <= 203real / 10real) by (nonlinear_arith)
        requires
            sq == sign * q,
            0real <= q <= 203real / 10real,
            sign == 1real || sign == -1real,
    ;
    assert(y * y == qq - 2real * (d * sq) + d * d) by (nonlinear_arith)
        requires
            d == y + sq,
            sq * sq == qq,
    ;
    lemma_small_product(d, sq, 1real / 40000real, 203real / 10real);
    lemma_small_product(d, d, 1real / 40000real, 1real);
    let g = a * (t * t) + 2real * (b * t) + c;
    lemma_square_completed(a, b, c, t);
    let ag = a * g;
    assert(size(ag) <= 14real / 10000real);
    assert(g <= 3real / 1000real && -g <= 3real / 1000real) by (nonlinear_arith)
        requires
            a * g <= 14real / 10000real,
            -(a * g) <= 14real / 10000real,
            a >= 49real / 100real,
    ;
    let at = a * t;
    assert(t <= 72real && -t <= 72real) by (nonlinear_arith)
        requires
            at == a * t,
            at <= 347real / 10real,
            -at <= 347real / 10real,
            a >= 49real / 100real,
    ;
}

proof fn lemma_square_completed(a: real, b: real, c: real, t: real)
    ensures
        a * (a * (t * t) + 2real * (b * t) + c) == (a * t + b) * (a * t + b) - (b * b - a * c),
{
    let (x, tt, bt) = (a * t, t * t, b * t);
    assert((x + b) * (x + b) == x * x + 2real * (x * b) + b * b) by (nonlinear_arith);
    assert(x * x == a * (a * tt) && x * b == a * bt) by (nonlinear_arith)
        requires
            x == a * t,
            tt == t * t,
            bt == b * t,
    ;
    let (p, r) = (a * tt, 2real * bt);
    assert(a * (p + r + c) == a * p + a * r + a * c) by (nonlinear_arith);
    assert(a * (2real * bt) == 2real * (a * bt)) by (nonlinear_arith);
}

/// A quadratic whose numbers are close to exact ones.
proof fn lemma_roots_solve(
    q: Quadratic,
    larger: bool,
    a: real,
    b: real,
    c: real,
)
    requires
        close(q.a, a, 4real / 10000000real),
        close(q.half_b, b, 2real / 100000real),
        close(q.c, c, 1real / 10000real),
        1real / 2real <= a <= 2real,
        size(b) <= 1415real / 100real,
        size(c) <= 100real,
        !q.discriminant().below(Scalar { bits: 0 }),
    ensures
        ({
            let root = if larger {
                q.larger_root()
            } else {
                q.smaller_root()
            };
            let t = number(root);
            &&& root.finite()
            &&& size(t) <= 72real
            &&& size(a * (t * t) + 2real * (b * t) + c) <= 1real / 100real
        }),
{
    assert(eps() == 1real / 16700000real);
    let (x, y, z) = (number(q.a), number(q.half_b), number(q.c));
    lemma_small_product(y, y, 142real / 10real, 142real / 10real);
    lemma_small_product(z, x, 1001real / 10real, 201real / 100real);
    assert(z * x == x * z) by (nonlinear_arith);
    let (yy, xz) = (y * y, x * z);
    let wide = 205real;
    lemma_product_close(q.half_b, q.half_b, wide);
    lemma_product_close(q.a, q.c, wide);
    lemma_eps(wide);
    lemma_difference_close(q.half_b.product(q.half_b), q.a.product(q.c), 411real);
    lemma_eps(411real);
    let disc = q.discriminant();
    lemma_number_sign(Scalar { bits: 0 });
    lemma_number_sign(disc);
    assert(number(disc) >= 0real);
    lemma_root_close(disc);
    let root = disc.square_root();
    let r = number(root);
    let dn = number(disc);
    assert(2real * eps() * dn == dn / 8350000real) by (nonlinear_arith)
        requires
            eps() == 1real / 16700000real,
    ;
    assert(r <= 203real / 10real) by (nonlinear_arith)
        requires
            r * r <= 4111real / 10real,
            r >= 0real,
    ;
    lemma_negated_number(q.half_b);
    let m = q.half_b.negated();
    let sign = if larger {
        -1real
    } else {
        1real
    };
    let top = if larger {
        m.sum(root)
    } else {
        m.difference(root)
    };
    lemma_sum_close(m, root, 35real);
    lemma_difference_close(m, root, 35real);
    lemma_eps(35real);
    assert(sign * r == if larger {
        -r
    } else {
        r
    });
    let tn = number(top);
    let ratio = tn / x;
    assert(ratio * x == tn) by (nonlinear_arith)
        requires
            ratio == tn / x,
            x > 0real,
    ;
    assert(ratio <= 72real && -ratio <= 72real) by (nonlinear_arith)
        requires
            ratio * x == tn,
            tn <= 35real,
            -tn <= 35real,
            x >= 4999real / 10000real,
    ;
    lemma_quotient_close(top, q.a, 72real);
    lemma_eps(72real);
    let t = number(top.quotient(q.a));
    let e = t - ratio;
    lemma_small_product(e, x, 72real / 16700000real, 201real / 100real);
    assert(x * t == tn + e * x) by (nonlinear_arith)
        requires
            e == t - ratio,
            ratio * x == tn,
    ;
    lemma_residue(x, y, z, r, sign, t);
    // From the rounded quadratic to the exact one.
    let (f, g) = (x - a, y - b);
    let tt = t * t;
    lemma_small_product(t, t, 72real, 72real);
    lemma_small_product(f, tt, 4real / 10000000real, 5184real);
    lemma_small_product(g, t, 2real / 100000real, 72real);
    assert(x * tt == a * tt + f * tt) by (nonlinear_arith)
        requires
            f == x - a,
    ;
    assert(y * t == b * t + g * t) by (nonlinear_arith)
        requires
            g == y - b,
    ;
}

/// A sphere and a ray of ordinary size: the origin is at most 9.9 from the
/// centre, the radius from a tenth to ten, and the direction, whose length need
/// not be one, has a square from a half to two.
pub open spec fn is_near(sphere: Sphere, ray: Ray) -> bool {
    &&& finite(sphere.center) && finite(ray.origin) && finite(ray.dir)
    &&& sphere.radius.finite()
    &&& 1real / 10real <= number(sphere.radius) <= 99real / 10real
    &&& short(minus(triple(ray.origin), triple(sphere.center)), 99real / 10real)
    &&& 1real / 2real <= inner(triple(ray.dir), triple(ray.dir)) <= 2real
}

proof fn lemma_offset_component(o: Scalar, c: Scalar)
    requires
        o.finite() && c.finite(),
        size(number(o) - number(c)) <= 99real / 10real,
    ensures
        o.difference(c).finite(),
        size(number(o.difference(c)) - (number(o) - number(c))) <= 10real / 16700000real,
{
    assert(eps() == 1real / 16700000real);
    lemma_difference_close(o, c, 10real);
    lemma_eps(10real);
}

/// The square of `a + k b`.
proof fn lemma_combined_square(a: Triple, k: real, b: Triple)
    ensures
        inner(combined(a, k, b), combined(a, k, b)) == inner(a, a) + 2real * (k * inner(a, b)) + (k
            * k) * inner(b, b),
{
    let w = combined(a, k, b);
    lemma_inner_combined(a, k, b, w);
    lemma_inner_combined(a, k, b, a);
    lemma_inner_combined(a, k, b, b);
    lemma_inner_commutes(a, w);
    lemma_inner_commutes(b, w);
    lemma_inner_commutes(a, b);
    let (ab, bb) = (inner(a, b), inner(b, b));
    assert(k * (ab + k * bb) == k * ab + (k * k) * bb) by (nonlinear_arith);
}

/// A ray meets a sphere on its surface: at either parameter that counts, the
/// ray's point is the radius away from the centre.
proof fn lemma_root_on_sphere(sphere: Sphere, ray: Ray, larger: bool)
    requires
        is_near(sphere, ray),
        !sphere.quadratic(ray).discriminant().below(Scalar { bits: 0 }),
    ensures
        ({
            let q = sphere.quadratic(ray);
            let root = if larger {
                q.larger_root()
            } else {
                q.smaller_root()
            };
            let p = combined(triple(ray.origin), number(root), triple(ray.dir));
            let away = minus(p, triple(sphere.center));
            let r = number(sphere.radius);
            &&& root.finite()
            &&& size(number(root)) <= 72real
            &&& size(inner(away, away) - r * r) <= 1real / 80real
        }),
{
    let e = 1real / 16700000real;
    assert(eps() == e);
    let q = sphere.quadratic(ray);
    let ocv = vector_difference(ray.origin, sphere.center);
    let (o, c, d) = (triple(ray.origin), triple(sphere.center), triple(ray.dir));
    let exact = minus(o, c);
    let b99 = 99real / 10real;
    lemma_short_components(exact, b99);
    lemma_offset_component(ray.origin.x, sphere.center.x);
    lemma_offset_component(ray.origin.y, sphere.center.y);
    lemma_offset_component(ray.origin.z, sphere.center.z);
    let oc = triple(ocv);
    let h = minus(oc, exact);
    lemma_even_short(h, 10real * e);
    let lh = (174real / 100real) * (10real * e);
    lemma_short_sum(exact, 1real, h, b99, lh);
    assert(combined(exact, 1real, h) == oc) by {
        assert(1real * h.x == h.x && 1real * h.y == h.y && 1real * h.z == h.z);
    }
    assert(size(1real) * lh == lh) by (nonlinear_arith)
        requires
            size(1real) == 1real,
    ;
    lemma_short_longer(oc, b99 + size(1real) * lh, 10real);
    let rn = number(sphere.radius);
    let rr = rn * rn;
    lemma_small_product(rn, rn, b99, b99);
    let (dd, od, oo) = (inner(d, d), inner(oc, d), inner(oc, oc));
    assert(10real * 10real == 100real);
    lemma_dot_close(ray.dir, ray.dir, 2real);
    lemma_dot_close(ocv, ray.dir, 100real);
    lemma_dot_close(ocv, ocv, 100real);
    lemma_eps((31real / 10real) * 2real);
    lemma_eps((31real / 10real) * 100real);
    let root2 = 1415real / 1000real;
    assert(root2 * root2 >= 2real);
    assert(short(d, root2));
    lemma_inner_short(oc, d, 10real, root2);
    assert(oo >= 0real) by {
        assert(oc.x * oc.x >= 0real) by (nonlinear_arith);
        assert(oc.y * oc.y >= 0real) by (nonlinear_arith);
        assert(oc.z * oc.z >= 0real) by (nonlinear_arith);
    }
    assert(rr >= 0real) by (nonlinear_arith)
        requires
            rr == rn * rn,
    ;
    lemma_product_close(sphere.radius, sphere.radius, 100real);
    lemma_eps(100real);
    lemma_difference_close(
        dot(ocv, ocv),
        sphere.radius.product(sphere.radius),
        101real,
    );
    lemma_eps(101real);
    lemma_roots_solve(q, larger, dd, od, oo - rr);
    let root = if larger {
        q.larger_root()
    } else {
        q.smaller_root()
    };
    let t = number(root);
    lemma_combined_square(oc, t, d);
    assert(dd * (t * t) == (t * t) * dd && od * t == t * od) by (nonlinear_arith);
    let w = combined(oc, t, d);
    assert(size(inner(w, w) - rr) <= 1real / 100real);
    // From the rounded offset to the exact one.
    let p = combined(o, t, d);
    let away = minus(p, c);
    let back = minus(w, away);
    assert(back == h);
    let lw = 1001real / 100real;
    assert(lw * lw >= 1001real / 10real);
    assert(short(w, lw));
    lemma_inner_sum(w, away, h, w);
    lemma_inner_sum(w, away, h, away);
    lemma_inner_sum(w, away, h, h);
    lemma_inner_commutes(away, w);
    lemma_inner_commutes(h, w);
    lemma_inner_commutes(away, h);
    lemma_inner_short(h, w, lh, lw);
    lemma_inner_short(h, h, lh, lh);
    assert(lh * lw <= 1real / 50000real && lh * lh <= 1real / 50000real) by (nonlinear_arith)
        requires
            lh == (174real / 100real) * (10real * e),
            e == 1real / 16700000real,
            lw == 1001real / 100real,
    ;
    assert(inner(away, away) == inner(w, w) - 2real * inner(h, w) + inner(h, h));
}

/// A hit on a sphere lies on its surface, and the outward normal there, times the
/// radius, leads from the centre to the point; the hit has it, turned toward the
/// ray.
pub proof fn lemma_sphere_hit(sphere: Sphere, ray: Ray, t_min: Scalar, t_max: Scalar) -> (
    outward: Vector)
    requires
        is_near(sphere, ray),
    ensures
        sphere.hit(ray, t_min, t_max) matches Some(h) ==> {
            let p = combined(triple(ray.origin), number(h.t), triple(ray.dir));
            let away = minus(p, triple(sphere.center));
            let r = number(sphere.radius);
            &&& h.t.finite()
            &&& size(inner(away, away) - r * r) <= 1real / 80real
            &&& h == oriented(ray, h.t, outward)
            &&& outward == sphere.outward(ray, h.t)
        },
{
    if let Some(h) = sphere.hit(ray, t_min, t_max) {
        lemma_root_on_sphere(sphere, ray, false);
        lemma_root_on_sphere(sphere, ray, true);
        sphere.outward(ray, h.t)
    } else {
        ray.dir
    }
}

/// The outward normal of a sphere, times its radius, leads from the centre to the
/// point of the ray. The number `m` bounds how far the point is from the centre
/// along an axis.
pub proof fn lemma_sphere_normal(sphere: Sphere, ray: Ray, t: Scalar, m: real)
    requires
        finite(sphere.center) && finite(point_at(ray, t)),
        sphere.radius.finite(),
        1real / 1000real <= number(sphere.radius) <= 1000real,
        1real / 1000real <= m <= 1000000real,
        size(number(point_at(ray, t).x) - number(sphere.center.x)) <= m,
        size(number(point_at(ray, t).y) - number(sphere.center.y)) <= m,
        size(number(point_at(ray, t).z) - number(sphere.center.z)) <= m,
    ensures
        finite(sphere.outward(ray, t)),
        apart(
            scaled(number(sphere.radius), triple(sphere.outward(ray, t))),
            minus(triple(point_at(ray, t)), triple(sphere.center)),
            m / 5000000real,
        ),
{
    let p = point_at(ray, t);
    lemma_normal_component(p.x, sphere.center.x, sphere.radius, m);
    lemma_normal_component(p.y, sphere.center.y, sphere.radius, m);
    lemma_normal_component(p.z, sphere.center.z, sphere.radius, m);
}

proof fn lemma_normal_component(p: Scalar, c: Scalar, r: Scalar, m: real)
    requires
        p.finite() && c.finite() && r.finite(),
        1real / 1000real <= number(r) <= 1000real,
        1real / 1000real <= m <= 1000000real,
        size(number(p) - number(c)) <= m,
    ensures
        p.difference(c).quotient(r).finite(),
        size(number(r) * number(p.difference(c).quotient(r)) - (number(p) - number(c))) <= m
            / 5000000real,
{
    assert(eps() == 1real / 16700000real);
    lemma_difference_close(p, c, m);
    lemma_eps(m);
    let d = p.difference(c);
    let (x, y) = (number(d), number(r));
    let z = x / y;
    assert(z * y == x) by (nonlinear_arith)
        requires
            z == x / y,
            y > 0real,
    ;
    let w = (101real / 100real) * (m / y);
    let my = m / y;
    assert(my * y == m) by (nonlinear_arith)
        requires
            my == m / y,
            y > 0real,
    ;
    assert(1real / 1000000real <= my <= 1000000000real) by (nonlinear_arith)
        requires
            my * y == m,
            1real / 1000real <= y <= 1000real,
            1real / 1000real <= m <= 1000000real,
    ;
    assert(z <= w && -z <= w) by (nonlinear_arith)
        requires
            z * y == x,
            x <= (101real / 100real) * m,
            -x <= (101real / 100real) * m,
            w == (101real / 100real) * my,
            my * y == m,
            y > 0real,
    ;
    lemma_quotient_close(d, r, w);
    lemma_eps(w);
    let t = number(d.quotient(r));
    let e = t - z;
    lemma_small_product(e, y, w / 16700000real, y);
    assert(y * t == x + e * y) by (nonlinear_arith)
        requires
            e == t - z,
            z * y == x,
    ;
    assert(y * (w / 16700000real) == ((101real / 100real) * m) / 16700000real) by (nonlinear_arith)
        requires
            w == (101real / 100real) * my,
            my * y == m,
    ;
}

/// The normal of a hit faces the incoming ray, whatever surface it is on: it is
/// the outward normal or its opposite, and the front face is met where the
/// outward normal itself does.
pub proof fn lemma_hit_faces(ray: Ray, t: Scalar, outward: Vector)
    requires
        !dot(outward, ray.dir).nan(),
    ensures
        ({
            let h = oriented(ray, t, outward);
            &&& h.t == t
            &&& h.point == point_at(ray, t)
            &&& h.normal == outward || h.normal == outward.negated()
            &&& number(dot(h.normal, ray.dir)) <= 0real
            &&& h.front_face <==> number(dot(outward, ray.dir)) < 0real
            &&& h.front_face ==> h.normal == outward
        }),
{
    let d = ray.dir;
    lemma_times_commutes(outward.x, d.x);
    lemma_times_commutes(outward.y, d.y);
    lemma_times_commutes(outward.z, d.z);
    let o = outward.negated();
    lemma_times_commutes(o.x, d.x);
    lemma_times_commutes(o.y, d.y);
    lemma_times_commutes(o.z, d.z);
    assert(dot(outward, d) == dot(d, outward) && dot(o, d) == dot(d, o));
    lemma_dot_opposite(d, outward);
    lemma_number_sign(Scalar { bits: 0 });
    lemma_number_sign(dot(outward, d));
    lemma_number_sign(dot(o, d));
}

} // verus!
