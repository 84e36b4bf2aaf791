//! What a convex solid holds: the points on the inner side of each of its planes.
use crate::canvas::is_within;
use crate::canvas::lemma_dot_off;
use crate::constants::lemma_constant;
use crate::exact::eps;
use crate::exact::lemma_quotient_close;
use crate::exact::lemma_sum_close;
use crate::exact::number;
use crate::exact::size;
use crate::geom::crossing;
use crate::geom::Plane;
use crate::geom::Ray;
use crate::geom::PARALLEL_BITS;
use crate::geom::TWO_BITS;
use crate::lobe::lemma_unsigned_number;
use crate::projection::lemma_number_order;
use crate::scalar::Scalar;
use crate::scalar::ONE_BITS;
use crate::segment::is_bounded;
use crate::snell::lemma_inner_combined;
use crate::snell::lemma_inner_commutes;
use crate::snell::lemma_negated_number;
use crate::snell::lemma_number_sign;
use crate::snell::lemma_small_product;
use crate::snell::lemma_two_number;
use crate::triple::combined;
use crate::triple::finite;
use crate::triple::inner;
use crate::triple::lemma_eps;
use crate::triple::lemma_one_number;
use crate::triple::triple;
use crate::triple::Triple;
use crate::vector::dot;
use crate::vector::Vector;
use vstd::arithmetic::power2::lemma2_to64;
use vstd::arithmetic::power2::lemma2_to64_rest;
use vstd::prelude::*;

verus! {

/// How far a point is outside a plane: not at all where this is zero or less.
pub open spec fn beyond(plane: Plane, p: Triple) -> real {
    inner(triple(plane.normal), p) + number(plane.d)
}

/// The solid bounded by the planes holds the point.
pub open spec fn holds(planes: Seq<Plane>, p: Triple) -> bool {
    forall|i: int| 0 <= i < planes.len() ==> beyond(#[trigger] planes[i], p) <= 0real
}

/// A point is between two corners.
pub open spec fn is_between(min: Vector, max: Vector, p: Triple) -> bool {
    &&& number(min.x) <= p.x <= number(max.x)
    &&& number(min.y) <= p.y <= number(max.y)
    &&& number(min.z) <= p.z <= number(max.z)
}

/// The axes as numbers, in both senses.
pub proof fn lemma_axis_numbers()
    ensures
        triple(Vector::unit_x()) == (Triple { x: 1real, y: 0real, z: 0real }),
        triple(Vector::unit_y()) == (Triple { x: 0real, y: 1real, z: 0real }),
        triple(Vector::unit_z()) == (Triple { x: 0real, y: 0real, z: 1real }),
        triple(Vector::unit_x().negated()) == (Triple { x: -1real, y: 0real, z: 0real }),
        triple(Vector::unit_y().negated()) == (Triple { x: 0real, y: -1real, z: 0real }),
        triple(Vector::unit_z().negated()) == (Triple { x: 0real, y: 0real, z: -1real }),
{
    lemma_one_number();
    lemma_number_sign(Scalar { bits: 0 });
    lemma_negated_number(Scalar { bits: 0 });
    lemma_negated_number(Scalar { bits: ONE_BITS });
}

proof fn lemma_axis_inner(p: Triple)
    ensures
        inner(Triple { x: 1real, y: 0real, z: 0real }, p) == p.x,
        inner(Triple { x: 0real, y: 1real, z: 0real }, p) == p.y,
        inner(Triple { x: 0real, y: 0real, z: 1real }, p) == p.z,
        inner(Triple { x: -1real, y: 0real, z: 0real }, p) == -p.x,
        inner(Triple { x: 0real, y: -1real, z: 0real }, p) == -p.y,
        inner(Triple { x: 0real, y: 0real, z: -1real }, p) == -p.z,
{
}

/// The six planes of a box hold what is between its corners.
pub proof fn lemma_box_holds(planes: Seq<Plane>, min: Vector, max: Vector, p: Triple)
    requires
        planes == seq![
            Plane { normal: Vector::unit_x(), d: max.x.negated() },
            Plane { normal: Vector::unit_x().negated(), d: min.x },
            Plane { normal: Vector::unit_y(), d: max.y.negated() },
            Plane { normal: Vector::unit_y().negated(), d: min.y },
            Plane { normal: Vector::unit_z(), d: max.z.negated() },
            Plane { normal: Vector::unit_z().negated(), d: min.z },
        ],
    ensures
        holds(planes, p) <==> is_between(min, max, p),
{
    lemma_axis_numbers();
    lemma_axis_inner(p);
    lemma_negated_number(max.x);
    lemma_negated_number(max.y);
    lemma_negated_number(max.z);
    assert(beyond(planes[0], p) == p.x - number(max.x));
    assert(beyond(planes[1], p) == number(min.x) - p.x);
    assert(beyond(planes[2], p) == p.y - number(max.y));
    assert(beyond(planes[3], p) == number(min.y) - p.y);
    assert(beyond(planes[4], p) == p.z - number(max.z));
    assert(beyond(planes[5], p) == number(min.z) - p.z);
    assert(planes.len() == 6);
    if is_between(min, max, p) {
        assert forall|i: int| 0 <= i < planes.len() implies beyond(#[trigger] planes[i], p)
            <= 0real by {
            assert(i == 0 || i == 1 || i == 2 || i == 3 || i == 4 || i == 5);
        }
    }
}

/// A point is in the prism whose sides have the given normals at distance `size`
/// from the axis, and whose caps are `half` from the middle.
pub open spec fn is_in_prism(sides: Seq<Vector>, size: real, half: real, p: Triple) -> bool {
    &&& inner(triple(sides[0]), p) <= size
    &&& inner(triple(sides[1]), p) <= size
    &&& inner(triple(sides[2]), p) <= size
    &&& -half <= p.z <= half
}

/// The five planes of a prism hold what is inside its sides and between its caps.
pub proof fn lemma_prism_holds(
    planes: Seq<Plane>,
    sides: Seq<Vector>,
    size: Scalar,
    cap: Scalar,
    p: Triple,
)
    requires
        planes == seq![
            Plane { normal: sides[0], d: size.negated() },
            Plane { normal: sides[1], d: size.negated() },
            Plane { normal: sides[2], d: size.negated() },
            Plane { normal: Vector::unit_z(), d: cap },
            Plane { normal: Vector::unit_z().negated(), d: cap },
        ],
    ensures
        holds(planes, p) <==> is_in_prism(sides, number(size), -number(cap), p),
{
    lemma_axis_numbers();
    lemma_axis_inner(p);
    lemma_negated_number(size);
    assert(beyond(planes[0], p) == inner(triple(sides[0]), p) - number(size));
    assert(beyond(planes[1], p) == inner(triple(sides[1]), p) - number(size));
    assert(beyond(planes[2], p) == inner(triple(sides[2]), p) - number(size));
    assert(beyond(planes[3], p) == p.z + number(cap));
    assert(beyond(planes[4], p) == -p.z + number(cap));
    assert(planes.len() == 5);
    if is_in_prism(sides, number(size), -number(cap), p) {
        assert forall|i: int| 0 <= i < planes.len() implies beyond(#[trigger] planes[i], p)
            <= 0real by {
            assert(i == 0 || i == 1 || i == 2 || i == 3 || i == 4);
        }
    }
}

/// Half of an ordinary depth, to within rounding.
pub open spec fn is_half_of(half: real, depth: Scalar) -> bool {
    depth.finite() && 1real / 1000000000real <= number(depth) <= 1000000000real ==> size(
        half - number(depth) / 2real,
    ) <= number(depth) / 10000000real
}

/// The distance of a cap is half the depth.
pub proof fn lemma_cap_number(depth: Scalar)
    ensures
        is_half_of(
            -number(depth.negated().quotient(Scalar { bits: TWO_BITS })),
            depth,
        ),
{
    if depth.finite() && 1real / 1000000000real <= number(depth) <= 1000000000real {
        assert(eps() == 1real / 16700000real);
        lemma_two_number();
        lemma_negated_number(depth);
        let d = number(depth);
        assert((-d) / 2real == -(d / 2real));
        lemma_quotient_close(depth.negated(), Scalar { bits: TWO_BITS }, d);
        lemma_eps(d);
    }
}

/// A ray is in the plane at the parameter of their crossing.
pub proof fn lemma_crossing_place(plane: Plane, ray: Ray, m: real)
    requires
        is_bounded(ray, m),
        m <= 1000real,
        is_within(plane.normal, 1001real / 1000real),
        plane.d.finite(),
        size(number(plane.d)) <= m,
        !crossing(plane, ray).parallel(),
        crossing(plane, ray).t.finite(),
        size(number(crossing(plane, ray).t)) <= m,
    ensures
        size(
            beyond(
                plane,
                combined(triple(ray.origin), number(crossing(plane, ray).t), triple(ray.dir)),
            ),
        ) <= m / 50000real,
{
    assert(eps() == 1real / 16700000real);
    let w = 1001real / 1000real;
    let (o, d, n) = (triple(ray.origin), triple(ray.dir), triple(plane.normal));
    let c = crossing(plane, ray);
    lemma_dot_off(plane.normal, n, ray.dir, w, w, 0real);
    lemma_dot_off(plane.normal, n, ray.origin, w, m, 0real);
    let ns = dot(plane.normal, ray.origin);
    lemma_sum_close(ns, plane.d, 6real * m);
    lemma_eps(6real * m);
    lemma_negated_number(c.dist);
    let xs = c.dist.negated();
    let (x, y, t) = (number(xs), number(c.denom), number(c.t));
    lemma2_to64();
    lemma2_to64_rest();
    lemma_constant(PARALLEL_BITS, 99, 11258999, 1125899906842624real);
    lemma_unsigned_number(c.denom);
    let least = Scalar { bits: PARALLEL_BITS };
    if size(y) < number(least) {
        lemma_number_order(c.denom.unsigned(), least);
    }
    let z = x / y;
    assert(z * y == x) by (nonlinear_arith)
        requires
            z == x / y,
            y != 0real,
    ;
    let (a, ay) = (size(z), size(y));
    assert(a * ay == size(x)) by (nonlinear_arith)
        requires
            z * y == x,
            a == z && z >= 0real || a == -z && z < 0real,
            ay == y && y >= 0real || ay == -y && y < 0real,
    ;
    assert(a <= 100000000000000real) by (nonlinear_arith)
        requires
            a * ay <= 10000real,
            ay >= 1real / 1000000000real,
    ;
    let bound = a + 1real / 1000real;
    lemma_quotient_close(xs, c.denom, bound);
    lemma_eps(bound);
    let f = t - z;
    lemma_small_product(f, y, bound / 16700000real, ay);
    assert(ay * (bound / 16700000real) == (a * ay + ay / 1000real) / 16700000real)
        by (nonlinear_arith)
        requires
            bound == a + 1real / 1000real,
    ;
    assert(t * y == x + f * y) by (nonlinear_arith)
        requires
            f == t - z,
            z * y == x,
    ;
    let nd = inner(n, d);
    let g = y - nd;
    lemma_small_product(g, t, 1real / 1000000real, m);
    assert(t * y == t * nd + g * t) by (nonlinear_arith)
        requires
            g == y - nd,
    ;
    lemma_along_ray(o, d, n, t);
    assert(w * m <= (11real / 10real) * m) by (nonlinear_arith)
        requires
            w == 1001real / 1000real,
            m > 0real,
    ;
    assert(m * (1real / 1000000real) == m / 1000000real);
}

/// `n . (o + t d) = n . o + t (n . d)`.
proof fn lemma_along_ray(o: Triple, d: Triple, n: Triple, t: real)
    ensures
        inner(n, combined(o, t, d)) == inner(n, o) + t * inner(n, d),
{
    let p = combined(o, t, d);
    lemma_inner_combined(o, t, d, n);
    lemma_inner_commutes(p, n);
    lemma_inner_commutes(o, n);
    lemma_inner_commutes(d, n);
}

} // verus!
