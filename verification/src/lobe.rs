//! Where a surface sends light: the cosine-weighted lobe of a diffuse one, and
//! the choice between mirroring and transmission of glass.
use crate::aperture::lemma_draw_number;
use crate::aperture::share;
use crate::constants::lemma_constant;
use crate::exact::close;
use crate::exact::eps;
use crate::exact::lemma_difference_close;
use crate::exact::lemma_product_close;
use crate::exact::lemma_root_close;
use crate::exact::lemma_sum_close;
use crate::exact::number;
use crate::exact::size;
use crate::frame::are_axes;
use crate::frame::crossed;
use crate::frame::lemma_cross_close;
use crate::frame::lemma_crossed_length;
use crate::frame::lemma_crossed_square;
use crate::frame::lemma_third_axis;
use crate::geom::Hit;
use crate::material::azimuth;
use crate::material::dielectric_direction;
use crate::material::hemisphere;
use crate::material::tangent_seed;
use crate::material::Material;
use crate::material::NEAR_ONE_BITS;
use crate::material::TURN_BITS;
use crate::norm::lemma_inner_short;
use crate::norm::lemma_short_components;
use crate::norm::minus;
use crate::norm::scaled;
use crate::norm::short;
use crate::optics::mirrored;
use crate::optics::reflectance;
use crate::optics::refracted;
use crate::projection::lemma_even_short;
use crate::projection::lemma_number_order;
use crate::rng::advanced;
use crate::rng::is_unit;
use crate::rng::pcg;
use crate::rng::unit_draw;
use crate::scalar::lemma_magnitude_sign;
use crate::scalar::Scalar;
use crate::scalar::ONE_BITS;
use crate::snell::is_unit_vector;
use crate::snell::lemma_inner_combined;
use crate::snell::lemma_inner_commutes;
use crate::snell::lemma_inner_sum;
use crate::snell::lemma_negated_number;
use crate::snell::lemma_number_sign;
use crate::snell::lemma_small_product;
use crate::squares::lemma_representable;
use crate::supplied::result;
use crate::transmission::lemma_inner_scaled;
use crate::triple::combined;
use crate::triple::finite;
use crate::triple::inner;
use crate::triple::lemma_eps;
use crate::triple::lemma_from_square;
use crate::triple::lemma_half_squares;
use crate::triple::lemma_one_number;
use crate::triple::lemma_unit_close;
use crate::triple::triple;
use crate::triple::Triple;
use crate::vector::cross;
use crate::vector::dot;
use crate::vector::unit;
use crate::vector::vector_scaled;
use crate::vector::vector_sum;
use crate::vector::Vector;
use vstd::arithmetic::power2::lemma2_to64;
use vstd::prelude::*;

verus! {

/// A number without its sign.
pub proof fn lemma_unsigned_number(x: Scalar)
    ensures
        number(x.unsigned()) == size(number(x)),
        x.unsigned().finite() == x.finite(),
{
    lemma_magnitude_sign(x.unsigned_bits());
    lemma_number_sign(x);
    if x.negative() {
        lemma_negated_number(x);
        assert(x.unsigned() == x.negated());
    } else {
        assert(x.unsigned() == x);
    }
}

/// The cross product of two directions that are not along each other, brought to
/// unit length, is square to the first.
pub proof fn lemma_square_side(a: Vector, b: Vector)
    requires
        finite(a) && finite(b),
        short(triple(a), 1001real / 1000real),
        short(triple(b), 1001real / 1000real),
        inner(crossed(triple(a), triple(b)), crossed(triple(a), triple(b))) >= 1real / 100real,
    ensures
        is_unit_vector(unit(cross(a, b))),
        size(inner(triple(unit(cross(a, b))), triple(a))) <= 80real * eps(),
        finite(cross(a, b)),
        99real / 10000real <= inner(triple(cross(a, b)), triple(cross(a, b))) <= 201real / 100real,
{
    let e = eps();
    assert(e == 1real / 16700000real);
    let (x, y) = (triple(a), triple(b));
    let one = 1001real / 1000real;
    let side = cross(a, b);
    lemma_cross_close(a, b);
    let (s, c) = (triple(side), crossed(x, y));
    let f = minus(s, c);
    let l = (72real / 10real) * e;
    lemma_crossed_length(x, y);
    let (xx, yy, xy) = (inner(x, x), inner(y, y), inner(x, y));
    assert(one * one <= 1003real / 1000real);
    assert(inner(c, c) <= 2real) by {
        assert(xy * xy >= 0real) by (nonlinear_arith);
        lemma_half_squares(x.x, x.y);
        lemma_half_squares(x.z, x.y);
        lemma_half_squares(y.x, y.y);
        lemma_half_squares(y.z, y.y);
        lemma_small_product(xx, yy, 1003real / 1000real, 1003real / 1000real);
    }
    lemma_inner_sum(s, c, f, s);
    lemma_inner_sum(s, c, f, c);
    lemma_inner_sum(s, c, f, f);
    lemma_inner_commutes(c, s);
    lemma_inner_commutes(f, s);
    lemma_inner_commutes(c, f);
    assert(short(c, 142real / 100real));
    lemma_inner_short(f, c, l, 142real / 100real);
    lemma_inner_short(f, f, l, l);
    assert(l * l <= e) by (nonlinear_arith)
        requires
            l == (72real / 10real) * e,
            e == 1real / 16700000real,
    ;
    assert(inner(s, s) == inner(c, c) + 2real * inner(f, c) + inner(f, f));
    let k = lemma_unit_close(side);
    let u = unit(side);
    let (kk, ss) = (k * k, inner(s, s));
    assert(kk >= 0real) by (nonlinear_arith)
        requires
            kk == k * k,
    ;
    assert(kk <= 102real) by (nonlinear_arith)
        requires
            kk * ss <= 1001real / 1000real,
            ss >= 99real / 10000real,
            kk >= 0real,
    ;
    assert(k <= 102real / 10real) by (nonlinear_arith)
        requires
            k * k <= 102real,
            k > 0real,
    ;
    lemma_crossed_square(x, y);
    lemma_inner_sum(s, c, f, x);
    lemma_inner_short(f, x, l, one);
    let ks = scaled(k, s);
    lemma_inner_scaled(k, s, x);
    let g = minus(triple(u), ks);
    lemma_even_short(g, (101real / 100real) * e);
    lemma_inner_sum(triple(u), ks, g, x);
    lemma_inner_short(g, x, (174real / 100real) * ((101real / 100real) * e), one);
    let sx = inner(s, x);
    lemma_small_product(sx, k, l * one, 102real / 10real);
    assert(sx * k == k * sx) by (nonlinear_arith);
}

/// The tangent to a unit normal.
proof fn lemma_tangent(normal: Vector)
    requires
        is_unit_vector(normal),
    ensures
        ({
            let t = unit(cross(normal, tangent_seed(normal)));
            let b = cross(normal, t);
            &&& is_unit_vector(t)
            &&& finite(b)
            &&& are_axes(triple(t), triple(b), triple(normal))
        }),
{
    let e = eps();
    assert(e == 1real / 16700000real);
    lemma2_to64();
    lemma_one_number();
    lemma_constant(NEAR_ONE_BITS, 125, 15099494, 16777216real);
    lemma_unsigned_number(normal.x);
    let n = triple(normal);
    let seed = tangent_seed(normal);
    let s = triple(seed);
    lemma_number_sign(Scalar { bits: 0 });
    let near = Scalar { bits: NEAR_ONE_BITS };
    let a = size(n.x);
    assert(a * a == n.x * n.x) by (nonlinear_arith)
        requires
            a == n.x || a == -n.x,
    ;
    lemma_half_squares(n.x, n.y);
    lemma_half_squares(n.z, n.y);
    lemma_crossed_length(n, s);
    assert(n.x * 0real == 0real && n.y * 0real == 0real && n.z * 0real == 0real && n.x * 1real
        == n.x && n.y * 1real == n.y);
    assert(1real * 1real == 1real && 0real * 0real == 0real);
    let nn = inner(n, n);
    assert(inner(s, s) == 1real);
    assert(nn * 1real == nn);
    if near.below(normal.x.unsigned()) {
        if a < number(near) {
            lemma_number_order(normal.x.unsigned(), near);
        }
        assert(a * a >= 80real / 100real) by (nonlinear_arith)
            requires
                a >= 15099494real / 16777216real,
        ;
        assert(inner(n, s) == n.y);
    } else {
        if a > number(near) {
            lemma_number_order(near, normal.x.unsigned());
        }
        assert(a * a <= 82real / 100real) by (nonlinear_arith)
            requires
                0real <= a <= 15099494real / 16777216real,
        ;
        assert(inner(n, s) == n.x);
    }
    assert(short(n, 1001real / 1000real) && short(s, 1001real / 1000real));
    lemma_square_side(normal, seed);
    lemma_third_axis(normal, unit(cross(normal, seed)));
}

/// A component of the sum of three scaled directions.
proof fn lemma_mix_component(t: Scalar, b: Scalar, n: Scalar, x: Scalar, y: Scalar, z: Scalar)
    requires
        t.finite() && b.finite() && n.finite() && x.finite() && y.finite() && z.finite(),
        size(number(t)) <= 1001real / 1000real,
        size(number(b)) <= 1001real / 1000real,
        size(number(n)) <= 1001real / 1000real,
        size(number(x)) <= 1002real / 1000real,
        size(number(y)) <= 1002real / 1000real,
        size(number(z)) <= 1002real / 1000real,
    ensures
        close(
            t.product(x).sum(b.product(y)).sum(n.product(z)),
            number(t) * number(x) + number(b) * number(y) + number(n) * number(z),
            9real / 16700000real,
        ),
{
    assert(eps() == 1real / 16700000real);
    let one = 101real / 100real;
    let (p, q) = (1001real / 1000real, 1002real / 1000real);
    lemma_small_product(number(t), number(x), p, q);
    lemma_small_product(number(b), number(y), p, q);
    lemma_small_product(number(n), number(z), p, q);
    lemma_product_close(t, x, one);
    lemma_product_close(b, y, one);
    lemma_product_close(n, z, one);
    lemma_eps(one);
    lemma_sum_close(t.product(x), b.product(y), 203real / 100real);
    lemma_eps(203real / 100real);
    lemma_sum_close(t.product(x).sum(b.product(y)), n.product(z), 305real / 100real);
    lemma_eps(305real / 100real);
}

/// The exact combination of three directions.
pub open spec fn blend(t: Triple, x: real, b: Triple, y: real, n: Triple, z: real) -> Triple {
    combined(combined(scaled(x, t), y, b), z, n)
}

/// How a combination of axes reads along each of them.
proof fn lemma_blend(t: Triple, b: Triple, n: Triple, x: real, y: real, z: real)
    requires
        are_axes(t, b, n),
        size(x) <= 1002real / 1000real,
        size(y) <= 1002real / 1000real,
        size(z) <= 1002real / 1000real,
    ensures
        size(inner(blend(t, x, b, y, n, z), t) - x) <= 1real / 50000real,
        size(inner(blend(t, x, b, y, n, z), b) - y) <= 1real / 50000real,
        size(inner(blend(t, x, b, y, n, z), n) - z) <= 1real / 50000real,
{
    let (s1, s) = (combined(scaled(x, t), y, b), blend(t, x, b, y, n, z));
    lemma_blend_along(t, b, n, x, y, z, t);
    lemma_blend_along(t, b, n, x, y, z, b);
    lemma_blend_along(t, b, n, x, y, z, n);
    lemma_inner_commutes(t, b);
    lemma_inner_commutes(t, n);
    lemma_inner_commutes(b, n);
    let w = 1002real / 1000real;
    let k = 1real / 200000real;
    let (tt, bb, nn) = (inner(t, t) - 1real, inner(b, b) - 1real, inner(n, n) - 1real);
    let (tb, tn, bn) = (inner(t, b), inner(t, n), inner(b, n));
    lemma_small_product(tt, x, k, w);
    lemma_small_product(bb, y, k, w);
    lemma_small_product(nn, z, k, w);
    lemma_small_product(tb, x, k, w);
    lemma_small_product(tb, y, k, w);
    lemma_small_product(tn, x, k, w);
    lemma_small_product(tn, z, k, w);
    lemma_small_product(bn, y, k, w);
    lemma_small_product(bn, z, k, w);
    lemma_near_one(x, inner(t, t), tt);
    lemma_near_one(y, inner(b, b), bb);
    lemma_near_one(z, inner(n, n), nn);
    assert(x * tb == tb * x && y * tb == tb * y && x * tn == tn * x && z * tn == tn * z && y * bn
        == bn * y && z * bn == bn * z) by (nonlinear_arith);
}

proof fn lemma_near_one(x: real, q: real, d: real)
    requires
        d == q - 1real,
    ensures
        x * q == x + d * x,
{
    assert(x * q == x + d * x) by (nonlinear_arith)
        requires
            d == q - 1real,
    ;
}

proof fn lemma_blend_along(t: Triple, b: Triple, n: Triple, x: real, y: real, z: real, a: Triple)
    ensures
        inner(blend(t, x, b, y, n, z), a) == x * inner(t, a) + y * inner(b, a) + z * inner(n, a),
{
    let s0 = scaled(x, t);
    let s1 = combined(s0, y, b);
    lemma_inner_scaled(x, t, a);
    lemma_inner_combined(s0, y, b, a);
    lemma_inner_combined(s1, z, n, a);
}

/// The radius on the disc, and the height above it, of the squared radius `u`.
proof fn lemma_radius_and_height(u: Scalar) -> (rz: (Scalar, Scalar))
    requires
        u.finite(),
        0real <= number(u) <= 1real,
    ensures
        ({
            let (r, z) = rz;
            &&& r == u.square_root()
            &&& z == (Scalar { bits: ONE_BITS }).difference(u).larger(
                Scalar { bits: 0 },
            ).square_root()
            &&& r.finite() && z.finite()
            &&& 0real <= number(r) <= 1001real / 1000real
            &&& 0real <= number(z) <= 1001real / 1000real
            &&& size(number(r) * number(r) - number(u)) <= 1real / 5000000real
            &&& size(number(z) * number(z) - (1real - number(u))) <= 1real / 5000000real
        }),
{
    assert(eps() == 1real / 16700000real);
    lemma_one_number();
    let zero = Scalar { bits: 0 };
    lemma_number_sign(zero);
    let one = Scalar { bits: ONE_BITS };
    lemma_difference_close(one, u, 1real);
    lemma_eps(1real);
    let d = one.difference(u);
    let h = d.larger(zero);
    lemma_number_sign(d);
    assert(number(h) >= 0real && size(number(h) - (1real - number(u))) <= 1real / 16700000real);
    lemma_root_close(u);
    lemma_root_close(h);
    let (r, z) = (u.square_root(), h.square_root());
    lemma_root_error(number(u));
    lemma_root_error(number(h));
    lemma_from_square(number(r), 1001real / 1000real);
    lemma_from_square(number(z), 1001real / 1000real);
    (r, z)
}

proof fn lemma_root_error(x: real)
    requires
        0real <= x <= 101real / 100real,
    ensures
        2real * eps() * x <= 203real / 1670000000real,
{
    assert(2real * eps() * x <= 203real / 1670000000real) by (nonlinear_arith)
        requires
            0real <= x <= 101real / 100real,
            eps() == 1real / 16700000real,
    ;
}

/// A direction of a diffuse surface: the square of its cosine with the normal is
/// `1 - u`, so that directions are weighted by the cosine where `u` is drawn
/// evenly, and it leaves on the side of the normal; about the normal it stands at
/// the given azimuth. The axes `t` and `b` span the tangent plane.
pub proof fn lemma_cosine_lobe(normal: Vector, u: Scalar, cos_sin: (Scalar, Scalar)) -> (axes: (
    Triple,
    Triple,
    real,
    real,
))
    requires
        is_unit_vector(normal),
        u.finite(),
        0real <= number(u) <= 1real,
        cos_sin.0.finite() && cos_sin.1.finite(),
        size(
            number(cos_sin.0) * number(cos_sin.0) + number(cos_sin.1) * number(cos_sin.1) - 1real,
        ) <= 1real / 1000000real,
    ensures
        ({
            let d = triple(hemisphere(normal, u, cos_sin));
            let n = triple(normal);
            let (t, b, r, z) = axes;
            &&& finite(hemisphere(normal, u, cos_sin))
            &&& are_axes(t, b, n)
            &&& r >= 0real && size(r * r - number(u)) <= 1real / 5000000real
            &&& z >= 0real && size(z * z - (1real - number(u))) <= 1real / 5000000real
            &&& size(inner(d, n) - z) <= 1real / 5000real
            &&& size(inner(d, t) - r * number(cos_sin.0)) <= 1real / 5000real
            &&& size(inner(d, b) - r * number(cos_sin.1)) <= 1real / 5000real
        }),
{
    assert(eps() == 1real / 16700000real);
    let (rs, zs) = lemma_radius_and_height(u);
    let (r, z) = (number(rs), number(zs));
    let (c, s) = (number(cos_sin.0), number(cos_sin.1));
    lemma_half_squares(c, s);
    let w = 1001real / 1000real;
    lemma_from_square(c, w);
    lemma_from_square(s, w);
    let tv = unit(cross(normal, tangent_seed(normal)));
    let bv = cross(normal, tv);
    lemma_tangent(normal);
    let (t, b, n) = (triple(tv), triple(bv), triple(normal));
    lemma_circle_sides(r, c, s, number(u));
    let (rc, rk) = (r * c, r * s);
    lemma_product_close(rs, cos_sin.0, 1001real / 1000real);
    lemma_product_close(rs, cos_sin.1, 1001real / 1000real);
    lemma_eps(1001real / 1000real);
    let (xs, ys) = (rs.product(cos_sin.0), rs.product(cos_sin.1));
    let (x, y) = (number(xs), number(ys));
    lemma_short_components(t, w);
    lemma_short_components(b, w);
    lemma_short_components(n, w);
    lemma_mix_component(tv.x, bv.x, normal.x, xs, ys, zs);
    lemma_mix_component(tv.y, bv.y, normal.y, xs, ys, zs);
    lemma_mix_component(tv.z, bv.z, normal.z, xs, ys, zs);
    let sum = vector_sum(
        vector_sum(vector_scaled(tv, xs), vector_scaled(bv, ys)),
        vector_scaled(normal, zs),
    );
    let exact = blend(t, x, b, y, n, z);
    lemma_swapped(t.x, b.x, n.x, x, y, z);
    lemma_swapped(t.y, b.y, n.y, x, y, z);
    lemma_swapped(t.z, b.z, n.z, x, y, z);
    lemma_blend(t, b, n, x, y, z);
    let f = minus(triple(sum), exact);
    let k = 9real / 16700000real;
    lemma_even_short(f, k);
    // The length of the sum.
    lemma_blend_along(t, b, n, x, y, z, exact);
    lemma_inner_commutes(t, exact);
    lemma_inner_commutes(b, exact);
    lemma_inner_commutes(n, exact);
    lemma_weighted(x, inner(exact, t), 1real / 50000real);
    lemma_weighted(y, inner(exact, b), 1real / 50000real);
    lemma_weighted(z, inner(exact, n), 1real / 50000real);
    lemma_squares_near(x, rc);
    lemma_squares_near(y, rk);
    assert(size(inner(exact, exact) - 1real) <= 7real / 100000real);
    lemma_turned_length(triple(sum), exact, f);
    let j = lemma_unit_close(sum);
    lemma_unit_scale(j, inner(triple(sum), triple(sum)));
    let d = triple(unit(sum));
    lemma_along(d, triple(sum), exact, f, t, j, x);
    lemma_along(d, triple(sum), exact, f, b, j, y);
    lemma_along(d, triple(sum), exact, f, n, j, z);
    (t, b, r, z)
}

proof fn lemma_circle_sides(r: real, c: real, s: real, u: real)
    requires
        0real <= r <= 1001real / 1000real,
        size(r * r - u) <= 1real / 5000000real,
        size(c * c + s * s - 1real) <= 1real / 1000000real,
        0real <= u <= 1real,
    ensures
        size(r * c) <= 1001real / 1000real,
        size(r * s) <= 1001real / 1000real,
        size((r * c) * (r * c) + (r * s) * (r * s) - u) <= 2real / 1000000real,
{
    let (rr, cc, ss) = (r * r, c * c, s * s);
    let (x, y) = (r * c, r * s);
    assert(x * x == rr * cc && y * y == rr * ss) by (nonlinear_arith)
        requires
            x == r * c,
            y == r * s,
            rr == r * r,
            cc == c * c,
            ss == s * s,
    ;
    let d = cc + ss - 1real;
    assert(rr * cc + rr * ss == rr + d * rr) by (nonlinear_arith)
        requires
            d == cc + ss - 1real,
    ;
    lemma_small_product(d, rr, 1real / 1000000real, 101real / 100real);
    lemma_half_squares(x, y);
    lemma_from_square(x, 1001real / 1000real);
    lemma_from_square(y, 1001real / 1000real);
}

proof fn lemma_swapped(t: real, b: real, n: real, x: real, y: real, z: real)
    ensures
        t * x + b * y + n * z == x * t + y * b + z * n,
{
    assert(t * x == x * t && b * y == y * b && n * z == z * n) by (nonlinear_arith);
}

proof fn lemma_weighted(x: real, q: real, e: real)
    requires
        size(q - x) <= e,
        size(x) <= 1002real / 1000real,
        0real <= e <= 1real / 50000real,
    ensures
        size(x * q - x * x) <= 21real / 1000000real,
{
    let d = q - x;
    assert(x * q == x * x + d * x) by (nonlinear_arith)
        requires
            d == q - x,
    ;
    lemma_small_product(d, x, e, 1002real / 1000real);
}

proof fn lemma_squares_near(x: real, y: real)
    requires
        size(x - y) <= 1real / 8000000real,
        size(x) <= 1002real / 1000real,
        size(y) <= 1002real / 1000real,
    ensures
        size(x * x - y * y) <= 1real / 3000000real,
{
    let (d, s) = (x - y, x + y);
    assert(x * x - y * y == d * s) by (nonlinear_arith)
        requires
            d == x - y,
            s == x + y,
    ;
    lemma_small_product(d, s, 1real / 8000000real, 2005real / 1000real);
}

/// The length of a sum that rounding moved.
proof fn lemma_turned_length(s: Triple, c: Triple, f: Triple)
    requires
        f == minus(s, c),
        short(f, (174real / 100real) * (9real / 16700000real)),
        size(inner(c, c) - 1real) <= 7real / 100000real,
    ensures
        size(inner(s, s) - 1real) <= 8real / 100000real,
{
    let l = (174real / 100real) * (9real / 16700000real);
    let w = 1001real / 1000real;
    assert(w * w >= 1002real / 1000real);
    assert(short(c, w));
    lemma_inner_sum(s, c, f, s);
    lemma_inner_sum(s, c, f, c);
    lemma_inner_sum(s, c, f, f);
    lemma_inner_commutes(c, s);
    lemma_inner_commutes(f, s);
    lemma_inner_commutes(c, f);
    lemma_inner_short(f, c, l, w);
    lemma_inner_short(f, f, l, l);
    assert(l * w <= 1real / 1000000real && l * l <= 1real / 1000000real) by (nonlinear_arith)
        requires
            l == (174real / 100real) * (9real / 16700000real),
            w == 1001real / 1000real,
    ;
    assert(inner(s, s) == inner(c, c) + 2real * inner(f, c) + inner(f, f));
}

/// The factor that brings a length near one to one.
proof fn lemma_unit_scale(j: real, q: real)
    requires
        j > 0real,
        size((j * j) * q - 1real) <= (714real / 100real) * eps(),
        size(q - 1real) <= 8real / 100000real,
    ensures
        size(j - 1real) <= 1real / 10000real,
{
    assert(eps() == 1real / 16700000real);
    let jj = j * j;
    assert(jj >= 0real) by (nonlinear_arith)
        requires
            jj == j * j,
    ;
    assert(jj <= 10001real / 10000real) by (nonlinear_arith)
        requires
            jj * q <= 1real + 1real / 1000000real,
            q >= 1real - 8real / 100000real,
            jj >= 0real,
    ;
    assert(jj >= 9999real / 10000real) by (nonlinear_arith)
        requires
            jj * q >= 1real - 1real / 1000000real,
            q <= 1real + 8real / 100000real,
            jj >= 0real,
    ;
    assert(j <= 1real + 1real / 10000real) by (nonlinear_arith)
        requires
            j * j <= 10001real / 10000real,
            j > 0real,
    ;
    assert(j >= 1real - 1real / 10000real) by (nonlinear_arith)
        requires
            j * j >= 9999real / 10000real,
            j > 0real,
    ;
}

/// The reading of the finished direction along an axis.
proof fn lemma_along(
    d: Triple,
    s: Triple,
    c: Triple,
    f: Triple,
    a: Triple,
    j: real,
    x: real,
)
    requires
        crate::triple::apart(d, scaled(j, s), (101real / 100real) * (1real / 16700000real)),
        f == minus(s, c),
        short(f, (174real / 100real) * (9real / 16700000real)),
        short(a, 1001real / 1000real),
        size(j - 1real) <= 1real / 10000real,
        size(inner(c, a) - x) <= 1real / 50000real,
        size(x) <= 1002real / 1000real,
    ensures
        size(inner(d, a) - x) <= 13real / 100000real,
{
    let e = (101real / 100real) * (1real / 16700000real);
    let l = (174real / 100real) * (9real / 16700000real);
    let w = 1001real / 1000real;
    let js = scaled(j, s);
    let h = minus(d, js);
    lemma_even_short(h, e);
    lemma_inner_sum(d, js, h, a);
    lemma_inner_short(h, a, (174real / 100real) * e, w);
    lemma_inner_scaled(j, s, a);
    lemma_inner_sum(s, c, f, a);
    lemma_inner_short(f, a, l, w);
    let (q, g) = (inner(s, a), j - 1real);
    assert(j * q == q + g * q) by (nonlinear_arith)
        requires
            g == j - 1real,
    ;
    lemma_small_product(g, q, 1real / 10000real, 1003real / 1000real);
}

/// The azimuth of a draw: its part of a full turn, which is 6.2831853 radians.
pub proof fn lemma_azimuth(draw: u32)
    ensures
        azimuth(unit_draw(draw)).finite(),
        size(
            number(azimuth(unit_draw(draw))) - (62831853real * share(draw)) / 10000000real,
        ) <= 1real / 500000real,
{
    assert(eps() == 1real / 16700000real);
    lemma2_to64();
    lemma_constant(TURN_BITS, 128, 13176795, 2097152real);
    lemma_draw_number(draw);
    let turn = Scalar { bits: TURN_BITS };
    let (x, y) = (number(turn), share(draw));
    let d = x - 62831853real / 10000000real;
    lemma_small_product(d, y, 1real / 1000000real, 1real);
    assert(x * y == (62831853real * y) / 10000000real + d * y) by (nonlinear_arith)
        requires
            d == x - 62831853real / 10000000real,
    ;
    lemma_product_close(turn, unit_draw(draw), 7real);
    lemma_eps(7real);
}

/// A diffuse surface sends a path about its normal at the squared radius of the
/// first draw and at the azimuth of the second, over the whole turn.
pub proof fn lemma_diffuse_direction<F: Fn(Scalar) -> (Scalar, Scalar)>(
    rho: Scalar,
    wo_in: Vector,
    hit: Hit,
    n_hero: Scalar,
    counter: u32,
    turn: F,
) -> (uv: (Scalar, Scalar))
    ensures
        ({
            let sc = Material::Lambertian { reflectance: rho }.scattered(
                wo_in,
                hit,
                n_hero,
                counter,
                turn,
            );
            let (u, phi) = uv;
            &&& sc.dir == hemisphere(hit.normal, u, result(turn, phi))
            &&& u.finite()
            &&& number(u) == share(pcg(advanced(counter, 1)))
            &&& phi.finite()
            &&& size(
                number(phi) - (62831853real * share(pcg(advanced(counter, 2)))) / 10000000real,
            ) <= 1real / 500000real
        }),
{
    let (d1, d2) = (pcg(advanced(counter, 1)), pcg(advanced(counter, 2)));
    lemma_draw_number(d1);
    lemma_azimuth(d2);
    (unit_draw(d1), azimuth(unit_draw(d2)))
}

/// Glass mirrors a path with the reflectance as the probability: where the draw
/// is below it. Any other draw transmits, if the path can be transmitted. The
/// reflectance and the refraction are those from the air into glass on the front
/// face, and from glass into the air on any other.
pub proof fn lemma_glass_choice(d: Vector, hit: Hit, n: Scalar, draw: u32)
    requires
        ({
            let air = Scalar { bits: ONE_BITS };
            let c = dot(d, hit.normal).negated().unsigned();
            &&& hit.front_face ==> reflectance(c, air, n).finite()
            &&& !hit.front_face ==> reflectance(c, n, air).finite()
        }),
    ensures
        ({
            let air = Scalar { bits: ONE_BITS };
            let c = dot(d, hit.normal).negated().unsigned();
            let found = dielectric_direction(d, hit, n, draw);
            let (n1, n2) = if hit.front_face {
                (air, n)
            } else {
                (n, air)
            };
            let r = number(reflectance(c, n1, n2));
            &&& share(draw) < r ==> found == mirrored(d, hit.normal)
            &&& share(draw) >= r ==> match refracted(d, hit.normal, n1, n2) {
                Some(dir) => found == dir,
                None => found == mirrored(d, hit.normal),
            }
        }),
{
    let air = Scalar { bits: ONE_BITS };
    let c = dot(d, hit.normal).negated().unsigned();
    let r = if hit.front_face {
        reflectance(c, air, n)
    } else {
        reflectance(c, n, air)
    };
    lemma_draw_number(draw);
    let u = unit_draw(draw);
    lemma_draw_value(draw);
    if number(u) < number(r) {
        lemma_number_order(u, r);
    } else if number(u) > number(r) {
        lemma_number_order(r, u);
    } else {
        lemma_same_number(u, r);
    }
}

/// A draw stands for its upper bits.
pub proof fn lemma_draw_value(draw: u32)
    ensures
        is_unit(unit_draw(draw), draw),
{
    let k: int = lemma_representable(draw as int / 256, 125);
    let x = Scalar { bits: k as u32 };
    assert(is_unit(x, draw));
}

/// The same number has the same value.
pub proof fn lemma_same_number(x: Scalar, y: Scalar)
    requires
        number(x) == number(y),
    ensures
        x.value() == y.value(),
{
    reveal(number);
    crate::exact::lemma_one();
    let (v, w, o) = (x.value() as real, y.value() as real, crate::convert::one() as real);
    assert(v == w) by (nonlinear_arith)
        requires
            v / o == w / o,
            o > 0real,
    ;
}

} // verus!
