//! Where the orbit camera stands.
use crate::constants::lemma_constant;
use crate::constants::lemma_negative_constant;
use crate::exact::lemma_product_close;
use crate::exact::lemma_sum_close;
use crate::exact::number;
use crate::exact::size;
use crate::norm::minus;
use crate::optics::HALF_BITS;
use crate::picture::orbit_eye;
use crate::picture::orbit_target;
use crate::picture::Turn;
use crate::picture::NEG_HALF_BITS;
use crate::scalar::Scalar;
use crate::snell::lemma_small_product;
use crate::triple::finite;
use crate::triple::inner;
use crate::triple::lemma_eps;
use crate::triple::lemma_from_square;
use crate::triple::lemma_half_squares;
use crate::triple::lemma_one_number;
use crate::triple::triple;
use crate::triple::Triple;
use crate::vector::Vector;
use vstd::arithmetic::power2::lemma2_to64;
use vstd::prelude::*;

verus! {

/// The cosine and the sine of an angle, to within rounding.
pub open spec fn is_turn(t: Turn) -> bool {
    &&& t.cos.finite()
    &&& t.sin.finite()
    &&& size(number(t.cos) * number(t.cos) + number(t.sin) * number(t.sin) - 1real) <= 1real
        / 1000000real
}

proof fn lemma_turn_bounds(t: Turn)
    requires
        is_turn(t),
    ensures
        size(number(t.cos)) <= 1001real / 1000real,
        size(number(t.sin)) <= 1001real / 1000real,
{
    let (c, s) = (number(t.cos), number(t.sin));
    lemma_half_squares(c, s);
    lemma_from_square(c, 1001real / 1000real);
    lemma_from_square(s, 1001real / 1000real);
}

/// The target of the orbit.
pub proof fn lemma_orbit_target()
    ensures
        finite(orbit_target()),
        triple(orbit_target()) == (Triple { x: 1real / 2real, y: -1real / 2real, z: 0real }),
{
    lemma2_to64();
    lemma_one_number();
    lemma_constant(HALF_BITS, 125, 8388608, 16777216real);
    lemma_negative_constant(NEG_HALF_BITS, 125, 8388608, 16777216real);
}

/// A component of the eye: the target's, and a length times a factor.
proof fn lemma_offset(t: Scalar, p: Scalar, r: Scalar, exact: real)
    requires
        t.finite(),
        size(number(t)) <= 1real,
        r.finite(),
        1real / 1000real <= number(r) <= 1000000real,
        p.finite(),
        size(exact) <= (1003real / 1000real) * number(r),
        size(number(p) - exact) <= number(r) / 5000000real,
    ensures
        t.sum(p).finite(),
        size(number(t.sum(p)) - (number(t) + exact)) <= (number(r) + 1real) / 2000000real,
{
    let bound = 1real + (1004real / 1000real) * number(r);
    lemma_sum_close(t, p, bound);
    lemma_eps(bound);
}

/// A length times a cosine or a sine.
proof fn lemma_arm(r: Scalar, c: Scalar)
    requires
        r.finite(),
        c.finite(),
        1real / 1000real <= number(r) <= 1000000real,
        size(number(c)) <= 1001real / 1000real,
    ensures
        r.product(c).finite(),
        size(number(r) * number(c)) <= (1001real / 1000real) * number(r),
        size(number(r.product(c)) - number(r) * number(c)) <= number(r) / 16000000real,
{
    let (x, y) = (number(r), number(c));
    lemma_small_product(y, x, 1001real / 1000real, x);
    assert(y * x == x * y) by (nonlinear_arith);
    assert(x * (1001real / 1000real) == (1001real / 1000real) * x) by (nonlinear_arith);
    let bound = (1001real / 1000real) * x;
    lemma_product_close(r, c, bound);
    lemma_eps(bound);
}

/// A length times a cosine, and that times another.
proof fn lemma_two_arms(r: Scalar, c: Scalar, s: Scalar)
    requires
        r.finite(),
        c.finite(),
        s.finite(),
        1real / 1000real <= number(r) <= 1000000real,
        size(number(c)) <= 1001real / 1000real,
        size(number(s)) <= 1001real / 1000real,
    ensures
        r.product(c).product(s).finite(),
        size((number(r) * number(c)) * number(s)) <= (1003real / 1000real) * number(r),
        size(number(r.product(c).product(s)) - (number(r) * number(c)) * number(s)) <= number(r)
            / 5000000real,
{
    lemma_arm(r, c);
    let p = r.product(c);
    let (x, y, z) = (number(r), number(p), number(s));
    let a = number(r) * number(c);
    let f = y - a;
    lemma_small_product(f, z, x / 16000000real, 1001real / 1000real);
    lemma_small_product(a, z, (1001real / 1000real) * x, 1001real / 1000real);
    assert(y * z == a * z + f * z) by (nonlinear_arith)
        requires
            f == y - a,
    ;
    assert((1001real / 1000real) * ((1001real / 1000real) * x) <= (10021real / 10000real) * x)
        by (nonlinear_arith)
        requires
            x > 0real,
    ;
    assert((1001real / 1000real) * (x / 16000000real) <= x / 15900000real) by (nonlinear_arith)
        requires
            x > 0real,
    ;
    let bound = (1003real / 1000real) * x;
    lemma_product_close(p, s, bound);
    lemma_eps(bound);
}

/// A distance at which the orbit is taken.
pub open spec fn is_orbit_radius(radius: Scalar) -> bool {
    radius.finite() && 1real / 1000real <= number(radius) <= 1000000real
}

/// The eye is on the orbit: from the target, half right of the origin and half
/// below it, it is the radius times the sine of the pitch up, and on the ground
/// the radius times its cosine off, to the right by the sine of the yaw and in
/// front by its cosine.
pub open spec fn is_on_orbit(eye: Vector, yaw: Turn, pitch: Turn, radius: Scalar) -> bool {
    let target = Triple { x: 1real / 2real, y: -1real / 2real, z: 0real };
    let from = minus(triple(eye), target);
    let r = number(radius);
    let ground = r * number(pitch.cos);
    let e = (r + 1real) / 2000000real;
    &&& finite(eye)
    &&& size(from.y - r * number(pitch.sin)) <= e
    &&& size(from.x - ground * number(yaw.sin)) <= e
    &&& size(from.z - ground * number(yaw.cos)) <= e
}

/// The eye of the orbit: from the target it is out by the radius times the sine
/// of the pitch upward, and by the radius times its cosine in the plane of the
/// ground, of which the sine of the yaw goes to the right and its cosine to the
/// front. So it rises with the pitch, and turns with the yaw.
pub proof fn lemma_orbit_place(yaw: Turn, pitch: Turn, radius: Scalar)
    requires
        is_turn(yaw),
        is_turn(pitch),
        radius.finite(),
        1real / 1000real <= number(radius) <= 1000000real,
    ensures
        ({
            let eye = orbit_eye(yaw, pitch, radius);
            let from = minus(triple(eye), triple(orbit_target()));
            let r = number(radius);
            let ground = r * number(pitch.cos);
            let e = (r + 1real) / 2000000real;
            &&& finite(eye)
            &&& size(from.y - r * number(pitch.sin)) <= e
            &&& size(from.x - ground * number(yaw.sin)) <= e
            &&& size(from.z - ground * number(yaw.cos)) <= e
        }),
{
    lemma_orbit_target();
    lemma_turn_bounds(yaw);
    lemma_turn_bounds(pitch);
    let t = orbit_target();
    let r = number(radius);
    lemma_arm(radius, pitch.sin);
    lemma_two_arms(radius, pitch.cos, yaw.sin);
    lemma_two_arms(radius, pitch.cos, yaw.cos);
    lemma_offset(t.y, radius.product(pitch.sin), radius, r * number(pitch.sin));
    lemma_offset(
        t.x,
        radius.product(pitch.cos).product(yaw.sin),
        radius,
        (r * number(pitch.cos)) * number(yaw.sin),
    );
    lemma_offset(
        t.z,
        radius.product(pitch.cos).product(yaw.cos),
        radius,
        (r * number(pitch.cos)) * number(yaw.cos),
    );
}

/// The eye keeps its distance: whatever the turns, it stands at the radius from
/// the target, for radii of one and more.
pub proof fn lemma_orbit_distance(yaw: Turn, pitch: Turn, radius: Scalar)
    requires
        is_turn(yaw),
        is_turn(pitch),
        radius.finite(),
        1real <= number(radius) <= 1000000real,
    ensures
        ({
            let from = minus(triple(orbit_eye(yaw, pitch, radius)), triple(orbit_target()));
            let r = number(radius);
            size(inner(from, from) - r * r) <= (r * r) / 50000real
        }),
{
    lemma_orbit_place(yaw, pitch, radius);
    lemma_turn_bounds(yaw);
    lemma_turn_bounds(pitch);
    let from = minus(triple(orbit_eye(yaw, pitch, radius)), triple(orbit_target()));
    let r = number(radius);
    let (pc, ps, yc, ys) = (
        number(pitch.cos),
        number(pitch.sin),
        number(yaw.cos),
        number(yaw.sin),
    );
    let g = r * pc;
    let (x, y, z) = (g * ys, r * ps, g * yc);
    let e = r / 1000000real;
    lemma_arm(radius, pitch.sin);
    lemma_two_arms(radius, pitch.cos, yaw.sin);
    lemma_two_arms(radius, pitch.cos, yaw.cos);
    lemma_square_moved(from.x, x, e, r);
    lemma_square_moved(from.y, y, e, r);
    lemma_square_moved(from.z, z, e, r);
    // x^2 + z^2 = g^2 (ys^2 + yc^2), and g^2 + y^2 = r^2 (pc^2 + ps^2).
    let rr = r * r;
    let (u, v) = (yc * yc + ys * ys - 1real, pc * pc + ps * ps - 1real);
    assert(x * x + z * z == (g * g) * (yc * yc + ys * ys)) by {
        assert((g * ys) * (g * ys) == (g * g) * (ys * ys)) by (nonlinear_arith);
        assert((g * yc) * (g * yc) == (g * g) * (yc * yc)) by (nonlinear_arith);
        let (gg, a, b) = (g * g, yc * yc, ys * ys);
        assert(gg * (a + b) == gg * a + gg * b) by (nonlinear_arith);
    }
    assert(g * g + y * y == rr * (pc * pc + ps * ps)) by {
        assert((r * pc) * (r * pc) == (r * r) * (pc * pc)) by (nonlinear_arith);
        assert((r * ps) * (r * ps) == (r * r) * (ps * ps)) by (nonlinear_arith);
        let (a, b) = (pc * pc, ps * ps);
        assert(rr * (a + b) == rr * a + rr * b) by (nonlinear_arith);
    }
    let gg = g * g;
    assert(gg * (yc * yc + ys * ys) == gg + gg * u) by (nonlinear_arith)
        requires
            u == yc * yc + ys * ys - 1real,
    ;
    assert(rr * (pc * pc + ps * ps) == rr + rr * v) by (nonlinear_arith)
        requires
            v == pc * pc + ps * ps - 1real,
    ;
    lemma_small_product(pc, pc, 1001real / 1000real, 1001real / 1000real);
    assert(gg == rr * (pc * pc)) by (nonlinear_arith)
        requires
            gg == g * g,
            g == r * pc,
            rr == r * r,
    ;
    assert(rr > 0real) by (nonlinear_arith)
        requires
            rr == r * r,
            r >= 1real,
    ;
    let q = pc * pc;
    lemma_half_squares(pc, ps);
    assert(0real <= gg <= 2real * rr) by (nonlinear_arith)
        requires
            gg == rr * q,
            0real <= q <= 2real,
            rr > 0real,
    ;
    lemma_small_product(u, gg, 1real / 1000000real, gg);
    lemma_small_product(v, rr, 1real / 1000000real, rr);
    assert(u * gg == gg * u && v * rr == rr * v) by (nonlinear_arith);
    assert(e * r == rr / 1000000real) by (nonlinear_arith)
        requires
            e == r / 1000000real,
            rr == r * r,
    ;
}

/// The square of a number that has been moved a little.
proof fn lemma_square_moved(a: real, b: real, e: real, r: real)
    requires
        size(a - b) <= e,
        size(b) <= (1003real / 1000real) * r,
        0real <= e <= r / 1000real,
    ensures
        size(a * a - b * b) <= (21real / 10real) * (e * r),
{
    let f = a - b;
    assert(a * a - b * b == f * (2real * b + f)) by (nonlinear_arith)
        requires
            f == a - b,
    ;
    let h = 2real * b + f;
    lemma_small_product(f, h, e, (21real / 10real) * r);
    assert(((21real / 10real) * r) * e == (21real / 10real) * (e * r)) by (nonlinear_arith);
}

} // verus!
