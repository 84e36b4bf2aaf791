//! What a haze scatters toward the eye: how it depends on the angle, the
//! distance and the density.
use crate::constants::lemma_constant;
use crate::exact::close;
use crate::exact::eps;
use crate::exact::lemma_difference_close;
use crate::exact::lemma_product_close;
use crate::exact::lemma_quotient_close;
use crate::exact::lemma_sum_close;
use crate::exact::number;
use crate::exact::size;
use crate::geom::TWO_BITS;
use crate::lighttrace::pixel_at;
use crate::norm::lemma_inner_short;
use crate::norm::lemma_short_components;
use crate::norm::lemma_short_longer;
use crate::norm::lemma_short_sizes;
use crate::norm::lemma_short_smaller;
use crate::norm::lemma_short_sum;
use crate::norm::minus;
use crate::norm::scaled;
use crate::norm::short;
use crate::norm::sizes;
use crate::order::lemma_product_not_negative;
use crate::order::lemma_product_opposite;
use crate::projection::lemma_number_order;
use crate::relative::is_about;
use crate::relative::lemma_about_itself;
use crate::relative::lemma_about_product;
use crate::relative::lemma_about_quotient;
use crate::relative::lemma_about_wider;
use crate::scalar::Scalar;
use crate::scalar::ONE_BITS;
use crate::scene::NEAREST_BITS;
use crate::snell::lemma_inner_sum;
use crate::snell::lemma_inner_commutes;
use crate::snell::lemma_negated_number;
use crate::snell::lemma_number_sign;
use crate::snell::lemma_small_product;
use crate::snell::lemma_two_number;
use crate::supplied::result;
use crate::transmission::lemma_inner_scaled;
use crate::triple::combined;
use crate::triple::finite;
use crate::triple::inner;
use crate::triple::lemma_dot_close;
use crate::triple::lemma_eps;
use crate::triple::lemma_half_squares;
use crate::triple::lemma_one_number;
use crate::triple::lemma_reciprocal_length;
use crate::triple::triple;
use crate::triple::Triple;
use crate::vector::dot;
use crate::vector::length;
use crate::vector::vector_difference;
use crate::vector::Vector;
use crate::volume::connection;
use crate::volume::eye_distance;
use crate::volume::toward_eye;
use crate::volume::HazeView;
use crate::volume::phase;
use crate::volume::Medium;
use crate::volume::FOUR_PI_BITS;
use crate::volume::PHASE_FLOOR_BITS;
use vstd::arithmetic::power2::lemma2_to64;
use vstd::arithmetic::power2::lemma2_to64_rest;
use vstd::prelude::*;

verus! {

/// A component of the way to the eye, as it is rounded.
proof fn lemma_way_component(e: Scalar, p: Scalar)
    requires
        e.finite(),
        p.finite(),
        size(number(e) - number(p)) <= 100000real,
    ensures
        close(
            e.difference(p),
            number(e) - number(p),
            (size(number(e) - number(p)) + 1real / 1000000real) / 16700000real,
        ),
        size(
            number(e.difference(p)) * number(e.difference(p)) - (number(e) - number(p)) * (number(e)
                - number(p)),
        ) <= (4real * ((number(e) - number(p)) * (number(e) - number(p))) + 1real / 1000000real)
            / 16700000real,
{
    let v = number(e) - number(p);
    let bound = size(v) + 1real / 1000000real;
    lemma_difference_close(e, p, bound);
    lemma_eps(bound);
    let c = number(e.difference(p)) - v;
    let (vv, a) = (v * v, size(v));
    let t = number(e.difference(p));
    assert(t * t == vv + 2real * (v * c) + c * c) by (nonlinear_arith)
        requires
            c == t - v,
            vv == v * v,
    ;
    let l = bound / 16700000real;
    lemma_small_product(c, v, l, a);
    assert(c * v == v * c) by (nonlinear_arith);
    lemma_small_product(c, c, l, l);
    assert(a * a == vv) by (nonlinear_arith)
        requires
            a == v || a == -v,
            vv == v * v,
    ;
    assert(a * l == (vv + a / 1000000real) / 16700000real) by (nonlinear_arith)
        requires
            l == (a + 1real / 1000000real) / 16700000real,
            a * a == vv,
    ;
    assert(a <= vv + 1real / 4real) by (nonlinear_arith)
        requires
            a * a == vv,
    ;
    assert(l * l <= (vv + 1real / 1000000real) / 167000000real) by (nonlinear_arith)
        requires
            l == (a + 1real / 1000000real) / 16700000real,
            a * a == vv,
            a >= 0real,
    ;
    let vc = v * c;
    assert(vv >= 0real) by (nonlinear_arith)
        requires
            vv == v * v,
    ;
    assert(size(vc) <= (vv + (vv + 1real / 4real) / 1000000real) / 16700000real);
    assert(size(2real * vc + c * c) <= (4real * vv + 1real / 1000000real) / 16700000real);
}

/// A point and an eye that are neither near nor far from each other.
pub open spec fn is_apart(eye: Vector, p: Vector) -> bool {
    let v = minus(triple(eye), triple(p));
    finite(eye) && finite(p) && 1real / 10000real <= inner(v, v) <= 1000000real
}

/// The distance of a point from the eye, as it is computed.
proof fn lemma_distance(eye: Vector, p: Vector)
    requires
        is_apart(eye, p),
    ensures
        ({
            let v = minus(triple(eye), triple(p));
            let d = eye_distance(eye, p);
            let to = triple(vector_difference(eye, p));
            &&& d.finite()
            &&& 99real / 10000real <= number(d) <= 1001real
            &&& size(number(d) * number(d) - inner(v, v)) <= inner(v, v) / 1000000real
            &&& finite(vector_difference(eye, p))
            &&& short(minus(to, v), number(d) / 15000000real)
            &&& short(to, (10001real / 10000real) * number(d))
            &&& short(v, (10001real / 10000real) * number(d))
        }),
{
    let (e, q) = (triple(eye), triple(p));
    let v = minus(e, q);
    let vv = inner(v, v);
    lemma_half_squares(v.x, v.y);
    lemma_half_squares(v.z, v.y);
    assert(short(v, 10000real));
    lemma_short_components(v, 10000real);
    lemma_way_component(eye.x, p.x);
    lemma_way_component(eye.y, p.y);
    lemma_way_component(eye.z, p.z);
    let way = vector_difference(eye, p);
    let to = triple(way);
    let tt = inner(to, to);
    assert(size(tt - vv) <= (4real * vv + 3real / 1000000real) / 16700000real);
    let k = lemma_reciprocal_length(way);
    let d = number(length(way));
    let dd = d * d;
    assert(eps() * tt == tt / 16700000real) by (nonlinear_arith)
        requires
            eps() == 1real / 16700000real,
    ;
    assert(size(dd - vv) <= vv / 1000000real);
    assert(d >= 99real / 10000real) by (nonlinear_arith)
        requires
            d * d >= 9999real / 100000000real,
            d > 0real,
    ;
    assert(d <= 1001real) by (nonlinear_arith)
        requires
            d * d <= 1001000real,
            d > 0real,
    ;
    // The floor of the distance does not matter here.
    lemma2_to64();
    lemma2_to64_rest();
    lemma_constant(NEAREST_BITS, 116, 8589935, 8589934592real);
    lemma_number_order(Scalar { bits: NEAREST_BITS }, length(way));
    let r = (10001real / 10000real) * d;
    assert(r * r >= dd + dd / 10000real) by (nonlinear_arith)
        requires
            r == (10001real / 10000real) * d,
            dd == d * d,
    ;
    assert(short(to, r));
    assert(short(v, r));
    lemma_short_sizes(v, r);
    let z = (1real / 1000000real) / 16700000real;
    let even = Triple { x: z, y: z, z: z };
    assert(z * z + z * z + z * z <= (2real * z) * (2real * z)) by (nonlinear_arith);
    let h = 1real / 16700000real;
    lemma_short_sum(even, h, sizes(v), 2real * z, r);
    let c = minus(to, v);
    assert(size(h) * r == r / 16700000real) by (nonlinear_arith)
        requires
            size(h) == 1real / 16700000real,
    ;
    lemma_short_smaller(c, combined(even, h, sizes(v)), 2real * z + size(h) * r);
    lemma_short_longer(c, 2real * z + size(h) * r, d / 15000000real);
}

/// A component of the direction to the eye, times the distance.
proof fn lemma_toward_component(t: Scalar, d: Scalar)
    requires
        t.finite(),
        d.finite(),
        99real / 10000real <= number(d) <= 10001real,
        size(number(t)) <= (10001real / 10000real) * number(d),
    ensures
        t.quotient(d).finite(),
        size(number(d) * number(t.quotient(d)) - number(t)) <= (size(number(t)) + number(d)
            / 1000real) / 16700000real,
        size(number(t.quotient(d))) <= 1001real / 1000real,
{
    let (a, b) = (number(t), number(d));
    let q = a / b;
    assert(q * b == a) by (nonlinear_arith)
        requires
            q == a / b,
            b > 0real,
    ;
    let s = size(q);
    assert(s * b == size(a)) by (nonlinear_arith)
        requires
            q * b == a,
            s == q && q >= 0real || s == -q && q < 0real,
            b > 0real,
    ;
    assert(s <= 10001real / 10000real) by (nonlinear_arith)
        requires
            s * b <= (10001real / 10000real) * b,
            b > 0real,
    ;
    let bound = s + 1real / 1000real;
    lemma_quotient_close(t, d, bound);
    lemma_eps(bound);
    let f = number(t.quotient(d)) - q;
    lemma_small_product(f, b, bound / 16700000real, b);
    assert(b * (q + f) == a + f * b) by (nonlinear_arith)
        requires
            q * b == a,
    ;
    assert(b * (bound / 16700000real) == (s * b + b / 1000real) / 16700000real) by (nonlinear_arith)
        requires
            bound == s + 1real / 1000real,
    ;
}

/// The direction toward the eye, times the distance, is the way to the eye.
proof fn lemma_toward(eye: Vector, p: Vector)
    requires
        is_apart(eye, p),
    ensures
        ({
            let v = minus(triple(eye), triple(p));
            let d = number(eye_distance(eye, p));
            let u = toward_eye(eye, p);
            &&& finite(u)
            &&& short(minus(scaled(d, triple(u)), v), d / 5000000real)
            &&& short(triple(u), 18real / 10real)
        }),
{
    lemma_distance(eye, p);
    let v = minus(triple(eye), triple(p));
    let way = vector_difference(eye, p);
    let to = triple(way);
    let dist = eye_distance(eye, p);
    let d = number(dist);
    let u = toward_eye(eye, p);
    lemma_short_components(to, (10001real / 10000real) * d);
    lemma_toward_component(way.x, dist);
    lemma_toward_component(way.y, dist);
    lemma_toward_component(way.z, dist);
    let ut = triple(u);
    crate::projection::lemma_even_short(ut, 1001real / 1000real);
    lemma_short_longer(ut, (174real / 100real) * (1001real / 1000real), 18real / 10real);
    let du = scaled(d, ut);
    let c = minus(du, to);
    lemma_short_sizes(to, (10001real / 10000real) * d);
    let z = (d / 1000real) / 16700000real;
    let even = Triple { x: z, y: z, z: z };
    assert(z * z + z * z + z * z <= (2real * z) * (2real * z)) by (nonlinear_arith);
    let h = 1real / 16700000real;
    let r = (10001real / 10000real) * d;
    lemma_short_sum(even, h, sizes(to), 2real * z, r);
    assert(size(h) * r == r / 16700000real) by (nonlinear_arith)
        requires
            size(h) == 1real / 16700000real,
    ;
    lemma_short_smaller(c, combined(even, h, sizes(to)), 2real * z + size(h) * r);
    let e1 = 2real * z + size(h) * r;
    let g = minus(to, v);
    lemma_short_sum(c, 1real, g, e1, d / 15000000real);
    assert(combined(c, 1real, g) == minus(du, v)) by {
        assert(1real * g.x == g.x && 1real * g.y == g.y && 1real * g.z == g.z);
    }
    assert(size(1real) * (d / 15000000real) == d / 15000000real) by (nonlinear_arith)
        requires
            size(1real) == 1real,
    ;
    lemma_short_longer(
        minus(du, v),
        e1 + size(1real) * (d / 15000000real),
        d / 5000000real,
    );
}

/// The cosine of the scattering angle is that between the photon's direction and
/// the direction from the point to the eye.
pub proof fn lemma_scattering_angle(eye: Vector, p: Vector, dir: Vector)
    requires
        is_apart(eye, p),
        finite(dir),
        short(triple(dir), 10001real / 10000real),
    ensures
        ({
            let v = minus(triple(eye), triple(p));
            let d = number(eye_distance(eye, p));
            let c = dot(dir, toward_eye(eye, p));
            &&& c.finite()
            &&& size(number(c) * d - inner(triple(dir), v)) <= d / 500000real
            &&& size(number(c)) <= 1001real / 1000real
        }),
{
    assert(eps() == 1real / 16700000real);
    lemma_distance(eye, p);
    lemma_toward(eye, p);
    let v = minus(triple(eye), triple(p));
    let d = number(eye_distance(eye, p));
    let u = toward_eye(eye, p);
    let (a, ut) = (triple(dir), triple(u));
    assert(inner(ut, ut) <= 324real / 100real);
    lemma_dot_close(dir, u, 325real / 100real);
    lemma_eps((31real / 10real) * (325real / 100real));
    let c = number(dot(dir, u));
    let du = scaled(d, ut);
    let g = minus(du, v);
    lemma_inner_scaled(d, ut, a);
    lemma_inner_commutes(ut, a);
    lemma_inner_sum(du, v, g, a);
    lemma_inner_commutes(v, a);
    lemma_inner_short(g, a, d / 5000000real, 10001real / 10000real);
    let f = c - inner(a, ut);
    lemma_small_product(f, d, 1real / 1600000real, d);
    assert(c * d == d * inner(a, ut) + f * d) by (nonlinear_arith)
        requires
            f == c - inner(a, ut),
    ;
    assert(d * (1real / 1600000real) == d / 1600000real) by (nonlinear_arith);
    assert((d / 5000000real) * (10001real / 10000real) <= d / 4900000real) by (nonlinear_arith)
        requires
            d > 0real,
    ;
    // The cosine is at most one, but for rounding.
    lemma_inner_short(a, v, 10001real / 10000real, (10001real / 10000real) * d);
    assert((10001real / 10000real) * ((10001real / 10000real) * d) <= (10003real / 10000real) * d)
        by (nonlinear_arith)
        requires
            d > 0real,
    ;
    let z = size(c);
    assert(z * d == size(c * d)) by (nonlinear_arith)
        requires
            z == c && c >= 0real || z == -c && c < 0real,
            d > 0real,
    ;
    assert(z <= 1001real / 1000real) by (nonlinear_arith)
        requires
            z * d <= (1001real / 1000real) * d,
            d > 0real,
    ;
}

/// What the supplied functions give for the numbers that a haze hands to them.
pub open spec fn are_sane<P: Fn(Scalar) -> Scalar, E: Fn(Scalar) -> Scalar>(
    power: P,
    exp: E,
) -> bool {
    &&& forall|b: Scalar|
        b.finite() && 1real / 400real <= number(b) <= 4real ==> (#[trigger] result(
            power,
            b,
        )).finite() && 1real / 10000real <= number(result(power, b)) <= 10real
    &&& forall|y: Scalar|
        y.finite() && -(41real / 2real) <= number(y) <= 0real ==> (#[trigger] result(
            exp,
            y,
        )).finite() && 1real / 1000000000real <= number(result(exp, y)) <= 1real
}

/// A haze and a photon in ordinary ranges: the anisotropy is at most 0.9 either
/// way, and the way to the eye at most twenty mean free paths long.
pub open spec fn is_ordinary_haze(medium: Medium, photon_power: Scalar, d: real) -> bool {
    &&& medium.sigma_s.finite() && medium.sigma_t.finite() && medium.g.finite()
    &&& photon_power.finite()
    &&& 1real / 10000real <= number(medium.sigma_s) <= 10000real
    &&& 1real / 10000real <= number(photon_power) <= 10000real
    &&& size(number(medium.g)) <= 9real / 10real
    &&& 0real <= number(medium.sigma_t)
    &&& number(medium.sigma_t) * d <= 20real
}

/// The number handed to the power of the phase function.
proof fn lemma_base(g: Scalar, c: Scalar)
    requires
        g.finite(),
        c.finite(),
        size(number(g)) <= 9real / 10real,
        size(number(c)) <= 1001real / 1000real,
    ensures
        ({
            let one = Scalar { bits: ONE_BITS };
            let b = one.sum(g.product(g)).difference(
                (Scalar { bits: TWO_BITS }).product(g).product(c),
            );
            let exact = 1real + number(g) * number(g) - 2real * (number(g) * number(c));
            &&& close(b, exact, 1real / 1000000real)
            &&& b.larger(Scalar { bits: PHASE_FLOOR_BITS }) == b
            &&& 8real / 1000real <= exact <= 37real / 10real
            &&& one.difference(g.product(g)).finite()
            &&& size(
                number(one.difference(g.product(g))) - (1real - number(g) * number(g)),
            ) <= 1real / 8000000real
            &&& 19real / 100real <= 1real - number(g) * number(g) <= 1real
        }),
{
    assert(eps() == 1real / 16700000real);
    lemma_one_number();
    lemma_two_number();
    let one = Scalar { bits: ONE_BITS };
    let two = Scalar { bits: TWO_BITS };
    let (x, y) = (number(g), number(c));
    let xx = x * x;
    lemma_small_product(x, x, 9real / 10real, 9real / 10real);
    lemma_half_squares(x, y);
    lemma_product_close(g, g, 1real);
    lemma_eps(1real);
    let g2 = g.product(g);
    lemma_difference_close(one, g2, 1001real / 1000real);
    lemma_eps(1001real / 1000real);
    lemma_sum_close(one, g2, 2real);
    lemma_eps(2real);
    assert(number(two) * x == 2real * x) by (nonlinear_arith)
        requires
            number(two) == 2real,
    ;
    lemma_product_close(two, g, 2real);
    let tg = two.product(g);
    let f = number(tg) - 2real * x;
    let xy = x * y;
    lemma_small_product(x, y, 9real / 10real, 1001real / 1000real);
    lemma_small_product(f, y, 2real / 16700000real, 1001real / 1000real);
    assert(number(tg) * y == 2real * xy + f * y) by (nonlinear_arith)
        requires
            f == number(tg) - 2real * x,
            xy == x * y,
    ;
    lemma_product_close(tg, c, 2real);
    lemma_difference_close(one.sum(g2), tg.product(c), 4real);
    lemma_eps(4real);
    let b = one.sum(g2).difference(tg.product(c));
    let exact = 1real + xx - 2real * xy;
    // 1 + x^2 - 2 x y is at least (1 - |x|)^2 less a little.
    let a = size(x);
    assert(a * a == xx) by (nonlinear_arith)
        requires
            a == x || a == -x,
            xx == x * x,
    ;
    lemma_small_product(y, x, 1001real / 1000real, a);
    assert(y * x == x * y) by (nonlinear_arith);
    assert(1real + a * a - 2real * (a * (1001real / 1000real)) >= 8real / 1000real)
        by (nonlinear_arith)
        requires
            0real <= a <= 9real / 10real,
    ;
    lemma2_to64();
    lemma2_to64_rest();
    lemma_constant(PHASE_FLOOR_BITS, 106, 8796093, 8796093022208real);
    lemma_number_order(Scalar { bits: PHASE_FLOOR_BITS }, b);
}

/// Four times pi, to seven digits.
pub open spec fn four_pi() -> real {
    12566371real / 1000000real
}

proof fn lemma_four_pi()
    ensures
        is_about(Scalar { bits: FOUR_PI_BITS }, four_pi(), 1real / 10000000real),
{
    lemma2_to64();
    lemma_constant(FOUR_PI_BITS, 129, 13176795, 1048576real);
}

/// The phase function at a cosine is that of Henyey and Greenstein: one less the
/// squared anisotropy, over four pi times the power of a number about
/// `1 + g^2 - 2 g c`.
pub open spec fn is_phase<P: Fn(Scalar) -> Scalar>(
    g: Scalar,
    c: Scalar,
    power: P,
    b: Scalar,
) -> bool {
    let x = number(g);
    let q = (1real - x * x) / (four_pi() * number(result(power, b)));
    &&& close(b, 1real + x * x - 2real * (x * number(c)), 1real / 1000000real)
    &&& 1real / 400real <= number(b) <= 4real
    &&& is_about(phase(g, c, power), q, 1real / 250000real)
    &&& 1real / 1000real <= q <= 1000real
}

/// The phase function, as it is computed. The number handed to the power is the
/// same for the same cosine.
pub proof fn lemma_phase<P: Fn(Scalar) -> Scalar>(g: Scalar, c: Scalar, power: P) -> (b: Scalar)
    requires
        g.finite(),
        c.finite(),
        size(number(g)) <= 9real / 10real,
        size(number(c)) <= 1001real / 1000real,
        forall|b: Scalar|
            b.finite() && 1real / 400real <= number(b) <= 4real ==> (#[trigger] result(
                power,
                b,
            )).finite() && 1real / 10000real <= number(result(power, b)) <= 10real,
    ensures
        is_phase(g, c, power, b),
{
    lemma_base(g, c);
    lemma_four_pi();
    let one = Scalar { bits: ONE_BITS };
    let b = one.sum(g.product(g)).difference((Scalar { bits: TWO_BITS }).product(g).product(c));
    let w = result(power, b);
    let four = Scalar { bits: FOUR_PI_BITS };
    lemma_about_itself(w);
    let fw = four_pi() * number(w);
    let wn = number(w);
    let fp = four_pi();
    assert(1real / 1000real <= fw <= 126real) by (nonlinear_arith)
        requires
            fw == fp * wn,
            fp == 12566371real / 1000000real,
            1real / 10000real <= wn <= 10real,
    ;
    lemma_about_product(four, w, four_pi(), number(w), 1real / 10000000real, 0real);
    let x = number(g);
    let top = one.difference(g.product(g));
    let r = 1real - x * x;
    assert(is_about(top, r, 1real / 1000000real)) by {
        assert((1real / 1000000real) * r == r / 1000000real) by (nonlinear_arith);
    }
    let q = r / fw;
    assert(q * fw == r) by (nonlinear_arith)
        requires
            q == r / fw,
            fw > 0real,
    ;
    assert(q <= 1000real) by (nonlinear_arith)
        requires
            q * fw == r,
            r <= 1real,
            fw >= 1real / 1000real,
    ;
    assert(q >= 1real / 1000real) by (nonlinear_arith)
        requires
            q * fw == r,
            r >= 19real / 100real,
            0real < fw <= 126real,
    ;
    let t = 1real / 10000000real + 0real + 1real / 1000000real;
    lemma_about_quotient(top, four.product(w), r, fw, 1real / 1000000real, t);
    lemma_about_wider(
        phase(g, c, power),
        q,
        1real / 1000000real + t + 1real / 1000000real,
        1real / 250000real,
    );
    b
}

/// The light that a photon sends to the eye for each unit of its way, where the
/// supplied functions give `w` and `t`: the photon's power, the scattering
/// coefficient, the phase, the transmittance, and the inverse square of the
/// distance.
pub open spec fn ideal_inscatter(p: real, s: real, g: real, w: real, t: real, d: real) -> real {
    (((p * s) * ((1real - g * g) / (four_pi() * w))) * t) / (d * d)
}

/// The product of two numbers in ranges.
proof fn lemma_range(a: real, b: real, a0: real, a1: real, b0: real, b1: real)
    requires
        0real <= a0 <= a <= a1,
        0real <= b0 <= b <= b1,
    ensures
        a0 * b0 <= a * b <= a1 * b1,
{
    assert(a0 * b0 <= a * b0) by (nonlinear_arith)
        requires
            a0 <= a,
            b0 >= 0real,
    ;
    assert(a * b0 <= a * b) by (nonlinear_arith)
        requires
            b0 <= b,
            a >= 0real,
    ;
    assert(a * b <= a1 * b) by (nonlinear_arith)
        requires
            a <= a1,
            b >= 0real,
    ;
    assert(a1 * b <= a1 * b1) by (nonlinear_arith)
        requires
            b <= b1,
            a1 >= 0real,
    ;
}

/// The product of all factors.
proof fn lemma_factors(
    p: Scalar,
    s: Scalar,
    ph: Scalar,
    tr: Scalar,
    d: Scalar,
    q: real,
)
    requires
        p.finite() && s.finite() && tr.finite() && d.finite(),
        1real / 10000real <= number(p) <= 10000real,
        1real / 10000real <= number(s) <= 10000real,
        1real / 1000real <= q <= 1000real,
        is_about(ph, q, 1real / 250000real),
        1real / 1000000000real <= number(tr) <= 1real,
        99real / 10000real <= number(d) <= 1001real,
    ensures
        is_about(
            p.product(s).product(ph).product(tr).quotient(d.product(d)),
            (((number(p) * number(s)) * q) * number(tr)) / (number(d) * number(d)),
            1real / 100000real,
        ),
{
    let (a, b, t, z) = (number(p), number(s), number(tr), number(d));
    lemma_about_itself(p);
    lemma_about_itself(s);
    lemma_about_itself(tr);
    lemma_about_itself(d);
    let m = 1real / 1000000real;
    let ab = a * b;
    lemma_range(a, b, 1real / 10000real, 10000real, 1real / 10000real, 10000real);
    lemma_about_product(p, s, a, b, 0real, 0real);
    let e1 = 0real + 0real + m;
    let abq = ab * q;
    lemma_range(ab, q, 1real / 100000000real, 100000000real, 1real / 1000real, 1000real);
    lemma_about_product(p.product(s), ph, ab, q, e1, 1real / 250000real);
    let e2 = e1 + 1real / 250000real + m;
    let abqt = abq * t;
    lemma_range(abq, t, 1real / 100000000000real, 100000000000real, 1real / 1000000000real, 1real);
    lemma_about_product(p.product(s).product(ph), tr, abq, t, e2, 0real);
    let e3 = e2 + 0real + m;
    let zz = z * z;
    lemma_range(z, z, 99real / 10000real, 1001real, 99real / 10000real, 1001real);
    lemma_about_product(d, d, z, z, 0real, 0real);
    let x = abqt / zz;
    assert(x * zz == abqt) by (nonlinear_arith)
        requires
            x == abqt / zz,
            zz > 0real,
    ;
    assert(x >= 1real / 1000000000000000000000000000real) by (nonlinear_arith)
        requires
            x * zz == abqt,
            abqt >= 1real / 100000000000000000000real,
            0real < zz <= 1002001real,
    ;
    assert(x <= 1000000000000000000real) by (nonlinear_arith)
        requires
            x * zz == abqt,
            abqt <= 100000000000real,
            zz >= 9801real / 100000000real,
    ;
    lemma_about_quotient(
        p.product(s).product(ph).product(tr),
        d.product(d),
        abqt,
        zz,
        e3,
        e1,
    );
    lemma_about_wider(
        p.product(s).product(ph).product(tr).quotient(d.product(d)),
        x,
        e3 + e1 + m,
        1real / 100000real,
    );
}

/// The number handed to the exponential: the way to the eye in mean free paths,
/// with a negative sign.
proof fn lemma_depth_number(sigma: Scalar, d: Scalar)
    requires
        sigma.finite() && d.finite(),
        0real <= number(sigma),
        99real / 10000real <= number(d) <= 1001real,
        number(sigma) * number(d) <= 20real,
    ensures
        close(
            sigma.negated().product(d),
            -(number(sigma) * number(d)),
            1real / 500000real,
        ),
        -(41real / 2real) <= number(sigma.negated().product(d)) <= 0real,
{
    lemma_negated_number(sigma);
    let (a, b) = (number(sigma), number(d));
    let m = sigma.negated();
    assert(number(m) * b == -(a * b) && a * b >= 0real && b * a == a * b) by (nonlinear_arith)
        requires
            number(m) == -a,
            a >= 0real,
            b > 0real,
    ;
    lemma_product_close(m, d, 20real);
    lemma_eps(20real);
    // A product of a number that is not positive and one that is.
    lemma_number_sign(m);
    lemma_number_sign(d);
    lemma_number_sign(m.product(d));
    lemma_times_commutes(d, m);
    lemma_product_close(d, sigma, 20real);
    lemma_product_opposite(d, sigma);
    lemma_number_sign(sigma);
    lemma_product_not_negative(d, sigma);
}

pub proof fn lemma_times_commutes(x: Scalar, y: Scalar)
    ensures
        x.product(y) == y.product(x),
{
    reveal(Scalar::product);
    assert(x.size() * y.size() == y.size() * x.size()) by (nonlinear_arith);
}

/// What a photon scatters toward the eye, exactly: there are numbers `b` and `y`
/// that the supplied functions are asked for, `b` about `1 + g^2 - 2 g c` where
/// `c` is the cosine between the photon's direction and the direction from the
/// point to the eye, and `y` about the way to the eye in mean free paths,
/// negative; and the light is the product of the photon's power, the scattering
/// coefficient, the phase and the transmittance, over the squared distance.
pub proof fn lemma_inscatter<P: Fn(Scalar) -> Scalar, E: Fn(Scalar) -> Scalar>(
    medium: Medium,
    eye: Vector,
    dir: Vector,
    p: Vector,
    photon_power: Scalar,
    power: P,
    exp: E,
) -> (by: (Scalar, Scalar))
    requires
        is_apart(eye, p),
        finite(dir),
        short(triple(dir), 10001real / 10000real),
        are_sane(power, exp),
        is_ordinary_haze(medium, photon_power, number(eye_distance(eye, p))),
    ensures
        ({
            let v = minus(triple(eye), triple(p));
            let d = number(eye_distance(eye, p));
            let g = number(medium.g);
            let c = inner(triple(dir), v) / d;
            let (b, y) = by;
            &&& size(d * d - inner(v, v)) <= inner(v, v) / 1000000real
            &&& close(b, 1real + g * g - 2real * (g * c), 1real / 100000real)
            &&& close(y, -(number(medium.sigma_t) * d), 1real / 500000real)
            &&& is_about(
                connection(medium, eye, dir, p, photon_power, power, exp),
                ideal_inscatter(
                    number(photon_power),
                    number(medium.sigma_s),
                    g,
                    number(result(power, b)),
                    number(result(exp, y)),
                    d,
                ),
                1real / 100000real,
            )
            &&& y == medium.sigma_t.negated().product(eye_distance(eye, p))
            &&& 1real / 400real <= number(b) <= 4real
        }),
{
    lemma_distance(eye, p);
    lemma_scattering_angle(eye, p, dir);
    let dist = eye_distance(eye, p);
    let d = number(dist);
    let v = minus(triple(eye), triple(p));
    let cs = dot(dir, toward_eye(eye, p));
    let (x, g) = (number(cs), number(medium.g));
    let b = lemma_phase(medium.g, cs, power);
    lemma_depth_number(medium.sigma_t, dist);
    let y = medium.sigma_t.negated().product(dist);
    let q = (1real - g * g) / (four_pi() * number(result(power, b)));
    lemma_factors(
        photon_power,
        medium.sigma_s,
        phase(medium.g, cs, power),
        result(exp, y),
        dist,
        q,
    );
    // The cosine that is computed is the exact one, but for rounding.
    let n = inner(triple(dir), v);
    let c = n / d;
    assert(c * d == n) by (nonlinear_arith)
        requires
            c == n / d,
            d > 0real,
    ;
    let f = x - c;
    assert(f * d == x * d - n) by (nonlinear_arith)
        requires
            f == x - c,
            c * d == n,
    ;
    assert(f <= 1real / 500000real && -f <= 1real / 500000real) by (nonlinear_arith)
        requires
            f * d <= d / 500000real,
            -(f * d) <= d / 500000real,
            d > 0real,
    ;
    lemma_small_product(f, g, 1real / 500000real, 9real / 10real);
    assert(g * x == g * c + f * g) by (nonlinear_arith)
        requires
            f == x - c,
    ;
    (b, y)
}

/// A supplied power that grows: a number larger by a twentieth has a power
/// larger by a hundredth part.
pub open spec fn grows<P: Fn(Scalar) -> Scalar>(power: P) -> bool {
    forall|x: Scalar, y: Scalar|
        x.finite() && y.finite() && 1real / 400real <= number(x) && number(x) + 1real / 20real
            <= number(y) <= 4real ==> (101real / 100real) * number(#[trigger] result(power, x))
            <= number(#[trigger] result(power, y))
}

/// Forward scattering: in a haze of positive anisotropy, a photon that heads
/// toward the eye sends it more light than one that heads away, from the same
/// point.
pub proof fn lemma_forward_brighter<P: Fn(Scalar) -> Scalar, E: Fn(Scalar) -> Scalar>(
    medium: Medium,
    eye: Vector,
    toward: Vector,
    away: Vector,
    p: Vector,
    photon_power: Scalar,
    power: P,
    exp: E,
)
    requires
        is_apart(eye, p),
        finite(toward) && finite(away),
        short(triple(toward), 10001real / 10000real),
        short(triple(away), 10001real / 10000real),
        are_sane(power, exp),
        grows(power),
        is_ordinary_haze(medium, photon_power, number(eye_distance(eye, p))),
        ({
            let v = minus(triple(eye), triple(p));
            let d = number(eye_distance(eye, p));
            number(medium.g) * (inner(triple(toward), v) / d) >= number(medium.g) * (inner(
                triple(away),
                v,
            ) / d) + 1real / 30real
        }),
    ensures
        number(connection(medium, eye, toward, p, photon_power, power, exp)) > number(
            connection(medium, eye, away, p, photon_power, power, exp),
        ),
{
    let (b1, y1) = lemma_inscatter(medium, eye, toward, p, photon_power, power, exp);
    let (b2, y2) = lemma_inscatter(medium, eye, away, p, photon_power, power, exp);
    lemma_distance(eye, p);
    lemma_depth_number(medium.sigma_t, eye_distance(eye, p));
    let (a, s, g) = (number(photon_power), number(medium.sigma_s), number(medium.g));
    let d = number(eye_distance(eye, p));
    let t = number(result(exp, y1));
    let (w1, w2) = (number(result(power, b1)), number(result(power, b2)));
    assert((101real / 100real) * w1 <= w2);
    let gg = g * g;
    lemma_small_product(g, g, 9real / 10real, 9real / 10real);
    lemma_inverse_in_power(a, s, 1real - gg, w1, w2, t, d);
    let (x1, x2) = (ideal_inscatter(a, s, g, w1, t, d), ideal_inscatter(a, s, g, w2, t, d));
    assert((1real / 100000real) * x1 == x1 / 100000real && (1real / 100000real) * x2 == x2
        / 100000real) by (nonlinear_arith);
}

/// The light falls as the power grows.
proof fn lemma_inverse_in_power(a: real, s: real, r: real, w1: real, w2: real, t: real, d: real)
    requires
        a > 0real && s > 0real && t > 0real && d > 0real && w1 > 0real,
        r > 0real,
        (101real / 100real) * w1 <= w2,
    ensures
        ({
            let x1 = (((a * s) * (r / (four_pi() * w1))) * t) / (d * d);
            let x2 = (((a * s) * (r / (four_pi() * w2))) * t) / (d * d);
            x1 >= (101real / 100real) * x2 && x2 > 0real
        }),
{
    let f = four_pi();
    let (u1, u2) = (f * w1, f * w2);
    assert(u1 > 0real && (101real / 100real) * u1 <= u2) by (nonlinear_arith)
        requires
            u1 == f * w1,
            u2 == f * w2,
            f == 12566371real / 1000000real,
            w1 > 0real,
            (101real / 100real) * w1 <= w2,
    ;
    let (q1, q2) = (r / u1, r / u2);
    assert(q1 * u1 == r && q2 * u2 == r && q2 > 0real) by (nonlinear_arith)
        requires
            q1 == r / u1,
            q2 == r / u2,
            u1 > 0real,
            u2 > 0real,
            r > 0real,
    ;
    let k = (101real / 100real) * q2;
    assert(k * u1 <= r) by (nonlinear_arith)
        requires
            k == (101real / 100real) * q2,
            q2 * u2 == r,
            (101real / 100real) * u1 <= u2,
            q2 > 0real,
    ;
    assert(q1 >= k) by (nonlinear_arith)
        requires
            q1 * u1 == r,
            k * u1 <= r,
            u1 > 0real,
    ;
    let m = a * s;
    assert(m > 0real) by (nonlinear_arith)
        requires
            m == a * s,
            a > 0real,
            s > 0real,
    ;
    let (m1, m2) = (m * q1, m * q2);
    assert(m1 >= (101real / 100real) * m2 && m2 > 0real) by (nonlinear_arith)
        requires
            m1 == m * q1,
            m2 == m * q2,
            q1 >= (101real / 100real) * q2,
            q2 > 0real,
            m > 0real,
    ;
    let (n1, n2) = (m1 * t, m2 * t);
    assert(n1 >= (101real / 100real) * n2 && n2 > 0real) by (nonlinear_arith)
        requires
            n1 == m1 * t,
            n2 == m2 * t,
            m1 >= (101real / 100real) * m2,
            m2 > 0real,
            t > 0real,
    ;
    let dd = d * d;
    assert(dd > 0real) by (nonlinear_arith)
        requires
            dd == d * d,
            d > 0real,
    ;
    let (x1, x2) = (n1 / dd, n2 / dd);
    assert(x1 * dd == n1 && x2 * dd == n2) by (nonlinear_arith)
        requires
            x1 == n1 / dd,
            x2 == n2 / dd,
            dd > 0real,
    ;
    assert(x2 > 0real) by (nonlinear_arith)
        requires
            x2 * dd == n2,
            n2 > 0real,
            dd > 0real,
    ;
    let z = x1 - (101real / 100real) * x2;
    assert(z >= 0real) by (nonlinear_arith)
        requires
            z == x1 - (101real / 100real) * x2,
            x1 * dd == n1,
            x2 * dd == n2,
            n1 >= (101real / 100real) * n2,
            dd > 0real,
    ;
}

/// A point of a haze shows where it is in the frame and nothing solid is nearer:
/// its distance from the eye is below that of the nearest solid at its pixel, to
/// within a hundred-thousandth of the squares.
pub proof fn lemma_shown_before_solids<P: Fn(Scalar) -> Scalar, E: Fn(Scalar) -> Scalar>(
    view: HazeView<P, E>,
    p: Vector,
)
    requires
        is_apart(view.view.origin, p),
    ensures
        ({
            let v = minus(triple(view.view.origin), triple(p));
            let far = inner(v, v);
            match view.view.projected(p) {
                None => view.shown(p) is None,
                Some((s, t, _)) => {
                    let z = view.zbuffer[pixel_at(s, t, view.width, view.height)];
                    let solid = number(z) * number(z);
                    &&& view.shown(p) is None || view.shown(p) == Some((s, t))
                    &&& z.finite() && number(z) >= 0real ==> {
                        &&& view.shown(p) is Some ==> far <= solid + far / 100000real
                        &&& view.shown(p) is None ==> far >= solid - far / 100000real
                    }
                },
            }
        }),
{
    let eye = view.view.origin;
    lemma_distance(eye, p);
    if let Some((s, t, _)) = view.view.projected(p) {
        let z = view.zbuffer[pixel_at(s, t, view.width, view.height)];
        let d = eye_distance(eye, p);
        if z.finite() && number(z) >= 0real {
            let (x, y) = (number(d), number(z));
            if d.below(z) {
                if y < x {
                    lemma_number_order(z, d);
                }
                assert(x * x <= y * y) by (nonlinear_arith)
                    requires
                        0real <= x <= y,
                ;
            } else {
                if x < y {
                    lemma_number_order(d, z);
                }
                assert(x * x >= y * y) by (nonlinear_arith)
                    requires
                        0real <= y <= x,
                ;
            }
        }
    }
}

} // verus!
