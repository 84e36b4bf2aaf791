//! How a beam is marched: steps of half a pixel at most, and a footprint as wide
//! as the beam looks.
use crate::arith::integral;
use crate::brush::lemma_ceiling_above;
use crate::brush::lemma_square_sign;
use crate::brush::lemma_squares_sum;
use crate::comb::lemma_frame_number;
use crate::constants::lemma_constant;
use crate::exact::eps;
use crate::exact::lemma_difference_close;
use crate::exact::lemma_product_close;
use crate::exact::lemma_root_close;
use crate::exact::lemma_sum_close;
use crate::exact::number;
use crate::exact::size;
use crate::frame::crossed;
use crate::geom::point_at;
use crate::geom::Ray;
use crate::geom::PARALLEL_BITS;
use crate::geom::TWO_BITS;
use crate::interior::lemma_axis_numbers;
use crate::interpolation::held;
use crate::interpolation::lemma_clamped_number;
use crate::lobe::lemma_square_side;
use crate::norm::lemma_inner_short;
use crate::norm::lemma_short_components;
use crate::norm::lemma_short_longer;
use crate::norm::lemma_short_sum;
use crate::norm::minus;
use crate::norm::scaled;
use crate::norm::short;
use crate::projection::lemma_even_short;
use crate::projection::lemma_number_order;
use crate::raster::lemma_integral_number;
use crate::scalar::Scalar;
use crate::snell::lemma_inner_commutes;
use crate::snell::lemma_inner_sum;
use crate::snell::lemma_number_sign;
use crate::snell::lemma_small_product;
use crate::snell::lemma_two_number;
use crate::transmission::lemma_inner_scaled;
use crate::triple::combined;
use crate::triple::finite;
use crate::triple::inner;
use crate::triple::lemma_dot_close;
use crate::triple::lemma_eps;
use crate::triple::lemma_one_number;
use crate::triple::triple;
use crate::vector::cross;
use crate::vector::dot;
use crate::vector::unit;
use crate::vector::vector_sum;
use crate::vector::Vector;
use crate::volume::beam_side;
use crate::volume::toward_eye;
use crate::volume::HazeView;
use crate::volume::BEAM_RADIUS_BITS;
use crate::volume::BLIND_STEPS_BITS;
use crate::volume::GREATEST_RADIUS_BITS;
use crate::volume::LEAST_RADIUS_BITS;
use vstd::arithmetic::power2::lemma2_to64;
use vstd::arithmetic::power2::lemma2_to64_rest;
use vstd::prelude::*;

verus! {

/// The distance of two coordinates in pixels, squared.
proof fn lemma_gap_square(s0: Scalar, s1: Scalar, n: int)
    requires
        s0.finite() && s1.finite(),
        0real <= number(s0) <= 1real,
        0real <= number(s1) <= 1real,
        0 < n <= 1000,
    ensures
        ({
            let d = s1.difference(s0).product(integral(n));
            let x = (number(s1) - number(s0)) * n as real;
            &&& d.product(d).finite()
            &&& size(number(d.product(d)) - x * x) <= (x * x + 1real / 100real) / 2000000real
            &&& 0real <= x * x <= 1000000real
            &&& number(d.product(d)) >= 0real
        }),
{
    let e = 1real / 16700000real;
    assert(eps() == e);
    lemma_integral_number(n);
    let y = n as real;
    let gap = number(s1) - number(s0);
    let small = size(gap) + 1real / 1000000real;
    lemma_difference_close(s1, s0, small);
    lemma_eps(small);
    let f = s1.difference(s0);
    let g = number(f);
    let x = gap * y;
    let h = g - gap;
    lemma_small_product(h, y, small / 16700000real, y);
    assert(g * y == x + h * y) by (nonlinear_arith)
        requires
            h == g - gap,
            x == gap * y,
    ;
    let a = size(x);
    assert(size(gap) * y == a) by (nonlinear_arith)
        requires
            x == gap * y,
            y > 0real,
            size(gap) == gap && gap >= 0real || size(gap) == -gap && gap < 0real,
            a == x && x >= 0real || a == -x && x < 0real,
    ;
    assert(y * (small / 16700000real) <= (a + 1real / 1000real) / 16700000real)
        by (nonlinear_arith)
        requires
            small == size(gap) + 1real / 1000000real,
            size(gap) * y == a,
            0real < y <= 1000real,
    ;
    assert(0real <= a <= 1000real) by (nonlinear_arith)
        requires
            size(gap) * y == a,
            0real <= size(gap) <= 1real,
            0real < y <= 1000real,
    ;
    let bound = a + 1real / 100real;
    lemma_product_close(f, integral(n), bound);
    lemma_eps(bound);
    let d = f.product(integral(n));
    let z = number(d);
    let b = z - x;
    let slip = (2real * a + 2real / 100real) / 16700000real;
    assert(size(b) <= slip);
    let xx = x * x;
    assert(a * a == xx) by (nonlinear_arith)
        requires
            a == x || a == -x,
            xx == x * x,
    ;
    assert(0real <= xx <= 1000000real) by (nonlinear_arith)
        requires
            xx == a * a,
            0real <= a <= 1000real,
    ;
    let c = z + x;
    assert(z * z - xx == b * c) by (nonlinear_arith)
        requires
            b == z - x,
            c == z + x,
            xx == x * x,
    ;
    let wide = (201real / 100real) * a + 1real / 100real;
    lemma_small_product(b, c, slip, wide);
    assert(wide * slip <= ((45real / 10real) * xx + 4real / 1000real) / 16700000real)
        by (nonlinear_arith)
        requires
            wide == (201real / 100real) * a + 1real / 100real,
            slip == (2real * a + 2real / 100real) / 16700000real,
            xx == a * a,
            a >= 0real,
    ;
    let room = (1001real / 1000real) * xx + 1real / 100real;
    assert(size(z * z) <= room) by {
        assert(z * z >= 0real) by (nonlinear_arith);
    }
    lemma_product_close(d, d, room);
    lemma_eps(room);
    lemma_square_sign(d);
    lemma_number_sign(d.product(d));
}

/// The distance of two places of an image, in pixels: its square is that of the
/// way across and that of the way up.
pub proof fn lemma_pixel_distance<P: Fn(Scalar) -> Scalar, E: Fn(Scalar) -> Scalar>(
    view: HazeView<P, E>,
    s0: Scalar,
    t0: Scalar,
    s1: Scalar,
    t1: Scalar,
)
    requires
        0 < view.width <= 1000,
        0 < view.height <= 1000,
        s0.finite() && t0.finite() && s1.finite() && t1.finite(),
        0real <= number(s0) <= 1real,
        0real <= number(t0) <= 1real,
        0real <= number(s1) <= 1real,
        0real <= number(t1) <= 1real,
    ensures
        ({
            let q = view.pixel_distance(s0, t0, s1, t1);
            let x = (number(s1) - number(s0)) * view.width as real;
            let y = (number(t1) - number(t0)) * view.height as real;
            let square = x * x + y * y;
            &&& q.finite()
            &&& 0real <= number(q) <= 1500real
            &&& size(number(q) * number(q) - square) <= (square + 1real / 10real) / 1000000real
        }),
{
    assert(eps() == 1real / 16700000real);
    lemma_gap_square(s0, s1, view.width);
    lemma_gap_square(t0, t1, view.height);
    let dx = s1.difference(s0).product(integral(view.width));
    let dy = t1.difference(t0).product(integral(view.height));
    let (a, b) = (dx.product(dx), dy.product(dy));
    let x = (number(s1) - number(s0)) * view.width as real;
    let y = (number(t1) - number(t0)) * view.height as real;
    let (xx, yy) = (x * x, y * y);
    let square = xx + yy;
    let room = (1001real / 1000real) * square + 1real / 100real;
    lemma_sum_close(a, b, room);
    lemma_eps(room);
    let s = a.sum(b);
    assert(number(s) >= 0real) by {
        lemma_squares_sum(dx, dy);
    }
    lemma_root_close(s);
    let q = number(s.square_root());
    let sn = number(s);
    assert(2real * eps() * sn == sn / 8350000real) by (nonlinear_arith)
        requires
            eps() == 1real / 16700000real,
    ;
    assert(q <= 1500real) by (nonlinear_arith)
        requires
            q * q <= 2250000real,
            q >= 0real,
    ;
}

/// A segment whose ends show in the image takes two steps for each pixel between
/// them and one or two more, as far as 4096: a step crosses half a pixel at most.
pub proof fn lemma_march_count<P: Fn(Scalar) -> Scalar, E: Fn(Scalar) -> Scalar>(
    view: HazeView<P, E>,
    ray: Ray,
    seg_len: Scalar,
) -> (q: real)
    requires
        0 < view.width <= 1000,
        0 < view.height <= 1000,
        view.view.projected(ray.origin) is Some,
        view.view.projected(point_at(ray, seg_len)) is Some,
    ensures
        ({
            let (s0, t0, _) = view.view.projected(ray.origin)->0;
            let (s1, t1, _) = view.view.projected(point_at(ray, seg_len))->0;
            let x = (number(s1) - number(s0)) * view.width as real;
            let y = (number(t1) - number(t0)) * view.height as real;
            let square = x * x + y * y;
            let m = view.march(ray, seg_len);
            &&& q >= 0real
            &&& size(q * q - square) <= (square + 1real / 10real) / 1000000real
            &&& 1 <= m <= 4096
            &&& m as real >= 2real * q || m == 4096
            &&& m as real <= 2real * q + 21real / 10real
        }),
{
    let (s0, t0, d0) = view.view.projected(ray.origin)->0;
    let (s1, t1, d1) = view.view.projected(point_at(ray, seg_len))->0;
    lemma_frame_number(s0);
    lemma_frame_number(t0);
    lemma_frame_number(s1);
    lemma_frame_number(t1);
    lemma_pixel_distance(view, s0, t0, s1, t1);
    let p = view.pixel_distance(s0, t0, s1, t1);
    let q = number(p);
    lemma_two_number();
    let two = Scalar { bits: TWO_BITS };
    assert(number(p) * number(two) == 2real * q) by (nonlinear_arith)
        requires
            number(two) == 2real,
            q == number(p),
    ;
    lemma_product_close(p, two, 3000real);
    lemma_eps(3000real);
    assert(eps() == 1real / 16700000real);
    lemma_ceiling_above(p.product(two));
    q
}

/// A segment with an end that does not show takes eighty steps for each unit of
/// its length, from one to 4096.
pub proof fn lemma_blind_march<P: Fn(Scalar) -> Scalar, E: Fn(Scalar) -> Scalar>(
    view: HazeView<P, E>,
    ray: Ray,
    seg_len: Scalar,
)
    requires
        view.view.projected(ray.origin) is None || view.view.projected(
            point_at(ray, seg_len),
        ) is None,
        seg_len.finite(),
        0real <= number(seg_len) <= 50real,
    ensures
        ({
            let m = view.march(ray, seg_len);
            let wanted = 80real * number(seg_len);
            &&& 1 <= m <= 4096
            &&& m as real >= wanted - 1real / 1000real
            &&& m as real <= wanted + 1real + 1real / 1000real
        }),
{
    assert(eps() == 1real / 16700000real);
    lemma2_to64();
    lemma_constant(BLIND_STEPS_BITS, 132, 10485760, 131072real);
    let rate = Scalar { bits: BLIND_STEPS_BITS };
    let x = number(seg_len);
    assert(number(seg_len) * number(rate) == 80real * x) by (nonlinear_arith)
        requires
            number(rate) == 80real,
            x == number(seg_len),
    ;
    lemma_product_close(seg_len, rate, 4000real);
    lemma_eps(4000real);
    lemma_ceiling_above(seg_len.product(rate));
}

/// A component of the side.
proof fn lemma_side_component(x: Scalar, r: Scalar)
    requires
        x.finite() && r.finite(),
        size(number(x)) <= 1001real / 1000real,
        0real <= number(r) <= 1real / 30real,
    ensures
        x.product(r).finite(),
        size(number(x.product(r)) - number(r) * number(x)) <= 1real / 400000000real,
{
    assert(eps() == 1real / 16700000real);
    lemma_small_product(number(x), number(r), 1001real / 1000real, 1real / 30real);
    assert(number(x) * number(r) == number(r) * number(x)) by (nonlinear_arith);
    lemma_product_close(x, r, 35real / 1000real);
    lemma_eps(35real / 1000real);
}

/// The side of a beam is 0.03 long and square to the sight, where that is not
/// along y.
pub proof fn lemma_beam_side(sight: Vector)
    requires
        finite(sight),
        short(triple(sight), 1001real / 1000real),
        ({
            let c = crossed(triple(sight), triple(Vector::unit_y()));
            inner(c, c) >= 1real / 100real
        }),
    ensures
        ({
            let side = triple(beam_side(sight));
            &&& finite(beam_side(sight))
            &&& size(inner(side, triple(sight))) <= 1real / 1000000real
            &&& size(inner(side, side) - 9real / 10000real) <= 1real / 1000000real
        }),
{
    assert(eps() == 1real / 16700000real);
    lemma_axis_numbers();
    lemma_one_number();
    lemma2_to64();
    lemma2_to64_rest();
    lemma_constant(BEAM_RADIUS_BITS, 120, 16106127, 536870912real);
    lemma_constant(PARALLEL_BITS, 99, 11258999, 1125899906842624real);
    let y = Vector::unit_y();
    lemma_square_side(sight, y);
    let across = cross(sight, y);
    let cc = inner(triple(across), triple(across));
    lemma_dot_close(across, across, cc);
    lemma_eps((31real / 10real) * cc);
    let least = Scalar { bits: PARALLEL_BITS };
    lemma_number_order(least, dot(across, across));
    let u = unit(across);
    let t = triple(u);
    let radius = Scalar { bits: BEAM_RADIUS_BITS };
    let r = number(radius);
    lemma_short_components(t, 1001real / 1000real);
    lemma_side_component(u.x, radius);
    lemma_side_component(u.y, radius);
    lemma_side_component(u.z, radius);
    let side = triple(beam_side(sight));
    let ru = scaled(r, t);
    let f = minus(side, ru);
    let k = 1real / 400000000real;
    lemma_even_short(f, k);
    let l = (174real / 100real) * k;
    let w = 1001real / 1000real;
    let s = triple(sight);
    lemma_inner_sum(side, ru, f, s);
    lemma_inner_scaled(r, t, s);
    lemma_inner_short(f, s, l, w);
    let ts = inner(t, s);
    lemma_small_product(ts, r, 80real / 16700000real, 31real / 1000real);
    assert(r * ts == ts * r) by (nonlinear_arith);
    // The length.
    lemma_inner_sum(side, ru, f, side);
    lemma_inner_sum(side, ru, f, ru);
    lemma_inner_commutes(side, ru);
    lemma_inner_scaled(r, t, t);
    lemma_inner_scaled(r, t, ru);
    lemma_inner_commutes(t, ru);
    let tt = inner(t, t);
    let rt = r * tt;
    let d = tt - 1real;
    lemma_small_product(d, r, 10real / 16700000real, 31real / 1000real);
    assert(rt == r + d * r) by (nonlinear_arith)
        requires
            rt == r * tt,
            d == tt - 1real,
    ;
    let rr = r * rt;
    assert(inner(ru, ru) == rr);
    let h = rt - r;
    lemma_small_product(h, r, 1real / 10000000real, 31real / 1000real);
    assert(rr == r * r + h * r) by (nonlinear_arith)
        requires
            rr == r * rt,
            h == rt - r,
    ;
    assert(r * r <= 9001real / 10000000real && r * r >= 8999real / 10000000real)
        by (nonlinear_arith)
        requires
            r == 16106127real / 536870912real,
    ;
    assert(short(ru, 31real / 1000real));
    lemma_inner_short(f, ru, l, 31real / 1000real);
    let g = 32real / 1000real;
    lemma_short_sum(ru, 1real, f, 31real / 1000real, l);
    assert(combined(ru, 1real, f) == side) by {
        assert(1real * f.x == f.x && 1real * f.y == f.y && 1real * f.z == f.z);
    }
    assert(size(1real) * l == l) by (nonlinear_arith)
        requires
            size(1real) == 1real,
    ;
    lemma_short_longer(side, 31real / 1000real + size(1real) * l, g);
    lemma_inner_short(f, side, l, g);
}

/// The footprint of a beam at a point is as wide, in pixels, as its cross-section
/// looks: the distance of the places at which the point and the end of the side
/// show, but never below 1.5 or above 24.
pub proof fn lemma_footprint_radius<P: Fn(Scalar) -> Scalar, E: Fn(Scalar) -> Scalar>(
    view: HazeView<P, E>,
    p: Vector,
    s: Scalar,
    t: Scalar,
) -> (q: real)
    requires
        0 < view.width <= 1000,
        0 < view.height <= 1000,
        s.finite() && t.finite(),
        0real <= number(s) <= 1real,
        0real <= number(t) <= 1real,
    ensures
        view.view.projected(
            vector_sum(p, beam_side(toward_eye(view.view.origin, p))),
        ) matches Some((s2, t2, _)) ==> {
            let x = (number(s2) - number(s)) * view.width as real;
            let y = (number(t2) - number(t)) * view.height as real;
            let square = x * x + y * y;
            let r = view.footprint_radius(p, s, t);
            &&& q >= 0real
            &&& size(q * q - square) <= (square + 1real / 10real) / 1000000real
            &&& r.finite()
            &&& number(r) == held(q, 3real / 2real, 24real)
        },
{
    if let Some((s2, t2, _)) = view.view.projected(
        vector_sum(p, beam_side(toward_eye(view.view.origin, p))),
    ) {
        lemma_frame_number(s2);
        lemma_frame_number(t2);
        lemma_pixel_distance(view, s, t, s2, t2);
        lemma2_to64();
        lemma_constant(LEAST_RADIUS_BITS, 126, 12582912, 8388608real);
        lemma_constant(GREATEST_RADIUS_BITS, 130, 12582912, 524288real);
        let d = view.pixel_distance(s, t, s2, t2);
        lemma_clamped_number(
            d,
            Scalar { bits: LEAST_RADIUS_BITS },
            Scalar { bits: GREATEST_RADIUS_BITS },
        );
        number(d)
    } else {
        0real
    }
}

} // verus!
