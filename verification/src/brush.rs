//! The footprint of a splat: where its centre lies, which pixels it covers, and
//! how its weight falls from the centre to the rim.
use crate::arith::integral;
use crate::arith::lemma_nearest_exists;
use crate::cie::whole_part;
use crate::convert::one;
use crate::exact::close;
use crate::exact::eps;
use crate::exact::lemma_difference_close;
use crate::exact::lemma_one;
use crate::exact::lemma_product_close;
use crate::exact::lemma_quotient_close;
use crate::exact::lemma_root_close;
use crate::exact::lemma_sum_close;
use crate::exact::number;
use crate::exact::size;
use crate::fresnel::lemma_half_number;
use crate::lobe::lemma_same_number;
use crate::optics::HALF_BITS;
use crate::order::lemma_sum_order;
use crate::order::lemma_sum_zero;
use crate::projection::lemma_number_order;
use crate::raster::lemma_integral_number;
use crate::raster::lemma_whole_number;
use crate::scalar::lemma_magnitude_sign;
use crate::scalar::Scalar;
use crate::scalar::ONE_BITS;
use crate::snell::lemma_number_sign;
use crate::snell::lemma_small_product;
use crate::splat::ceiling;
use crate::splat::footprint_at;
use crate::splat::inside;
use crate::splat::offset_square;
use crate::splat::Footprint;
use crate::triple::lemma_eps;
use crate::triple::lemma_one_number;
use vstd::prelude::*;

verus! {

/// The larger of two numbers.
pub proof fn lemma_larger_number(x: Scalar, y: Scalar)
    requires
        x.finite(),
        y.finite(),
    ensures
        x.larger(y).finite(),
        number(x.larger(y)) == if number(x) < number(y) {
            number(y)
        } else {
            number(x)
        },
{
    if number(x) < number(y) {
        lemma_number_order(x, y);
    } else if number(y) < number(x) {
        lemma_number_order(y, x);
    } else {
        lemma_same_number(x, y);
    }
}

/// The ceiling of a number is not below it, and less than one above.
pub proof fn lemma_ceiling_above(x: Scalar)
    requires
        x.finite(),
        -16777216real <= number(x) <= 16777216real,
    ensures
        number(x) <= (ceiling(x) as real) < number(x) + 1real,
{
    reveal(number);
    lemma_one();
    let (v, o) = (x.value(), one());
    let q: int = (-v) / o;
    let (a, b) = (v as real, o as real);
    let r = a / b;
    assert(r * b == a) by (nonlinear_arith)
        requires
            r == a / b,
            b > 0real,
    ;
    assert(-16777216real * b <= a <= 16777216real * b) by (nonlinear_arith)
        requires
            r * b == a,
            -16777216real <= r <= 16777216real,
            b > 0real,
    ;
    assert(-16777216 * o <= v <= 16777216 * o) by {
        assert((16777216 * o) as real == 16777216real * b);
    }
    assert(q * o <= -v < q * o + o) by (nonlinear_arith)
        requires
            q == (-v) / o,
            o > 0,
    ;
    assert(-16777217 <= q <= 16777216) by (nonlinear_arith)
        requires
            q * o <= -v < q * o + o,
            -16777216 * o <= v <= 16777216 * o,
            o > 0,
    ;
    let z = q as real;
    assert((q * o) as real == z * b) by (nonlinear_arith)
        requires
            z == q as real,
            b == o as real,
    ;
    assert(-z >= r) by (nonlinear_arith)
        requires
            z * b <= -(r * b),
            b > 0real,
    ;
    assert(-z < r + 1real) by (nonlinear_arith)
        requires
            -(r * b) < z * b + b,
            b > 0real,
    ;
}

/// The centre of a footprint lies at its place: from the left by the part of the
/// width, from the top by the part of the height above it, in pixels whose
/// middles are whole. Its radius is at least half a pixel.
pub proof fn lemma_footprint_centre(width: int, height: int, s: Scalar, t: Scalar, radius: Scalar)
    requires
        0 < width <= 1000,
        0 < height <= 1000,
        s.finite() && t.finite() && radius.finite(),
        0real <= number(s) <= 1real,
        0real <= number(t) <= 1real,
    ensures
        ({
            let f = footprint_at(width, height, s, t, radius);
            &&& close(f.cx, number(s) * width as real - 1real / 2real, 1real / 4000real)
            &&& close(f.cy, (1real - number(t)) * height as real - 1real / 2real, 1real / 4000real)
            &&& f.r.finite()
            &&& number(f.r) == if number(radius) < 1real / 2real {
                1real / 2real
            } else {
                number(radius)
            }
        }),
{
    assert(eps() == 1real / 16700000real);
    lemma_half_number();
    lemma_one_number();
    let half = Scalar { bits: HALF_BITS };
    lemma_larger_number(radius, half);
    lemma_centre_component(s, number(s), width);
    let one = Scalar { bits: ONE_BITS };
    lemma_difference_close(one, t, 1real);
    lemma_eps(1real);
    lemma_centre_component(one.difference(t), 1real - number(t), height);
}

proof fn lemma_centre_component(c: Scalar, exact: real, n: int)
    requires
        c.finite(),
        0 < n <= 1000,
        0real <= exact <= 1real,
        size(number(c) - exact) <= 1real / 16700000real,
    ensures
        close(
            c.product(integral(n)).difference(Scalar { bits: HALF_BITS }),
            exact * n as real - 1real / 2real,
            1real / 4000real,
        ),
{
    assert(eps() == 1real / 16700000real);
    lemma_integral_number(n);
    lemma_half_number();
    let (x, y) = (number(c), n as real);
    let e = x - exact;
    lemma_small_product(e, y, 1real / 16700000real, 1000real);
    lemma_small_product(exact, y, 1real, 1000real);
    assert(x * y == exact * y + e * y) by (nonlinear_arith)
        requires
            e == x - exact,
    ;
    lemma_product_close(c, integral(n), 1001real);
    lemma_eps(1001real);
    lemma_difference_close(c.product(integral(n)), Scalar { bits: HALF_BITS }, 1002real);
    lemma_eps(1002real);
}

/// The rectangle of a footprint holds every pixel that lies within its radius,
/// along both axes.
pub proof fn lemma_footprint_covers(
    width: int,
    height: int,
    s: Scalar,
    t: Scalar,
    radius: Scalar,
    px: int,
    py: int,
)
    requires
        0 <= px < width <= 1000,
        0 <= py < height <= 1000,
        s.finite() && t.finite() && radius.finite(),
        0real <= number(s) <= 1real,
        0real <= number(t) <= 1real,
        number(radius) <= 1000real,
        ({
            let f = footprint_at(width, height, s, t, radius);
            &&& size(px as real - number(f.cx)) <= number(f.r) - 1real / 1000real
            &&& size(py as real - number(f.cy)) <= number(f.r) - 1real / 1000real
        }),
    ensures
        ({
            let f = footprint_at(width, height, s, t, radius);
            f.x0 <= px <= f.x1 && f.y0 <= py <= f.y1
        }),
{
    let f = footprint_at(width, height, s, t, radius);
    lemma_footprint_centre(width, height, s, t, radius);
    lemma_small_product(number(s), width as real, 1real, 1000real);
    lemma_small_product(1real - number(t), height as real, 1real, 1000real);
    lemma_interval(f.cx, f.r, px, width);
    lemma_interval(f.cy, f.r, py, height);
}

proof fn lemma_interval(c: Scalar, r: Scalar, p: int, n: int)
    requires
        c.finite() && r.finite(),
        size(number(c)) <= 1001real,
        1real / 2real <= number(r) <= 1000real,
        0 <= p < n <= 1000,
        size(p as real - number(c)) <= number(r) - 1real / 1000real,
    ensures
        0 <= whole_part(c.difference(r)) <= p,
        p <= inside(ceiling(c.sum(r)), n) < n,
{
    lemma_difference_close(c, r, 2002real);
    lemma_sum_close(c, r, 2002real);
    lemma_eps(2002real);
    let d = c.difference(r);
    if number(d) >= 0real {
        lemma_whole_number(d);
    } else {
        lemma_number_sign(d);
        assert(whole_part(d) == 0);
    }
    lemma_ceiling_above(c.sum(r));
}

/// The squared distance along one axis.
proof fn lemma_offset_square(p: int, c: Scalar)
    requires
        0 <= p <= 1000,
        c.finite(),
        size(number(c)) <= 1100real,
    ensures
        ({
            let d = p as real - number(c);
            &&& offset_square(p, c).finite()
            &&& size(number(offset_square(p, c)) - d * d) <= (d * d + 1real / 1000real)
                / 4000000real
            &&& 0real <= d * d <= 4410000real
        }),
{
    let e = 1real / 16700000real;
    assert(eps() == e);
    lemma_integral_number(p);
    let i = integral(p);
    let d = p as real - number(c);
    let a = size(d);
    let bound = a + 1real / 1000real;
    lemma_difference_close(i, c, bound);
    lemma_eps(bound);
    let y = i.difference(c);
    let x = number(y);
    let f = x - d;
    let dd = d * d;
    assert(a * a == dd) by (nonlinear_arith)
        requires
            a == d || a == -d,
            dd == d * d,
    ;
    assert(0real <= dd <= 4410000real) by (nonlinear_arith)
        requires
            dd == a * a,
            0real <= a <= 2100real,
    ;
    let g = x + d;
    assert(x * x - dd == f * g) by (nonlinear_arith)
        requires
            f == x - d,
            g == x + d,
            dd == d * d,
    ;
    let wide = (2001real / 1000real) * a + 1real / 1000real;
    lemma_small_product(f, g, bound / 16700000real, wide);
    let bw = bound * wide;
    assert(bw <= (201real / 100real) * dd + 3real / 10000real) by (nonlinear_arith)
        requires
            bw == bound * wide,
            bound == a + 1real / 1000real,
            wide == (2001real / 1000real) * a + 1real / 1000real,
            dd == a * a,
            a >= 0real,
    ;
    assert(wide * (bound / 16700000real) == bw / 16700000real) by (nonlinear_arith)
        requires
            bw == bound * wide,
    ;
    let room = (1001real / 1000real) * dd + 1real / 1000real;
    assert(size(x * x) <= room) by {
        assert(x * x >= 0real) by (nonlinear_arith);
    }
    lemma_product_close(y, y, room);
    lemma_eps(room);
}

/// The weight of a footprint at a pixel falls evenly from one at its centre to
/// zero at its rim, and is zero beyond: it is `1 - q / r`, where `q` is the
/// distance of the pixel from the centre.
pub proof fn lemma_tent_shape(f: Footprint, px: int, py: int) -> (q: real)
    requires
        0 <= px <= 1000,
        0 <= py <= 1000,
        f.cx.finite() && f.cy.finite() && f.r.finite(),
        size(number(f.cx)) <= 1100real,
        size(number(f.cy)) <= 1100real,
        1real / 2real <= number(f.r) <= 1000real,
    ensures
        ({
            let (dx, dy) = (px as real - number(f.cx), py as real - number(f.cy));
            let square = dx * dx + dy * dy;
            let exact = 1real - q / number(f.r);
            &&& q >= 0real
            &&& size(q * q - square) <= (square + 1real / 100real) / 1000000real
            &&& close(
                f.tent(px, py),
                if exact < 0real {
                    0real
                } else {
                    exact
                },
                1real / 1000000real,
            )
        }),
{
    assert(eps() == 1real / 16700000real);
    lemma_one_number();
    lemma_offset_square(px, f.cx);
    lemma_offset_square(py, f.cy);
    let (dx, dy) = (px as real - number(f.cx), py as real - number(f.cy));
    let (a, b) = (offset_square(px, f.cx), offset_square(py, f.cy));
    let (xx, yy) = (dx * dx, dy * dy);
    let square = xx + yy;
    let room = (1001real / 1000real) * square + 1real / 1000real;
    lemma_sum_close(a, b, room);
    lemma_eps(room);
    let s = a.sum(b);
    assert(number(s) >= 0real) by {
        lemma_squares_sum(integral(px).difference(f.cx), integral(py).difference(f.cy));
    }
    lemma_root_close(s);
    let dist = s.square_root();
    let q = number(dist);
    let sn = number(s);
    assert(2real * eps() * sn == sn / 8350000real) by (nonlinear_arith)
        requires
            eps() == 1real / 16700000real,
    ;
    assert(q <= 3100real) by (nonlinear_arith)
        requires
            q * q <= 9000000real,
            q >= 0real,
    ;
    let r = number(f.r);
    let z = q / r;
    assert(z * r == q) by (nonlinear_arith)
        requires
            z == q / r,
            r > 0real,
    ;
    assert(0real <= z <= 6200real) by (nonlinear_arith)
        requires
            z * r == q,
            0real <= q <= 3100real,
            r >= 1real / 2real,
    ;
    let one = Scalar { bits: ONE_BITS };
    let zero = Scalar { bits: 0 };
    lemma_number_sign(zero);
    let bound = z + 1real / 1000real;
    lemma_quotient_close(dist, f.r, bound);
    lemma_eps(bound);
    let m = dist.quotient(f.r);
    let reach = z + 2real;
    lemma_difference_close(one, m, reach);
    lemma_eps(reach);
    lemma_larger_number(one.difference(m), zero);
    q
}

/// The sum of two squares is not negative.
pub proof fn lemma_squares_sum(c: Scalar, d: Scalar)
    requires
        c.product(c).finite(),
        d.product(d).finite(),
        c.product(c).sum(d.product(d)).finite(),
    ensures
        number(c.product(c).sum(d.product(d))) >= 0real,
{
    let (a, b) = (c.product(c), d.product(d));
    lemma_square_sign(c);
    lemma_square_sign(d);
    lemma_number_sign(a);
    lemma_number_sign(b);
    lemma_number_sign(a.sum(b));
    lemma_sum_zero(a);
    lemma_sum_order(a, Scalar { bits: 0 }, b);
}

pub proof fn lemma_square_sign(d: Scalar)
    requires
        d.product(d).finite(),
    ensures
        d.product(d).value() >= 0,
        !d.product(d).negative(),
{
    reveal(Scalar::product);
    lemma_one();
    lemma_magnitude_sign(d.product(d).unsigned_bits());
    let z: int = d.size();
    let n: int = z * z;
    assert(n >= 0) by (nonlinear_arith)
        requires
            n == z * z,
    ;
    lemma_nearest_exists(n, one());
}

} // verus!
