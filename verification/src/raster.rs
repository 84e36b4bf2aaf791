//! Pixels and places of the image: columns go from left to right, rows from the
//! top down, and a sample lies within its pixel.
use crate::aperture::lemma_draw_number;
use crate::aperture::share;
use crate::arith::integral;
use crate::arith::lemma_nearest_exact;
use crate::camera::ViewBasis;
use crate::cie::whole_part;
use crate::convert::one;
use crate::exact::close;
use crate::exact::eps;
use crate::exact::lemma_difference_close;
use crate::exact::lemma_one;
use crate::exact::lemma_product_close;
use crate::exact::lemma_quotient_close;
use crate::exact::lemma_sum_close;
use crate::exact::number;
use crate::lighttrace::cell;
use crate::lighttrace::lemma_pixel_in_image;
use crate::lighttrace::pixel_at;
use crate::rng::advanced;
use crate::rng::pcg;
use crate::rng::unit_draw;
use crate::scalar::Scalar;
use crate::scalar::ONE_BITS;
use crate::squares::lemma_representable;
use crate::tracer::beginning;
use crate::tracer::CpuTracer;
use crate::triple::lemma_eps;
use crate::triple::lemma_one_number;
use vstd::arithmetic::div_mod::lemma_fundamental_div_mod_converse;
use vstd::prelude::*;

verus! {

/// A small integer is held as it is.
pub proof fn lemma_integral_number(n: int)
    requires
        0 <= n < 0x100_0000,
    ensures
        integral(n).finite(),
        number(integral(n)) == n as real,
{
    reveal(number);
    lemma_one();
    let k: int = lemma_representable(n, 149);
    lemma_nearest_exact(k);
    let x = integral(n);
    assert(x.value() == n * one());
    let (a, o) = (n as real, one() as real);
    assert((n * one()) as real == a * o) by (nonlinear_arith)
        requires
            a == n as real,
            o == one() as real,
    ;
    assert((a * o) / o == a) by (nonlinear_arith)
        requires
            o > 0real,
    ;
}

/// The whole part of a number.
pub proof fn lemma_whole_number(f: Scalar)
    requires
        f.finite(),
        0real <= number(f) <= 16777216real,
    ensures
        whole_part(f) as real <= number(f) < whole_part(f) as real + 1real,
        0 <= whole_part(f),
{
    reveal(number);
    lemma_one();
    let (v, o) = (f.value(), one());
    let q: int = v / o;
    let (x, y) = (v as real, o as real);
    let r = x / y;
    assert(r * y == x) by (nonlinear_arith)
        requires
            r == x / y,
            y > 0real,
    ;
    assert(x >= 0real) by (nonlinear_arith)
        requires
            r * y == x,
            r >= 0real,
            y > 0real,
    ;
    assert(x <= 16777216real * y) by (nonlinear_arith)
        requires
            r * y == x,
            r <= 16777216real,
            y > 0real,
    ;
    assert(v <= 16777216 * o) by {
        assert((16777216 * o) as real == 16777216real * y);
    }
    assert(q * o <= v < q * o + o && 0 <= q <= 16777216) by (nonlinear_arith)
        requires
            q == v / o,
            0 <= v <= 16777216 * o,
            o > 0,
    ;
    let z = q as real;
    assert((q * o) as real == z * y) by (nonlinear_arith)
        requires
            z == q as real,
            y == o as real,
    ;
    assert(z <= r) by (nonlinear_arith)
        requires
            z * y <= r * y,
            y > 0real,
    ;
    assert(r < z + 1real) by (nonlinear_arith)
        requires
            r * y < z * y + y,
            y > 0real,
    ;
}

/// A coordinate across `n` cells falls into the cell that holds it: within a
/// ten-thousandth, `n` times the coordinate lies from the cell's number to the
/// next.
pub proof fn lemma_cell_place(c: Scalar, n: int)
    requires
        c.finite(),
        -1real / 10000000real <= number(c) <= 1real + 1real / 10000000real,
        0 < n <= 1000,
    ensures
        0 <= cell(c, n) < n,
        cell(c, n) as real - 1real / 10000real <= number(c) * n as real,
        number(c) * n as real <= cell(c, n) as real + 1real + 1real / 10000real,
{
    lemma_integral_number(n);
    let (x, y) = (number(c), n as real);
    let k = integral(n);
    let xy = x * y;
    assert(-1real / 10000real <= xy <= y + 1real / 10000real) by (nonlinear_arith)
        requires
            xy == x * y,
            -1real / 10000000real <= x <= 1real + 1real / 10000000real,
            0real < y <= 1000real,
    ;
    lemma_product_close(c, k, 1001real);
    lemma_eps(1001real);
    let f = c.product(k);
    if number(f) >= 0real {
        lemma_whole_number(f);
    } else {
        crate::snell::lemma_number_sign(f);
        assert(whole_part(f) == 0);
    }
}

/// The pixel at a place: the column is the part of the width to the left of the
/// place, and the row the part of the height above it, counted from the top.
pub proof fn lemma_pixel_place(s: Scalar, t: Scalar, width: int, height: int) -> (xy: (int, int))
    requires
        s.finite() && t.finite(),
        0real <= number(s) <= 1real,
        0real <= number(t) <= 1real,
        0 < width <= 1000,
        0 < height <= 1000,
    ensures
        pixel_at(s, t, width, height) == xy.1 * width + xy.0,
        0 <= xy.0 < width,
        0 <= xy.1 < height,
        xy.0 as real - 1real / 5000real <= number(s) * width as real,
        number(s) * width as real <= xy.0 as real + 1real + 1real / 5000real,
        xy.1 as real - 1real / 5000real <= (1real - number(t)) * height as real,
        (1real - number(t)) * height as real <= xy.1 as real + 1real + 1real / 5000real,
{
    assert(eps() == 1real / 16700000real);
    lemma_one_number();
    let one = Scalar { bits: ONE_BITS };
    lemma_difference_close(one, t, 1real);
    lemma_eps(1real);
    let d = one.difference(t);
    let y: int = cell(d, height);
    let x: int = cell(s, width);
    lemma_pixel_in_image(s, t, width, height);
    lemma_cell_place(s, width);
    lemma_cell_place(d, height);
    let (h, e) = (height as real, number(d) - (1real - number(t)));
    crate::snell::lemma_small_product(e, h, 1real / 16700000real, 1000real);
    let (p, q) = (number(d), 1real - number(t));
    assert(p * h == q * h + e * h) by (nonlinear_arith)
        requires
            e == p - q,
    ;
    (x, y)
}

/// A sample lies within its pixel, where its draws place it: as far into the
/// pixel from the left as the first draw says, and from the top as the second.
/// The ray goes through that place.
pub proof fn lemma_sample_place(
    view: ViewBasis,
    width: int,
    height: int,
    px: int,
    py: int,
    sample: u32,
    seed: u32,
) -> (place: (Scalar, Scalar))
    requires
        0 <= px < width <= 1000,
        0 <= py < height <= 1000,
    ensures
        ({
            let (s, t) = place;
            let path = beginning(view, width, height, px, py, sample, seed).1;
            let start = pcg(pcg((py * width + px) as u32 ^ pcg(sample)) ^ pcg(seed));
            let (u1, u2) = (share(pcg(advanced(start, 1))), share(pcg(advanced(start, 2))));
            &&& path.ray.origin == view.origin
            &&& path.ray.dir == view.direction(s, t)
            &&& close(s, (px as real + u1) / width as real, 1real / 4000000real)
            &&& close(t, 1real - (py as real + u2) / height as real, 1real / 4000000real)
        }),
{
    assert(eps() == 1real / 16700000real);
    let start = pcg(pcg((py * width + px) as u32 ^ pcg(sample)) ^ pcg(seed));
    let (d1, d2) = (pcg(advanced(start, 1)), pcg(advanced(start, 2)));
    let s = integral(px).sum(unit_draw(d1)).quotient(integral(width));
    let q = integral(py).sum(unit_draw(d2)).quotient(integral(height));
    let t = (Scalar { bits: ONE_BITS }).difference(q);
    lemma_fraction(px, d1, width);
    lemma_fraction(py, d2, height);
    lemma_one_number();
    lemma_difference_close(Scalar { bits: ONE_BITS }, q, 11real / 10real);
    lemma_eps(11real / 10real);
    (s, t)
}

/// A place within a cell, as a part of all cells.
proof fn lemma_fraction(i: int, draw: u32, n: int)
    requires
        0 <= i < n <= 1000,
    ensures
        close(
            integral(i).sum(unit_draw(draw)).quotient(integral(n)),
            (i as real + share(draw)) / n as real,
            1real / 7000000real,
        ),
        0real <= (i as real + share(draw)) / n as real <= 1real,
{
    assert(eps() == 1real / 16700000real);
    lemma_integral_number(i);
    lemma_integral_number(n);
    lemma_draw_number(draw);
    let (y, x) = (n as real, i as real + share(draw));
    assert(x <= y);
    lemma_sum_close(integral(i), unit_draw(draw), y);
    lemma_eps(y);
    let a = integral(i).sum(unit_draw(draw));
    let e = number(a) - x;
    let (p, r) = (number(a) / y, x / y);
    assert(p * y == number(a) && r * y == x) by (nonlinear_arith)
        requires
            p == number(a) / y,
            r == x / y,
            y > 0real,
    ;
    let f = p - r;
    assert(f * y == e) by (nonlinear_arith)
        requires
            p * y == number(a),
            r * y == x,
            e == number(a) - x,
            f == p - r,
    ;
    assert(f <= 1real / 16700000real && -f <= 1real / 16700000real) by (nonlinear_arith)
        requires
            f * y <= y / 16700000real,
            -(f * y) <= y / 16700000real,
            y > 0real,
    ;
    assert(0real <= r <= 1real) by (nonlinear_arith)
        requires
            r * y == x,
            0real <= x <= y,
            y > 0real,
    ;
    lemma_quotient_close(a, integral(n), 11real / 10real);
    lemma_eps(11real / 10real);
}

/// The samples of the pixel in column `px` and row `py` are kept at its place in
/// the image, row after row.
pub proof fn lemma_pixel_samples<F: Fn(Scalar) -> (Scalar, Scalar)>(
    tracer: CpuTracer,
    px: int,
    py: int,
    count: nat,
    turn: F,
)
    requires
        0 <= px < tracer.image().width,
        0 <= py,
    ensures
        ({
            let (w, h) = (tracer.image().width as int, tracer.image().height as int);
            tracer.pixel_spec(py * w + px, count, turn) == tracer.world(turn).sampled(
                tracer.view_basis(),
                w,
                h,
                px,
                py,
                tracer.image().samples,
                count,
                tracer.seed_spec(),
            )
        }),
{
    let w: int = tracer.image().width as int;
    let i: int = py * w + px;
    lemma_fundamental_div_mod_converse(i, w, py, px);
}

} // verus!
