//! Sampled curves: at a wavelength between two rows the curve is on the straight
//! line between them, and past its ends it keeps the last value.
use crate::arith::integral;
use crate::cie::curve;
use crate::cie::position;
use crate::cie::whole_part;
use crate::cie::Grid;
use crate::cie::Xyz;
use crate::exact::close;
use crate::exact::eps;
use crate::exact::lemma_difference_close;
use crate::exact::lemma_product_close;
use crate::exact::lemma_quotient_close;
use crate::exact::lemma_sum_close;
use crate::exact::number;
use crate::exact::size;
use crate::lobe::lemma_same_number;
use crate::projection::lemma_number_order;
use crate::raster::lemma_integral_number;
use crate::raster::lemma_whole_number;
use crate::scalar::Scalar;
use crate::snell::lemma_number_sign;
use crate::snell::lemma_small_product;
use crate::triple::lemma_eps;
use vstd::prelude::*;

verus! {

/// A number moved into a range.
pub open spec fn held(x: real, low: real, high: real) -> real {
    if x < low {
        low
    } else if x > high {
        high
    } else {
        x
    }
}

/// A number that is clamped.
pub proof fn lemma_clamped_number(x: Scalar, low: Scalar, high: Scalar)
    requires
        x.finite() && low.finite() && high.finite(),
        number(low) <= number(high),
    ensures
        x.clamped(low, high).finite(),
        number(x.clamped(low, high)) == held(number(x), number(low), number(high)),
{
    if number(x) < number(low) {
        lemma_number_order(x, low);
    } else {
        if number(low) < number(x) {
            lemma_number_order(low, x);
        } else {
            lemma_same_number(low, x);
        }
        if number(high) < number(x) {
            lemma_number_order(high, x);
        } else if number(x) < number(high) {
            lemma_number_order(x, high);
        } else {
            lemma_same_number(x, high);
        }
    }
}

/// The place of a wavelength among rows: how many steps it is from the start, but
/// never outside the rows.
pub open spec fn place(grid: Grid, len: nat, nm: Scalar) -> real {
    held(
        (number(nm) - number(grid.start)) / number(grid.step),
        0real,
        (len - 1) as real,
    )
}

/// A grid and a wavelength of ordinary size.
pub open spec fn is_ordinary_grid(grid: Grid, len: nat, nm: Scalar) -> bool {
    &&& grid.start.finite() && grid.step.finite() && nm.finite()
    &&& 1 <= len <= 2000
    &&& 1real <= number(grid.step) <= 100real
    &&& 0real <= number(grid.start) <= 2000real
    &&& 0real <= number(nm) <= 2000real
}

proof fn lemma_position_number(grid: Grid, len: nat, nm: Scalar)
    requires
        is_ordinary_grid(grid, len, nm),
    ensures
        position(grid, len, nm).finite(),
        0real <= number(position(grid, len, nm)) <= (len - 1) as real,
        size(number(position(grid, len, nm)) - place(grid, len, nm)) <= 1real / 2000real,
{
    assert(eps() == 1real / 16700000real);
    lemma_difference_close(nm, grid.start, 2000real);
    lemma_eps(2000real);
    let d = nm.difference(grid.start);
    let (x, y) = (number(d), number(grid.step));
    let exact = number(nm) - number(grid.start);
    let (z, q) = (x / y, exact / y);
    assert(z * y == x && q * y == exact) by (nonlinear_arith)
        requires
            z == x / y,
            q == exact / y,
            y > 0real,
    ;
    let e = z - q;
    assert(e * y == x - exact) by (nonlinear_arith)
        requires
            e == z - q,
            z * y == x,
            q * y == exact,
    ;
    assert(e <= 2000real / 16700000real && -e <= 2000real / 16700000real) by (nonlinear_arith)
        requires
            e * y <= 2000real / 16700000real,
            -(e * y) <= 2000real / 16700000real,
            y >= 1real,
    ;
    assert(q <= 2000real && -q <= 2000real) by (nonlinear_arith)
        requires
            q * y == exact,
            exact <= 2000real,
            -exact <= 2000real,
            y >= 1real,
    ;
    lemma_quotient_close(d, grid.step, 2001real);
    lemma_eps(2001real);
    lemma_integral_number(len - 1);
    lemma_number_sign(Scalar { bits: 0 });
    lemma_clamped_number(d.quotient(grid.step), Scalar { bits: 0 }, integral(len - 1));
}

/// One channel between two rows.
proof fn lemma_blended(a: Scalar, b: Scalar, f: Scalar, w: real, bound: real)
    requires
        a.finite() && b.finite() && f.finite(),
        1real / 1000real <= bound <= 1000000real,
        size(number(a)) <= bound,
        size(number(b)) <= bound,
        0real <= w <= 1real,
        size(number(f) - w) <= 1real / 16700000real,
    ensures
        close(
            a.sum(b.difference(a).product(f)),
            number(a) + w * (number(b) - number(a)),
            bound / 1000000real,
        ),
{
    assert(eps() == 1real / 16700000real);
    let (x, y, z) = (number(a), number(b), number(f));
    lemma_difference_close(b, a, 2real * bound);
    lemma_eps(2real * bound);
    let d = b.difference(a);
    let dn = number(d);
    let (g, h) = (dn - (y - x), z - w);
    let gap = y - x;
    lemma_small_product(dn, z, (201real / 100real) * bound, 101real / 100real);
    lemma_product_close(d, f, (204real / 100real) * bound);
    lemma_eps((204real / 100real) * bound);
    lemma_small_product(h, dn, 1real / 16700000real, (201real / 100real) * bound);
    lemma_small_product(g, w, 2real * bound / 16700000real, 1real);
    lemma_small_product(gap, w, 2real * bound, 1real);
    assert(dn * z == w * gap + g * w + h * dn) by (nonlinear_arith)
        requires
            g == dn - gap,
            h == z - w,
    ;
    assert(gap * w == w * gap) by (nonlinear_arith);
    lemma_sum_close(a, d.product(f), (32real / 10real) * bound);
    lemma_eps((32real / 10real) * bound);
}

/// The three values of a row are at most `bound` in size.
pub open spec fn is_row(c: Xyz, bound: real) -> bool {
    &&& c.x.finite() && c.y.finite() && c.z.finite()
    &&& size(number(c.x)) <= bound
    &&& size(number(c.y)) <= bound
    &&& size(number(c.z)) <= bound
}

/// A color on the line from `a` to `b`, `w` of the way.
pub open spec fn is_on_line(c: Xyz, a: Xyz, b: Xyz, w: real, e: real) -> bool {
    &&& close(c.x, number(a.x) + w * (number(b.x) - number(a.x)), e)
    &&& close(c.y, number(a.y) + w * (number(b.y) - number(a.y)), e)
    &&& close(c.z, number(a.z) + w * (number(b.z) - number(a.z)), e)
}

/// A sampled curve follows the straight lines between its rows: at `i` and `w`
/// steps from the start it is `w` of the way from row `i` to the next, and the
/// last row at its end.
pub proof fn lemma_curve_follows(grid: Grid, values: Seq<Xyz>, nm: Scalar, bound: real) -> (iw: (
    int,
    real,
))
    requires
        is_ordinary_grid(grid, values.len(), nm),
        1real / 1000real <= bound <= 1000000real,
        forall|i: int| 0 <= i < values.len() ==> is_row(#[trigger] values[i], bound),
    ensures
        ({
            let (i, w) = iw;
            let next = if i + 1 < values.len() {
                values[i + 1]
            } else {
                values[i]
            };
            &&& 0 <= i < values.len()
            &&& 0real <= w < 1real
            &&& size(i as real + w - place(grid, values.len(), nm)) <= 1real / 2000real
            &&& is_on_line(curve(grid, values, nm), values[i], next, w, bound / 1000000real)
        }),
{
    assert(eps() == 1real / 16700000real);
    let len = values.len();
    let f = position(grid, len, nm);
    lemma_position_number(grid, len, nm);
    lemma_whole_number(f);
    let i: int = whole_part(f);
    let w = number(f) - i as real;
    assert(i < len);
    assert(is_row(values[i], bound));
    if i + 1 >= len {
        assert(i == len - 1);
        assert(w == 0real);
        let c = values[i];
        assert(0real * (number(c.x) - number(c.x)) == 0real);
        assert(0real * (number(c.y) - number(c.y)) == 0real);
        assert(0real * (number(c.z) - number(c.z)) == 0real);
    } else {
        assert(is_row(values[i + 1], bound));
        lemma_integral_number(i);
        lemma_difference_close(f, integral(i), 1real);
        lemma_eps(1real);
        let frac = f.difference(integral(i));
        let (a, b) = (values[i], values[i + 1]);
        lemma_blended(a.x, b.x, frac, w, bound);
        lemma_blended(a.y, b.y, frac, w, bound);
        lemma_blended(a.z, b.z, frac, w, bound);
    }
    (i, w)
}

} // verus!
