//! The reflectance of a dielectric surface, by Fresnel's equations.
use crate::exact::eps;
use crate::exact::lemma_difference_close;
use crate::exact::lemma_product_close;
use crate::exact::lemma_quotient_close;
use crate::exact::lemma_root_close;
use crate::exact::lemma_sum_close;
use crate::exact::number;
use crate::exact::size;
use crate::fresnel::lemma_cosine_kept;
use crate::fresnel::lemma_half_number;
use crate::grazing::exact_contrast;
use crate::grazing::lemma_polarisations;
use crate::grazing::lemma_transmittance;
use crate::optics::contrast;
use crate::optics::reflectance;
use crate::optics::transmitted_sine;
use crate::optics::HALF_BITS;
use crate::projection::lemma_number_order;
use crate::scalar::Scalar;
use crate::scalar::ONE_BITS;
use crate::snell::lemma_small_product;
use crate::triple::lemma_eps;
use crate::triple::lemma_one_number;
use vstd::prelude::*;

verus! {

/// The index of a clear medium: from one to four.
pub open spec fn is_clear(n: Scalar) -> bool {
    n.finite() && 1real <= number(n) <= 4real
}

/// The squared cosine of transmission by Snell's law.
pub open spec fn passed_square(n1: real, n2: real, c: real) -> real {
    1real - ((n1 / n2) * (n1 / n2)) * (1real - c * c)
}

/// The squared sine of transmission, as it is computed.
proof fn lemma_sine(c: Scalar, n1: Scalar, n2: Scalar)
    requires
        is_clear(n1) && is_clear(n2),
        c.finite(),
        1real / 1000real <= number(c) <= 1real,
        passed_square(number(n1), number(n2), number(c)) >= 0real,
    ensures
        ({
            let s = transmitted_sine(n1.quotient(n2), c);
            &&& s.finite()
            &&& size(number(s) - (1real - passed_square(number(n1), number(n2), number(c))))
                <= 90real / 16700000real
        }),
{
    let e = 1real / 16700000real;
    assert(eps() == e);
    lemma_one_number();
    let one = Scalar { bits: ONE_BITS };
    let (a, b, x) = (number(n1), number(n2), number(c));
    let h = a / b;
    assert(h * b == a) by (nonlinear_arith)
        requires
            h == a / b,
            b > 0real,
    ;
    assert(1real / 4real <= h <= 4real) by (nonlinear_arith)
        requires
            h * b == a,
            1real <= a <= 4real,
            1real <= b <= 4real,
    ;
    lemma_quotient_close(n1, n2, 4real);
    lemma_eps(4real);
    let eta = n1.quotient(n2);
    let y = number(eta);
    let d = y - h;
    let (hh, yy) = (h * h, y * y);
    assert(yy == hh + d * (y + h)) by (nonlinear_arith)
        requires
            d == y - h,
            hh == h * h,
            yy == y * y,
    ;
    lemma_small_product(d, y + h, 4real * e, 801real / 100real);
    lemma_small_product(h, h, 4real, 4real);
    lemma_product_close(eta, eta, 161real / 10real);
    lemma_eps(161real / 10real);
    let p = number(eta.product(eta));
    let f = p - hh;
    assert(size(f) <= 49real * e);
    let xx = x * x;
    assert(0real <= xx <= 1real) by (nonlinear_arith)
        requires
            xx == x * x,
            0real <= x <= 1real,
    ;
    lemma_product_close(c, c, 1real);
    lemma_eps(1real);
    let q = c.product(c);
    lemma_difference_close(one, q, 101real / 100real);
    lemma_eps(101real / 100real);
    let m = one.difference(q);
    let (z, r) = (number(m), 1real - xx);
    let g = z - r;
    lemma_small_product(f, z, 49real * e, 101real / 100real);
    lemma_small_product(g, hh, (202real / 100real) * e, 16real);
    assert(p * z == hh * r + f * z + g * hh) by (nonlinear_arith)
        requires
            f == p - hh,
            g == z - r,
    ;
    lemma_small_product(hh, r, 16real, 1real);
    let hr = hh * r;
    assert(0real <= hr) by (nonlinear_arith)
        requires
            hr == hh * r,
            hh == h * h,
            r >= 0real,
    ;
    lemma_product_close(eta.product(eta), m, 2real);
    lemma_eps(2real);
}

/// The reflectance of a dielectric surface for unpolarised light is the mean of
/// Fresnel's two: with the cosine `c` of incidence and the cosine `w` of
/// transmission, the squares of `(n1 c - n2 w) / (n1 c + n2 w)` and of
/// `(n1 w - n2 c) / (n1 w + n2 c)`.
pub proof fn lemma_fresnel_equations(c: Scalar, n1: Scalar, n2: Scalar) -> (w: real)
    requires
        is_clear(n1) && is_clear(n2),
        c.finite(),
        1real / 1000real <= number(c) <= 1real,
        passed_square(number(n1), number(n2), number(c)) >= 1real / 1000real,
    ensures
        ({
            let (a, b, x) = (number(n1), number(n2), number(c));
            let (rs, rp) = (exact_contrast(a * x, b * w), exact_contrast(a * w, b * x));
            &&& w > 0real
            &&& size(w * w - passed_square(a, b, x)) <= 1real / 100000real
            &&& reflectance(c, n1, n2).finite()
            &&& size(number(reflectance(c, n1, n2)) - (rs * rs + rp * rp) / 2real) <= 1real
                / 1000000real
        }),
{
    let e = 1real / 16700000real;
    assert(eps() == e);
    lemma_one_number();
    lemma_half_number();
    lemma_cosine_kept(c);
    let one = Scalar { bits: ONE_BITS };
    let (a, b, x) = (number(n1), number(n2), number(c));
    let k = passed_square(a, b, x);
    assert(k <= 1real) by {
        let (hh, r) = ((a / b) * (a / b), 1real - x * x);
        assert(hh >= 0real) by (nonlinear_arith)
            requires
                hh == (a / b) * (a / b),
        ;
        assert(r >= 0real) by (nonlinear_arith)
            requires
                r == 1real - x * x,
                0real <= x <= 1real,
        ;
        assert(hh * r >= 0real) by (nonlinear_arith)
            requires
                hh >= 0real,
                r >= 0real,
        ;
    }
    lemma_sine(c, n1, n2);
    let s = transmitted_sine(n1.quotient(n2), c);
    lemma_number_order(s, one);
    lemma_difference_close(one, s, 101real / 100real);
    lemma_eps(101real / 100real);
    let t = one.difference(s);
    lemma_root_close(t);
    let ws = t.square_root();
    let (w, tn) = (number(ws), number(t));
    assert(2real * eps() * tn == tn / 8350000real) by (nonlinear_arith)
        requires
            eps() == 1real / 16700000real,
    ;
    assert(w <= 2real) by (nonlinear_arith)
        requires
            w * w <= 4real,
            w >= 0real,
    ;
    assert(w >= 1real / 100real) by (nonlinear_arith)
        requires
            w * w >= 9real / 10000real,
            w >= 0real,
    ;
    lemma_polarisations(c, ws, n1, n2);
    let (ax, bw, aw, bx) = (a * x, b * w, a * w, b * x);
    assert(ax > 0real && bw > 0real && aw > 0real && bx > 0real) by (nonlinear_arith)
        requires
            ax == a * x,
            bw == b * w,
            aw == a * w,
            bx == b * x,
            a > 0real,
            b > 0real,
            x > 0real,
            w > 0real,
    ;
    lemma_transmittance(ax, bw);
    lemma_transmittance(aw, bx);
    let (r1, r2) = (
        contrast(n1.product(c), n2.product(ws)),
        contrast(n1.product(ws), n2.product(c)),
    );
    lemma_eps(crate::grazing::transmittance(ax / bw));
    lemma_eps(crate::grazing::transmittance(aw / bx));
    lemma_sum_close(r1, r2, 21real / 10real);
    lemma_eps(21real / 10real);
    let half = Scalar { bits: HALF_BITS };
    let sum = r1.sum(r2);
    assert(number(half) * number(sum) == number(sum) / 2real) by (nonlinear_arith)
        requires
            number(half) == 1real / 2real,
    ;
    lemma_product_close(half, sum, 2real);
    lemma_eps(2real);
    w
}

} // verus!
