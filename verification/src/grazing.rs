//! How the reflectance behaves toward grazing incidence.
use crate::convert::one;
use crate::doubling::lemma_half_exact;
use crate::error::lemma_first_magnitudes;
use crate::exact::close;
use crate::exact::eps;
use crate::exact::lemma_difference_close;
use crate::exact::lemma_one;
use crate::exact::lemma_product_close;
use crate::exact::lemma_quotient_close;
use crate::exact::lemma_root_close;
use crate::exact::lemma_sum_close;
use crate::exact::number;
use crate::exact::size;
use crate::fresnel::lemma_below_one;
use crate::fresnel::lemma_cosine_kept;
use crate::optics::contrast;
use crate::optics::lemma_reflectance_bounded;
use crate::optics::reflectance;
use crate::optics::transmitted_sine;
use crate::optics::HALF_BITS;
use crate::scalar::lemma_magnitude_sign;
use crate::scalar::Scalar;
use crate::scalar::ONE_BITS;
use crate::snell::lemma_small_product;
use crate::triple::lemma_eps;
use crate::triple::lemma_one_number;
use vstd::arithmetic::power2::lemma2_to64;
use vstd::arithmetic::power2::lemma_pow2_adds;
use vstd::arithmetic::power2::lemma_pow2_pos;
use vstd::arithmetic::power2::pow2;
use vstd::prelude::*;

verus! {

/// What one polarisation transmits, as a function of the ratio of the two
/// projected indices: one less the squared contrast of the indices.
pub open spec fn transmittance(t: real) -> real {
    4real * t / ((1real + t) * (1real + t))
}

/// The contrast of two numbers.
pub open spec fn exact_contrast(a: real, b: real) -> real {
    (a - b) / (a + b)
}

/// Numbers that keep clear of underflow and of overflow.
pub open spec fn in_bounds(x: Scalar) -> bool {
    x.finite() && 1real / 100000000000000000000real <= number(x) <= 100000000000000000000real
}

/// A rounded quotient against the exact one, where numerator and denominator
/// are rounded too.
proof fn lemma_quotient_of_rounded(x: real, n: real, d: real, y: real, e: real)
    requires
        0real <= e <= 1real / 1000000real,
        size(x) <= 1real,
        size(n - x) <= e * size(x) + e / 1000000000real,
        size(d - 1real) <= e,
        y * d == n,
    ensures
        size(y - x) <= (20001real / 10000real) * (e * size(x)) + e / 500000000real,
{
    let a = size(x);
    let p = y * (d - 1real);
    assert(y == n - p) by (nonlinear_arith)
        requires
            y * d == n,
            p == y * (d - 1real),
    ;
    let b = size(y);
    assert(size(p) <= b * e) by (nonlinear_arith)
        requires
            p == y * (d - 1real),
            b == size(y),
            -e <= d - 1real <= e,
    ;
    assert(0real <= e * a <= a / 1000000real) by (nonlinear_arith)
        requires
            0real <= e <= 1real / 1000000real,
            a >= 0real,
    ;
    assert(b * e <= b / 1000000real) by (nonlinear_arith)
        requires
            0real <= e <= 1real / 1000000real,
            b >= 0real,
    ;
    // |y| <= |n| + |p| leaves |y| little more than |x|.
    assert(b <= a + 3real * (a / 1000000real) + e / 100000000real);
    assert(b * e <= (100001real / 100000real) * (e * a) + e / 1000000000000real)
        by (nonlinear_arith)
        requires
            b <= a + 3real * (a / 1000000real) + e / 100000000real,
            0real <= e <= 1real / 1000000real,
            a >= 0real,
    ;
}

/// The square of a number that is known to a little.
proof fn lemma_square_of_rounded(x: real, q: real, e: real)
    requires
        0real <= e <= 1real / 1000000real,
        size(x) <= 1real,
        size(q - x) <= (30003real / 10000real) * (e * size(x)) + e / 200000000real,
    ensures
        size(q * q - x * x) <= (6001real / 1000real) * (e * (x * x)) + e / 10000000real,
{
    let a = size(x);
    let d = q - x;
    let xx = x * x;
    assert(a * a == xx) by (nonlinear_arith)
        requires
            a == x || a == -x,
            xx == x * x,
    ;
    let l = (30003real / 10000real) * (e * a) + e / 200000000real;
    assert(q * q - xx == 2real * (x * d) + d * d) by (nonlinear_arith)
        requires
            d == q - x,
            xx == x * x,
    ;
    assert(size(x * d) <= a * l) by (nonlinear_arith)
        requires
            a == size(x),
            -l <= d <= l,
    ;
    assert(0real <= d * d <= l * l) by (nonlinear_arith)
        requires
            -l <= d <= l,
    ;
    let ea = e * a;
    assert(a * l == (30003real / 10000real) * (e * xx) + ea / 200000000real) by (nonlinear_arith)
        requires
            l == (30003real / 10000real) * (e * a) + e / 200000000real,
            a * a == xx,
            ea == e * a,
    ;
    assert(0real <= ea <= e) by (nonlinear_arith)
        requires
            ea == e * a,
            0real <= a <= 1real,
            e >= 0real,
    ;
    assert(l * l <= l / 200000real) by (nonlinear_arith)
        requires
            0real <= l <= 1real / 200000real,
    ;
    // The last part is linear in `e |x|`, and so must be split by the size of
    // `x`: either it is below the square, or `x` is below one.
    assert(l * l <= (1real / 10000real) * (e * xx) + e / 100000000real) by {
        lemma_square_of_bound(e, a, l);
    }
}

proof fn lemma_square_of_bound(e: real, a: real, l: real)
    requires
        0real <= e <= 1real / 1000000real,
        0real <= a <= 1real,
        l == (30003real / 10000real) * (e * a) + e / 200000000real,
    ensures
        l * l <= (1real / 10000real) * (e * (a * a)) + e / 100000000real,
{
    let ea = e * a;
    let (p, q) = ((30003real / 10000real) * ea, e / 200000000real);
    assert(l * l == p * p + 2real * (p * q) + q * q) by (nonlinear_arith)
        requires
            l == p + q,
    ;
    assert(p * p <= (1real / 10000real) * (e * (a * a))) by (nonlinear_arith)
        requires
            p == (30003real / 10000real) * ea,
            ea == e * a,
            0real <= e <= 1real / 1000000real,
    ;
    assert(0real <= p <= 1real / 100000real) by (nonlinear_arith)
        requires
            p == (30003real / 10000real) * ea,
            ea == e * a,
            0real <= e <= 1real / 1000000real,
            0real <= a <= 1real,
    ;
    assert(p * q <= q / 100000real && q * q <= q / 100000real) by (nonlinear_arith)
        requires
            0real <= p <= 1real / 100000real,
            0real <= q <= 1real / 100000real,
    ;
}

/// A squared contrast, as it is rounded.
pub proof fn lemma_contrast_close(a: Scalar, b: Scalar)
    requires
        in_bounds(a),
        in_bounds(b),
    ensures
        ({
            let x = exact_contrast(number(a), number(b));
            &&& size(x) <= 1real
            &&& close(
                contrast(a, b),
                x * x,
                (7002real / 1000real) * (eps() * (x * x)) + eps() / 1000000real,
            )
        }),
{
    let e = eps();
    assert(e == 1real / 16700000real);
    let (p, q) = (number(a), number(b));
    let s = p + q;
    let x = exact_contrast(p, q);
    assert(x * s == p - q) by (nonlinear_arith)
        requires
            x == (p - q) / s,
            s > 0real,
    ;
    assert(-1real <= x <= 1real) by (nonlinear_arith)
        requires
            x * s == p - q,
            s == p + q,
            p > 0real,
            q > 0real,
    ;
    let low = s / 1000000000real;
    let (num, den) = (a.difference(b), a.sum(b));
    let wide = size(p - q) + low;
    lemma_difference_close(a, b, wide);
    lemma_eps(wide);
    lemma_sum_close(a, b, s);
    lemma_eps(s);
    let (nn, dd) = (number(num), number(den));
    let y = nn / dd;
    assert(y * dd == nn) by (nonlinear_arith)
        requires
            y == nn / dd,
            dd > 0real,
    ;
    lemma_scaled_parts(x, nn, dd, y, s, e);
    let (n1, d1) = (nn / s, dd / s);
    lemma_quotient_of_rounded(x, n1, d1, y, e);
    let ax = size(x);
    assert(0real <= e * ax <= e) by (nonlinear_arith)
        requires
            e > 0real,
            0real <= ax <= 1real,
    ;
    let bound = size(y) + 1real / 1000000000real;
    lemma_quotient_close(num, den, bound);
    lemma_eps(bound);
    let quo = num.quotient(den);
    let z = number(quo);
    assert(e * size(y) <= e * ax + e / 1000000real) by (nonlinear_arith)
        requires
            size(y) <= ax + 1real / 1000000real,
            e > 0real,
    ;
    assert(size(z - x) <= (30003real / 10000real) * (e * ax) + e / 200000000real) by {
        lemma_quotient_total(x, y, z, e);
    }
    lemma_square_of_rounded(x, z, e);
    let (xx, zz) = (x * x, z * z);
    assert(0real <= xx <= 1real) by (nonlinear_arith)
        requires
            xx == x * x,
            -1real <= x <= 1real,
    ;
    assert(zz >= 0real) by (nonlinear_arith)
        requires
            zz == z * z,
    ;
    assert(e * xx == xx / 16700000real) by (nonlinear_arith)
        requires
            e == 1real / 16700000real,
    ;
    let last = zz + 1real / 1000000000real;
    lemma_product_close(quo, quo, last);
    lemma_eps(last);
}

proof fn lemma_quotient_total(x: real, y: real, z: real, e: real)
    requires
        0real < e <= 1real / 1000000real,
        size(x) <= 1real,
        size(y - x) <= (20001real / 10000real) * (e * size(x)) + e / 500000000real,
        size(z - y) <= e * (size(y) + 1real / 1000000000real),
    ensures
        size(z - x) <= (30003real / 10000real) * (e * size(x)) + e / 200000000real,
{
    let (a, b) = (size(x), size(y));
    let ea = e * a;
    assert(0real <= ea <= a / 1000000real) by (nonlinear_arith)
        requires
            ea == e * a,
            0real < e <= 1real / 1000000real,
            a >= 0real,
    ;
    assert(e * (b + 1real / 1000000000real) <= (10001real / 10000real) * ea + e
        / 1000000000real + e / 10000000000real) by (nonlinear_arith)
        requires
            b <= a + a / 100000real + 1real / 100000000000000real,
            ea == e * a,
            0real < e,
            a >= 0real,
    ;
}

/// Numerator and denominator in units of the exact denominator.
proof fn lemma_scaled_parts(x: real, nn: real, dd: real, y: real, s: real, e: real)
    requires
        s > 0real,
        e == 1real / 16700000real,
        size(nn - x * s) <= (size(x * s) + s / 1000000000real) / 16700000real,
        size(dd - s) <= s / 16700000real,
        y * dd == nn,
    ensures
        size(nn / s - x) <= e * size(x) + e / 1000000000real,
        size(dd / s - 1real) <= e,
        y * (dd / s) == nn / s,
{
    let (n, d) = (nn / s, dd / s);
    assert(n * s == nn && d * s == dd) by (nonlinear_arith)
        requires
            n == nn / s,
            d == dd / s,
            s > 0real,
    ;
    let a = size(x);
    assert(size(x * s) == a * s) by (nonlinear_arith)
        requires
            a == size(x),
            s > 0real,
    ;
    let f = n - x;
    assert(f * s == nn - x * s) by (nonlinear_arith)
        requires
            n * s == nn,
            f == n - x,
    ;
    assert(size(f) <= e * a + e / 1000000000real) by (nonlinear_arith)
        requires
            -((a * s + s / 1000000000real) / 16700000real) <= f * s <= (a * s + s / 1000000000real)
                / 16700000real,
            e == 1real / 16700000real,
            s > 0real,
    ;
    let g = d - 1real;
    assert(-e <= g <= e) by (nonlinear_arith)
        requires
            g == d - 1real,
            -(s / 16700000real) <= d * s - s <= s / 16700000real,
            e == 1real / 16700000real,
            s > 0real,
    ;
    assert(y * d == n) by (nonlinear_arith)
        requires
            y * dd == nn,
            n * s == nn,
            d * s == dd,
            s > 0real,
    ;
}

/// The contrast and the transmittance of two numbers.
pub proof fn lemma_transmittance(a: real, b: real)
    requires
        a > 0real,
        b > 0real,
    ensures
        exact_contrast(a, b) * exact_contrast(a, b) == 1real - transmittance(a / b),
        0real < transmittance(a / b) <= 1real,
{
    let x = exact_contrast(a, b);
    let s = a + b;
    let t = a / b;
    let r = transmittance(t);
    assert(t * b == a && t > 0real) by (nonlinear_arith)
        requires
            t == a / b,
            a > 0real,
            b > 0real,
    ;
    let o = 1real + t;
    assert(o * b == s) by (nonlinear_arith)
        requires
            o == 1real + t,
            t * b == a,
            s == a + b,
    ;
    assert(x * s == a - b) by (nonlinear_arith)
        requires
            x == (a - b) / s,
            s > 0real,
    ;
    assert(x * o == t - 1real) by (nonlinear_arith)
        requires
            x * s == a - b,
            o * b == s,
            t * b == a,
            b > 0real,
    ;
    let oo = o * o;
    assert(oo > 0real) by (nonlinear_arith)
        requires
            oo == o * o,
            o > 0real,
    ;
    assert(r * oo == 4real * t) by (nonlinear_arith)
        requires
            r == 4real * t / oo,
            oo > 0real,
    ;
    let xx = x * x;
    assert(xx * oo == (t - 1real) * (t - 1real)) by (nonlinear_arith)
        requires
            xx == x * x,
            oo == o * o,
            x * o == t - 1real,
    ;
    assert((t - 1real) * (t - 1real) == oo - 4real * t) by (nonlinear_arith)
        requires
            oo == o * o,
            o == 1real + t,
    ;
    let z = xx - (1real - r);
    assert(z == 0real) by (nonlinear_arith)
        requires
            z == xx - (1real - r),
            xx * oo == oo - r * oo,
            oo > 0real,
    ;
    assert(r > 0real) by (nonlinear_arith)
        requires
            r * oo == 4real * t,
            t > 0real,
            oo > 0real,
    ;
    assert(xx >= 0real) by (nonlinear_arith)
        requires
            xx == x * x,
    ;
}

/// Ratios that differ little have transmittances that differ as little.
pub proof fn lemma_transmittance_near(t: real, u: real, f: real)
    requires
        t > 0real,
        u > 0real,
        f >= 1real,
        u <= f * t,
        t <= f * u,
    ensures
        transmittance(u) <= f * transmittance(t),
{
    let (r, q) = (transmittance(t), transmittance(u));
    let (tt, uu) = ((1real + t) * (1real + t), (1real + u) * (1real + u));
    assert(tt > 0real && uu > 0real) by (nonlinear_arith)
        requires
            tt == (1real + t) * (1real + t),
            uu == (1real + u) * (1real + u),
            t > 0real,
            u > 0real,
    ;
    assert(r * tt == 4real * t && q * uu == 4real * u) by (nonlinear_arith)
        requires
            r == 4real * t / tt,
            q == 4real * u / uu,
            tt > 0real,
            uu > 0real,
    ;
    // Term by term: u (1 + t)^2 <= f t (1 + u)^2.
    let ut = u * t;
    assert(ut > 0real) by (nonlinear_arith)
        requires
            ut == u * t,
            u > 0real,
            t > 0real,
    ;
    assert(ut <= f * ut && ut * t <= f * (ut * u)) by (nonlinear_arith)
        requires
            ut > 0real,
            f >= 1real,
            t <= f * u,
    ;
    assert(u * tt == u + 2real * ut + ut * t) by (nonlinear_arith)
        requires
            tt == (1real + t) * (1real + t),
            ut == u * t,
    ;
    assert(f * (t * uu) == f * t + 2real * (f * ut) + f * (ut * u)) by (nonlinear_arith)
        requires
            uu == (1real + u) * (1real + u),
            ut == u * t,
    ;
    let (a, b) = (u * tt, t * uu);
    assert(a <= f * b);
    let p = tt * uu;
    assert(q * p == 4real * a) by (nonlinear_arith)
        requires
            q * uu == 4real * u,
            p == tt * uu,
            a == u * tt,
    ;
    assert(r * p == 4real * b) by (nonlinear_arith)
        requires
            r * tt == 4real * t,
            p == tt * uu,
            b == t * uu,
    ;
    assert(p > 0real) by (nonlinear_arith)
        requires
            p == tt * uu,
            tt > 0real,
            uu > 0real,
    ;
    let z = f * r - q;
    assert(z * p == 4real * (f * b) - 4real * a) by (nonlinear_arith)
        requires
            z == f * r - q,
            q * p == 4real * a,
            r * p == 4real * b,
    ;
    assert(z >= 0real) by (nonlinear_arith)
        requires
            z * p >= 0real,
            p > 0real,
    ;
}

/// What glass of index 1.5 transmits of unpolarised light, as a function of the
/// ratio of the two cosines.
pub open spec fn glass_transmittance(x: real) -> real {
    (transmittance(2real * x / 3real) + transmittance(3real * x / 2real)) / 2real
}

/// The transmittance in closed form, over the ratio `r` of the cosines' ratio to
/// a polynomial of it.
proof fn lemma_closed_form(x: real) -> (r: real)
    requires
        x > 0real,
    ensures
        r * (3real / 2real + (13real / 4real) * x + (3real / 2real) * (x * x)) == x,
        0real < r <= 4real / 25real,
        glass_transmittance(x) == (13real / 2real) * r - (25real / 8real) * (r * r),
{
    let (u, v) = (2real * x / 3real, 3real * x / 2real);
    let (uu, vv) = ((1real + u) * (1real + u), (1real + v) * (1real + v));
    let (a, b) = (transmittance(u), transmittance(v));
    let xx = x * x;
    assert(xx > 0real) by (nonlinear_arith)
        requires
            xx == x * x,
            x > 0real,
    ;
    assert(uu == 1real + (4real / 3real) * x + (4real / 9real) * xx && vv == 1real + 3real * x + (
    9real / 4real) * xx) by (nonlinear_arith)
        requires
            uu == (1real + u) * (1real + u),
            vv == (1real + v) * (1real + v),
            u == 2real * x / 3real,
            v == 3real * x / 2real,
            xx == x * x,
    ;
    assert(a * uu == 4real * u && b * vv == 4real * v) by (nonlinear_arith)
        requires
            a == 4real * u / uu,
            b == 4real * v / vv,
            uu > 0real,
            vv > 0real,
    ;
    // With p = 3/2 + x and q = 1 + 3x/2: a p^2 = b q^2 = 6x.
    let (pp, qq) = ((9real / 4real) * uu, vv);
    let d = 3real / 2real + (13real / 4real) * x + (3real / 2real) * xx;
    assert(a * pp == 6real * x && b * qq == 6real * x) by (nonlinear_arith)
        requires
            a * uu == 4real * u,
            b * vv == 4real * v,
            pp == (9real / 4real) * uu,
            qq == vv,
            u == 2real * x / 3real,
            v == 3real * x / 2real,
    ;
    assert(pp * qq == d * d) by (nonlinear_arith)
        requires
            pp == 9real / 4real + 3real * x + xx,
            qq == 1real + 3real * x + (9real / 4real) * xx,
            d == 3real / 2real + (13real / 4real) * x + (3real / 2real) * xx,
            xx == x * x,
    ;
    let r = x / d;
    assert(r * d == x && r > 0real) by (nonlinear_arith)
        requires
            r == x / d,
            d > 0real,
            x > 0real,
    ;
    assert(3real / 2real + (3real / 2real) * xx >= 3real * x) by (nonlinear_arith)
        requires
            xx == x * x,
    ;
    assert(r <= 4real / 25real) by (nonlinear_arith)
        requires
            r * d == x,
            d >= (25real / 4real) * x,
            r > 0real,
            x > 0real,
    ;
    let h = a + b;
    let dd = d * d;
    assert(h * dd == 6real * (x * (pp + qq))) by (nonlinear_arith)
        requires
            h == a + b,
            dd == pp * qq,
            a * pp == 6real * x,
            b * qq == 6real * x,
    ;
    assert(pp + qq == (13real / 6real) * d - (25real / 24real) * x);
    let w = 13real * r - (25real / 4real) * (r * r);
    assert(w * dd == 13real * (x * d) - (25real / 4real) * xx) by (nonlinear_arith)
        requires
            w == 13real * r - (25real / 4real) * (r * r),
            dd == d * d,
            r * d == x,
            xx == x * x,
    ;
    assert(6real * (x * (pp + qq)) == 13real * (x * d) - (25real / 4real) * xx) by (nonlinear_arith)
        requires
            pp + qq == (13real / 6real) * d - (25real / 24real) * x,
            xx == x * x,
    ;
    let z = h - w;
    assert(dd > 0real) by (nonlinear_arith)
        requires
            dd == d * d,
            d > 0real,
    ;
    assert(z == 0real) by (nonlinear_arith)
        requires
            z == h - w,
            h * dd == w * dd,
            dd > 0real,
    ;
    r
}

/// Up to normal incidence the transmittance grows with the ratio of the
/// cosines.
proof fn lemma_transmittance_grows(x: real, y: real)
    requires
        0real < x <= y,
        x * y <= 1real,
    ensures
        glass_transmittance(x) <= glass_transmittance(y),
{
    let r = lemma_closed_form(x);
    let s = lemma_closed_form(y);
    let (xx, yy) = (x * x, y * y);
    let c = 3real / 2real + (13real / 4real) * x + (3real / 2real) * xx;
    let d = 3real / 2real + (13real / 4real) * y + (3real / 2real) * yy;
    let (p, q) = (y - x, 1real - x * y);
    assert(y * c - x * d == (3real / 2real) * (p * q)) by (nonlinear_arith)
        requires
            c == 3real / 2real + (13real / 4real) * x + (3real / 2real) * xx,
            d == 3real / 2real + (13real / 4real) * y + (3real / 2real) * yy,
            xx == x * x,
            yy == y * y,
            p == y - x,
            q == 1real - x * y,
    ;
    assert(p * q >= 0real) by (nonlinear_arith)
        requires
            p >= 0real,
            q >= 0real,
    ;
    assert(xx >= 0real && yy >= 0real) by (nonlinear_arith)
        requires
            xx == x * x,
            yy == y * y,
    ;
    let z = s - r;
    let cd = c * d;
    assert(cd > 0real) by (nonlinear_arith)
        requires
            cd == c * d,
            c > 0real,
            d > 0real,
    ;
    assert(z * cd == y * c - x * d) by (nonlinear_arith)
        requires
            z == s - r,
            cd == c * d,
            r * c == x,
            s * d == y,
    ;
    assert(z >= 0real) by (nonlinear_arith)
        requires
            z * cd >= 0real,
            cd > 0real,
    ;
    let k = 13real / 2real - (25real / 8real) * (r + s);
    assert((13real / 2real) * s - (25real / 8real) * (s * s) - ((13real / 2real) * r - (25real
        / 8real) * (r * r)) == z * k) by (nonlinear_arith)
        requires
            z == s - r,
            k == 13real / 2real - (25real / 8real) * (r + s),
    ;
    assert(z * k >= 0real) by (nonlinear_arith)
        requires
            z >= 0real,
            k >= 0real,
    ;
}

/// A ratio of numbers that are known to a little.
pub proof fn lemma_ratio_near(a: real, b: real, c: real, d: real, e: real)
    requires
        c > 0real,
        d > 0real,
        0real <= e <= 1real / 1000000real,
        size(a - c) <= e * c,
        size(b - d) <= e * d,
    ensures
        a > 0real,
        b > 0real,
        a / b <= (1real + (202real / 100real) * e) * (c / d),
        c / d <= (1real + (202real / 100real) * e) * (a / b),
{
    assert(e * c <= c / 1000000real && e * d <= d / 1000000real) by (nonlinear_arith)
        requires
            c > 0real,
            d > 0real,
            e <= 1real / 1000000real,
    ;
    lemma_ratio_above(a, b, c, d, e);
    let (p, q) = (1real - e, 1real + e);
    lemma_ratio_above_back(a, b, c, d, e);
}

proof fn lemma_ratio_above(a: real, b: real, c: real, d: real, e: real)
    requires
        a > 0real,
        b > 0real,
        c > 0real,
        d > 0real,
        0real <= e <= 1real / 1000000real,
        a - c <= e * c,
        d - b <= e * d,
    ensures
        a / b <= (1real + (202real / 100real) * e) * (c / d),
{
    let (u, t) = (a / b, c / d);
    assert(u * b == a && t * d == c && t > 0real) by (nonlinear_arith)
        requires
            u == a / b,
            t == c / d,
            b > 0real,
            d > 0real,
            c > 0real,
    ;
    let (p, q) = (1real - e, 1real + e);
    assert(p * d <= b && a <= q * c) by (nonlinear_arith)
        requires
            a - c <= e * c,
            d - b <= e * d,
            p == 1real - e,
            q == 1real + e,
    ;
    let w = q * t;
    assert(q * c == w * d) by (nonlinear_arith)
        requires
            w == q * t,
            t * d == c,
    ;
    assert(w > 0real) by (nonlinear_arith)
        requires
            w == q * t,
            q > 0real,
            t > 0real,
    ;
    assert(p * (w * d) <= w * b) by (nonlinear_arith)
        requires
            p * d <= b,
            w > 0real,
    ;
    assert(p * (u * b) <= w * b) by (nonlinear_arith)
        requires
            u * b <= w * d,
            p * (w * d) <= w * b,
            p > 0real,
    ;
    let z = w - p * u;
    assert(z >= 0real) by (nonlinear_arith)
        requires
            z == w - p * u,
            p * (u * b) <= w * b,
            b > 0real,
    ;
    let f = 1real + (202real / 100real) * e;
    assert(q <= f * p) by (nonlinear_arith)
        requires
            f == 1real + (202real / 100real) * e,
            p == 1real - e,
            q == 1real + e,
            0real <= e <= 1real / 1000000real,
    ;
    assert(w <= (f * p) * t) by (nonlinear_arith)
        requires
            w == q * t,
            q <= f * p,
            t > 0real,
    ;
    let y = f * t - u;
    assert(p * y >= 0real) by (nonlinear_arith)
        requires
            y == f * t - u,
            p * u <= (f * p) * t,
    ;
    assert(y >= 0real) by (nonlinear_arith)
        requires
            p * y >= 0real,
            p > 0real,
    ;
}

proof fn lemma_ratio_above_back(a: real, b: real, c: real, d: real, e: real)
    requires
        a > 0real,
        b > 0real,
        c > 0real,
        d > 0real,
        0real <= e <= 1real / 1000000real,
        c - a <= e * c,
        b - d <= e * d,
    ensures
        c / d <= (1real + (202real / 100real) * e) * (a / b),
{
    let (u, t) = (a / b, c / d);
    assert(u * b == a && t * d == c && u > 0real) by (nonlinear_arith)
        requires
            u == a / b,
            t == c / d,
            b > 0real,
            d > 0real,
            a > 0real,
    ;
    let (p, q) = (1real - e, 1real + e);
    assert(b <= q * d && p * c <= a) by (nonlinear_arith)
        requires
            c - a <= e * c,
            b - d <= e * d,
            p == 1real - e,
            q == 1real + e,
    ;
    assert(u * b <= u * (q * d)) by (nonlinear_arith)
        requires
            b <= q * d,
            u > 0real,
    ;
    assert((p * t) * d <= (q * u) * d) by (nonlinear_arith)
        requires
            p * (t * d) <= u * (q * d),
    ;
    let z = q * u - p * t;
    assert(z >= 0real) by (nonlinear_arith)
        requires
            z == q * u - p * t,
            (p * t) * d <= (q * u) * d,
            d > 0real,
    ;
    let f = 1real + (202real / 100real) * e;
    assert(q <= f * p) by (nonlinear_arith)
        requires
            f == 1real + (202real / 100real) * e,
            p == 1real - e,
            q == 1real + e,
            0real <= e <= 1real / 1000000real,
    ;
    assert(q * u <= (f * p) * u) by (nonlinear_arith)
        requires
            q <= f * p,
            u > 0real,
    ;
    let y = f * u - t;
    assert(p * y >= 0real) by (nonlinear_arith)
        requires
            y == f * u - t,
            p * t <= (f * p) * u,
    ;
    assert(y >= 0real) by (nonlinear_arith)
        requires
            p * y >= 0real,
            p > 0real,
    ;
}

/// What one polarisation reflects, as it is rounded.
pub proof fn lemma_polarisation(a: Scalar, b: Scalar, t: real)
    requires
        in_bounds(a),
        in_bounds(b),
        t > 0real,
        number(a) / number(b) <= (1real + (202real / 100real) * eps()) * t,
        t <= (1real + (202real / 100real) * eps()) * (number(a) / number(b)),
    ensures
        contrast(a, b).finite(),
        0real < transmittance(t) <= 1real,
        size(number(contrast(a, b)) - (1real - transmittance(t))) <= (7003real / 1000real) * eps()
            - (497real / 100real) * (transmittance(t) * eps()),
{
    let e = eps();
    assert(e == 1real / 16700000real);
    let f = 1real + (202real / 100real) * e;
    let (p, q) = (number(a), number(b));
    let u = p / q;
    assert(u > 0real) by (nonlinear_arith)
        requires
            u == p / q,
            p > 0real,
            q > 0real,
    ;
    lemma_contrast_close(a, b);
    lemma_transmittance(p, q);
    let x = exact_contrast(p, q);
    let xx = x * x;
    let (r, s) = (transmittance(t), transmittance(u));
    lemma_transmittance_near(t, u, f);
    lemma_transmittance_near(u, t, f);
    assert(f * r == r + (202real / 100real) * (r / 16700000real) && f * s == s + (202real / 100real)
        * (s / 16700000real)) by (nonlinear_arith)
        requires
            f == 1real + (202real / 100real) * (1real / 16700000real),
    ;
    assert(t / 1real == t) by (nonlinear_arith);
    lemma_transmittance(t, 1real);
    assert(e * xx == xx / 16700000real) by (nonlinear_arith)
        requires
            e == 1real / 16700000real,
    ;
    lemma_eps(r);
}

/// An index of a medium, in a range that leaves room for products.
pub open spec fn is_index(n: Scalar) -> bool {
    n.finite() && 1real / 1000000000000000real <= number(n) <= 1000000000000000real
}

/// A cosine away from zero.
pub open spec fn is_cosine(c: Scalar) -> bool {
    c.finite() && 1real / 10000real <= number(c) <= 2real
}

proof fn lemma_projected(n: Scalar, c: Scalar)
    requires
        is_index(n),
        is_cosine(c),
    ensures
        in_bounds(n.product(c)),
        number(n) * number(c) > 0real,
        size(number(n.product(c)) - number(n) * number(c)) <= eps() * (number(n) * number(c)),
{
    let (x, y) = (number(n), number(c));
    let p = x * y;
    assert(x / 10000real <= p <= 2real * x) by (nonlinear_arith)
        requires
            p == x * y,
            x > 0real,
            1real / 10000real <= y <= 2real,
    ;
    lemma_product_close(n, c, p);
    lemma_eps(p);
    assert(eps() * p == p * eps()) by (nonlinear_arith);
}

/// Both polarisations, as they are rounded, at a cosine `c` of incidence and a
/// cosine `w` of transmission.
pub proof fn lemma_polarisations(c: Scalar, w: Scalar, n1: Scalar, n2: Scalar)
    requires
        is_index(n1),
        is_index(n2),
        is_cosine(c),
        is_cosine(w),
    ensures
        ({
            let rs = contrast(n1.product(c), n2.product(w));
            let rp = contrast(n1.product(w), n2.product(c));
            let ts = transmittance((number(n1) * number(c)) / (number(n2) * number(w)));
            let tp = transmittance((number(n1) * number(w)) / (number(n2) * number(c)));
            &&& rs.finite() && rp.finite()
            &&& 0real < ts <= 1real && 0real < tp <= 1real
            &&& size(number(rs) - (1real - ts)) <= (7003real / 1000real) * eps() - (497real
                / 100real) * (ts * eps())
            &&& size(number(rp) - (1real - tp)) <= (7003real / 1000real) * eps() - (497real
                / 100real) * (tp * eps())
        }),
{
    assert(eps() == 1real / 16700000real);
    let (m, n, x, y) = (number(n1), number(n2), number(c), number(w));
    lemma_projected(n1, c);
    lemma_projected(n2, w);
    lemma_projected(n1, w);
    lemma_projected(n2, c);
    let (a, b) = (n1.product(c), n2.product(w));
    lemma_ratio_near(number(a), number(b), m * x, n * y, eps());
    lemma_positive_ratio(m * x, n * y);
    lemma_polarisation(a, b, (m * x) / (n * y));
    let (c2, d2) = (n1.product(w), n2.product(c));
    lemma_ratio_near(number(c2), number(d2), m * y, n * x, eps());
    lemma_positive_ratio(m * y, n * x);
    lemma_polarisation(c2, d2, (m * y) / (n * x));
}

proof fn lemma_positive_ratio(a: real, b: real)
    requires
        a > 0real,
        b > 0real,
    ensures
        a / b > 0real,
{
    assert(a / b > 0real) by (nonlinear_arith)
        requires
            a > 0real,
            b > 0real,
    ;
}

/// Encoding of 1.5, the index of a common glass.
pub const COMMON_GLASS_BITS: u32 = 0x3fc0_0000;

proof fn lemma_common_glass()
    ensures
        (Scalar { bits: COMMON_GLASS_BITS }).finite(),
        number(Scalar { bits: COMMON_GLASS_BITS }) == 3real / 2real,
{
    reveal(number);
    lemma2_to64();
    lemma_pow2_adds(23, 126);
    lemma_pow2_pos(149);
    let n = Scalar { bits: COMMON_GLASS_BITS };
    let p: int = pow2(126) as int;
    assert(n.value() == 0xc0_0000 * p);
    assert(2 * n.value() == 3 * one());
    let (v, o) = (n.value() as real, one() as real);
    assert((2 * n.value()) as real == 2real * v && (3 * one()) as real == 3real * o);
    assert(v / o == 3real / 2real) by (nonlinear_arith)
        requires
            2real * v == 3real * o,
            o > 0real,
    ;
}

/// The cosine of transmission into glass, as it is computed.
proof fn lemma_cosine_in_glass(c: Scalar)
    requires
        c.finite(),
        1real / 1000real <= number(c) <= 1real,
    ensures
        ({
            let s = transmitted_sine(
                (Scalar { bits: ONE_BITS }).quotient(Scalar { bits: COMMON_GLASS_BITS }),
                c,
            );
            let w = (Scalar { bits: ONE_BITS }).difference(s).square_root();
            let k = 5real / 9real + (4real / 9real) * (number(c) * number(c));
            &&& !(Scalar { bits: ONE_BITS }).at_most(s)
            &&& w.finite()
            &&& number(w) > 0real
            &&& size(number(w) * number(w) - k) <= (79real / 10real) * (k / 16700000real)
            &&& 5real / 9real <= k <= 1real
        }),
{
    let e = 1real / 16700000real;
    assert(eps() == e);
    lemma_one_number();
    lemma_common_glass();
    let unit = Scalar { bits: ONE_BITS };
    let eta = unit.quotient(Scalar { bits: COMMON_GLASS_BITS });
    assert(1real / (3real / 2real) == 2real / 3real) by (nonlinear_arith);
    lemma_quotient_close(unit, Scalar { bits: COMMON_GLASS_BITS }, 2real / 3real);
    lemma_eps(2real / 3real);
    let h = number(eta);
    let d = h - 2real / 3real;
    assert(size(d) <= (2real / 3real) * e);
    let hh = h * h;
    assert(hh == 4real / 9real + (4real / 3real) * d + d * d) by (nonlinear_arith)
        requires
            hh == h * h,
            d == h - 2real / 3real,
    ;
    assert(0real <= d * d <= e / 1000real) by (nonlinear_arith)
        requires
            -e <= d <= e,
            e == 1real / 16700000real,
    ;
    assert(size(hh - 4real / 9real) <= (89real / 100real) * e);
    lemma_product_close(eta, eta, 4445real / 10000real);
    lemma_eps(4445real / 10000real);
    let p = eta.product(eta);
    let pn = number(p);
    assert(size(pn - 4real / 9real) <= (1335real / 1000real) * e);
    let x = number(c);
    let xx = x * x;
    assert(0real < xx <= 1real && xx >= 1real / 1000000real) by (nonlinear_arith)
        requires
            xx == x * x,
            1real / 1000real <= x <= 1real,
    ;
    lemma_product_close(c, c, xx);
    lemma_eps(xx);
    let q = c.product(c);
    let bound = 1real - xx + 1real / 1000real;
    lemma_difference_close(unit, q, bound);
    lemma_eps(bound);
    let m = unit.difference(q);
    let mn = number(m);
    let z = 1real - xx;
    assert(size(mn - z) <= (1002real / 1000real) * e);
    lemma_small_product(pn - 4real / 9real, mn, (1335real / 1000real) * e, 1001real / 1000real);
    assert(pn * mn == (4real / 9real) * mn + (pn - 4real / 9real) * mn) by (nonlinear_arith);
    assert(size(pn * mn - (4real / 9real) * z) <= (1782real / 1000real) * e);
    lemma_product_close(p, m, 45real / 100real);
    lemma_eps(45real / 100real);
    let s = p.product(m);
    assert(size(number(s) - (4real / 9real) * z) <= (2233real / 1000real) * e);
    let k = 5real / 9real + (4real / 9real) * xx;
    lemma_difference_close(unit, s, 1real + 1real / 1000real);
    lemma_eps(1real + 1real / 1000real);
    let g = unit.difference(s);
    assert(size(number(g) - k) <= (3235real / 1000real) * e);
    lemma_below_one(s);
    lemma_root_close(g);
    let w = number(g.square_root());
    assert(2real * eps() * number(g) == number(g) / 8350000real) by (nonlinear_arith)
        requires
            eps() == 1real / 16700000real,
    ;
    assert(w > 0real) by (nonlinear_arith)
        requires
            w * w > 0real,
            w >= 0real,
    ;
}

/// The transmittance is the same from either side.
proof fn lemma_transmittance_reciprocal(a: real, b: real)
    requires
        a > 0real,
        b > 0real,
    ensures
        transmittance(a / b) == transmittance(b / a),
{
    lemma_transmittance(a, b);
    lemma_transmittance(b, a);
    let (x, y) = (exact_contrast(a, b), exact_contrast(b, a));
    let s = a + b;
    assert(y == -x) by (nonlinear_arith)
        requires
            x == (a - b) / s,
            y == (b - a) / s,
            s > 0real,
    ;
    assert(y * y == x * x) by (nonlinear_arith)
        requires
            y == -x,
    ;
}

/// A number that is not tiny has room to be halved.
proof fn lemma_not_tiny(x: Scalar)
    requires
        x.finite(),
        number(x) >= 1real / 1000real,
    ensures
        x.unsigned_bits() >= 0x100_0000,
{
    reveal(number);
    lemma_one();
    let m: int = x.unsigned_bits();
    if m < 0x100_0000 {
        lemma_first_magnitudes(m);
        lemma_first_magnitudes(0x100_0000);
        let (v, o) = (x.value() as real, one() as real);
        assert(v <= 16777216real);
        assert(v / o < 1real / 1000real) by (nonlinear_arith)
            requires
                v <= 16777216real,
                o > 100000000000real,
        ;
    }
}

/// The mean of two numbers, of which only the sum is rounded.
proof fn lemma_mean_close(x: Scalar, y: Scalar, bound: real)
    requires
        x.finite(),
        y.finite(),
        1real / 100real <= number(x) + number(y) <= bound,
        bound <= 10real,
    ensures
        ({
            let r = (Scalar { bits: HALF_BITS }).product(x.sum(y));
            r.finite() && size(2real * number(r) - (number(x) + number(y))) <= bound / 16700000real
        }),
{
    lemma_sum_close(x, y, bound);
    lemma_eps(bound);
    let s = x.sum(y);
    lemma_not_tiny(s);
    lemma_half_exact(s);
    let r = (Scalar { bits: HALF_BITS }).product(s);
    assert(2real * number(r) == number(s)) by {
        reveal(number);
        lemma_one();
        let (v, w, o) = (s.value() as real, r.value() as real, one() as real);
        assert((2 * r.value()) as real == 2real * w);
        assert(2real * (w / o) == v / o) by (nonlinear_arith)
            requires
                v == 2real * w,
                o > 0real,
        ;
    }
}

/// The reflectance of glass, as it is computed: one less what is transmitted at
/// the computed cosines.
proof fn lemma_glass_reflectance(c: Scalar) -> (w: real)
    requires
        c.finite(),
        1real / 1000real <= number(c) <= 1real,
    ensures
        ({
            let r = reflectance(c, Scalar { bits: ONE_BITS }, Scalar { bits: COMMON_GLASS_BITS });
            let k = 5real / 9real + (4real / 9real) * (number(c) * number(c));
            let h = glass_transmittance(number(c) / w);
            &&& w > 0real
            &&& size(w * w - k) <= (79real / 10real) * (k / 16700000real)
            &&& 5real / 9real <= k <= 1real
            &&& r.finite()
            &&& 0real < h <= 24real / 25real
            &&& size(number(r) - (1real - h)) <= (801real / 100real) * eps() - (59real / 10real) * (
            h / 16700000real)
        }),
{
    let e = 1real / 16700000real;
    assert(eps() == e);
    let unit = Scalar { bits: ONE_BITS };
    let glass = Scalar { bits: COMMON_GLASS_BITS };
    let s = transmitted_sine(unit.quotient(glass), c);
    let cos_t = unit.difference(s).square_root();
    lemma_one_number();
    lemma_common_glass();
    lemma_cosine_kept(c);
    lemma_cosine_in_glass(c);
    let (x, w) = (number(c), number(cos_t));
    assert(7real / 10real <= w <= 11real / 10real) by (nonlinear_arith)
        requires
            54real / 100real <= w * w <= 101real / 100real,
            w > 0real,
    ;
    lemma_polarisations(c, cos_t, unit, glass);
    let rs = contrast(unit.product(c), glass.product(cos_t));
    let rp = contrast(unit.product(cos_t), glass.product(c));
    let (ts, tp) = (
        transmittance((1real * x) / ((3real / 2real) * w)),
        transmittance((1real * w) / ((3real / 2real) * x)),
    );
    let z = x / w;
    assert((1real * x) / ((3real / 2real) * w) == 2real * z / 3real) by (nonlinear_arith)
        requires
            z == x / w,
            w > 0real,
    ;
    assert(((3real / 2real) * x) / (1real * w) == 3real * z / 2real && z > 0real)
        by (nonlinear_arith)
        requires
            z == x / w,
            w > 0real,
            x > 0real,
    ;
    lemma_transmittance_reciprocal(1real * w, (3real / 2real) * x);
    let h = glass_transmittance(z);
    assert(2real * h == ts + tp);
    let q = lemma_closed_form(z);
    let qq = q * q;
    assert((13real / 2real) * q - (25real / 8real) * qq <= 24real / 25real) by (nonlinear_arith)
        requires
            qq == q * q,
            0real < q <= 4real / 25real,
    ;
    lemma_eps(ts);
    lemma_eps(tp);
    let bound = 2real * (1real - h) + 1real / 100000real;
    lemma_mean_close(rs, rp, bound);
    w
}

/// The order of the cosines is that of their ratios, to within rounding.
proof fn lemma_ratios_ordered(x: real, y: real, v: real, w: real, j: real, k: real)
    requires
        0real < x < y <= 1real,
        v > 0real,
        w > 0real,
        j == 5real / 9real + (4real / 9real) * (x * x),
        k == 5real / 9real + (4real / 9real) * (y * y),
        size(v * v - j) <= (79real / 10real) * (j / 16700000real),
        size(w * w - k) <= (79real / 10real) * (k / 16700000real),
    ensures
        x / v <= (1real + 8real / 16700000real) * (y / w),
        (y / w) * (y / w) <= 1real + 8real / 16700000real,
{
    let e = 1real / 16700000real;
    let f = 1real + 8real * e;
    let (a, b) = (x / v, y / w);
    assert(a * v == x && b * w == y && a > 0real && b > 0real) by (nonlinear_arith)
        requires
            a == x / v,
            b == y / w,
            x > 0real,
            y > 0real,
            v > 0real,
            w > 0real,
    ;
    let (xx, yy, vv, ww, aa, bb) = (x * x, y * y, v * v, w * w, a * a, b * b);
    assert(aa * vv == xx && bb * ww == yy) by (nonlinear_arith)
        requires
            a * v == x,
            b * w == y,
            xx == x * x,
            yy == y * y,
            vv == v * v,
            ww == w * w,
            aa == a * a,
            bb == b * b,
    ;
    assert(0real < xx <= yy <= 1real) by (nonlinear_arith)
        requires
            xx == x * x,
            yy == y * y,
            0real < x < y <= 1real,
    ;
    assert(yy <= k && vv > 0real && ww > 0real);
    // Exactly, xx k <= yy j.
    assert(xx * k <= yy * j) by (nonlinear_arith)
        requires
            j == 5real / 9real + (4real / 9real) * xx,
            k == 5real / 9real + (4real / 9real) * yy,
            xx <= yy,
    ;
    let (lo, hi) = (1real - (79real / 10real) * e, 1real + (79real / 10real) * e);
    assert(lo * j <= vv && ww <= hi * k && lo * k <= ww) by (nonlinear_arith)
        requires
            -((79real / 10real) * (j / 16700000real)) <= vv - j,
            ww - k <= (79real / 10real) * (k / 16700000real),
            -((79real / 10real) * (k / 16700000real)) <= ww - k,
            lo == 1real - (79real / 10real) * (1real / 16700000real),
            hi == 1real + (79real / 10real) * (1real / 16700000real),
    ;
    // (a / b)^2 = xx ww / (yy vv) is at most hi / lo.
    assert(lo * (xx * ww) <= hi * (yy * vv)) by {
        lemma_bounded_ratio(xx, yy, vv, ww, j, k, lo, hi);
    }
    assert(lo * aa <= hi * bb) by (nonlinear_arith)
        requires
            lo * (xx * ww) <= hi * (yy * vv),
            aa * vv == xx,
            bb * ww == yy,
            vv > 0real,
            ww > 0real,
    ;
    let ff = f * f;
    assert(hi <= lo * ff) by (nonlinear_arith)
        requires
            ff == f * f,
            f == 1real + 8real * (1real / 16700000real),
            lo == 1real - (79real / 10real) * (1real / 16700000real),
            hi == 1real + (79real / 10real) * (1real / 16700000real),
    ;
    assert(bb > 0real) by (nonlinear_arith)
        requires
            bb == b * b,
            b > 0real,
    ;
    assert(aa <= ff * bb) by (nonlinear_arith)
        requires
            lo * aa <= hi * bb,
            hi <= lo * ff,
            bb > 0real,
            lo > 0real,
    ;
    let g = f * b;
    assert(g * g == ff * bb && g > 0real) by (nonlinear_arith)
        requires
            g == f * b,
            ff == f * f,
            bb == b * b,
            f > 0real,
            b > 0real,
    ;
    assert(a <= g) by (nonlinear_arith)
        requires
            a * a <= g * g,
            g > 0real,
    ;
    assert(bb <= f) by (nonlinear_arith)
        requires
            bb * ww == yy,
            yy <= k,
            lo * k <= ww,
            f == 1real + 8real * (1real / 16700000real),
            lo == 1real - (79real / 10real) * (1real / 16700000real),
            k > 0real,
            bb > 0real,
    ;
}

proof fn lemma_bounded_ratio(
    xx: real,
    yy: real,
    vv: real,
    ww: real,
    j: real,
    k: real,
    lo: real,
    hi: real,
)
    requires
        0real < xx,
        0real < yy,
        0real < lo,
        0real < hi,
        xx * k <= yy * j,
        lo * j <= vv,
        ww <= hi * k,
    ensures
        lo * (xx * ww) <= hi * (yy * vv),
{
    assert(xx * ww <= hi * (xx * k)) by (nonlinear_arith)
        requires
            ww <= hi * k,
            xx > 0real,
    ;
    assert(lo * (yy * j) <= yy * vv) by (nonlinear_arith)
        requires
            lo * j <= vv,
            yy > 0real,
    ;
    let (p, q) = (xx * k, yy * j);
    let lh = lo * hi;
    assert(lh > 0real) by (nonlinear_arith)
        requires
            lh == lo * hi,
            lo > 0real,
            hi > 0real,
    ;
    assert(lh * p <= lh * q) by (nonlinear_arith)
        requires
            p <= q,
            lh > 0real,
    ;
    assert(lo * (xx * ww) <= lh * p) by (nonlinear_arith)
        requires
            xx * ww <= hi * p,
            lh == lo * hi,
            lo > 0real,
    ;
    assert(lh * q <= hi * (yy * vv)) by (nonlinear_arith)
        requires
            lo * q <= yy * vv,
            lh == lo * hi,
            hi > 0real,
    ;
}

/// Toward grazing incidence the reflectance of glass does not fall, but for
/// less than one part in a million that rounding may take: from air into glass
/// of index 1.5, at any two cosines of incidence from 0.001 on.
pub proof fn lemma_reflectance_grows(c1: Scalar, c2: Scalar)
    requires
        c1.finite(),
        c2.finite(),
        1real / 1000real <= number(c2) < number(c1) <= 1real,
    ensures
        ({
            let air = Scalar { bits: ONE_BITS };
            let glass = Scalar { bits: COMMON_GLASS_BITS };
            let (r1, r2) = (reflectance(c1, air, glass), reflectance(c2, air, glass));
            &&& r1.finite() && r2.finite()
            &&& (Scalar { bits: 0 }).at_most(r1) && r1.at_most(air)
            &&& (Scalar { bits: 0 }).at_most(r2) && r2.at_most(air)
            &&& number(r2) >= number(r1) - 1real / 1000000real
        }),
{
    let e = 1real / 16700000real;
    assert(eps() == e);
    let w1 = lemma_glass_reflectance(c1);
    let w2 = lemma_glass_reflectance(c2);
    lemma_magnitude_sign(ONE_BITS as int);
    lemma_magnitude_sign(COMMON_GLASS_BITS as int);
    lemma_reflectance_bounded(c1, Scalar { bits: ONE_BITS }, Scalar { bits: COMMON_GLASS_BITS });
    lemma_reflectance_bounded(c2, Scalar { bits: ONE_BITS }, Scalar { bits: COMMON_GLASS_BITS });
    let (x, y) = (number(c2), number(c1));
    let j = 5real / 9real + (4real / 9real) * (x * x);
    let k = 5real / 9real + (4real / 9real) * (y * y);
    lemma_ratios_ordered(x, y, w2, w1, j, k);
    let (a, b) = (x / w2, y / w1);
    lemma_positive_ratio(x, w2);
    lemma_positive_ratio(y, w1);
    let f = 1real + 8real * e;
    let (g, h) = (glass_transmittance(a), glass_transmittance(b));
    if b <= f * a {
        lemma_glass_transmittance_near(a, b, f);
        lemma_glass_transmittance_near(b, a, f);
        assert(f * g == g + 8real * (g / 16700000real) && f * h == h + 8real * (h / 16700000real))
            by (nonlinear_arith)
            requires
                f == 1real + 8real * (1real / 16700000real),
        ;
    } else {
        assert(a <= b) by (nonlinear_arith)
            requires
                b > f * a,
                f >= 1real,
                a > 0real,
        ;
        assert(a * b <= 1real) by (nonlinear_arith)
            requires
                b > f * a,
                b * b <= f,
                f >= 1real,
                a > 0real,
                b > 0real,
        ;
        lemma_transmittance_grows(a, b);
    }
}

proof fn lemma_glass_transmittance_near(x: real, y: real, f: real)
    requires
        x > 0real,
        y > 0real,
        f >= 1real,
        y <= f * x,
        x <= f * y,
    ensures
        glass_transmittance(y) <= f * glass_transmittance(x),
{
    let (s, t) = (2real * x / 3real, 2real * y / 3real);
    let (u, v) = (3real * x / 2real, 3real * y / 2real);
    assert(t <= f * s && s <= f * t && v <= f * u && u <= f * v) by (nonlinear_arith)
        requires
            s == 2real * x / 3real,
            t == 2real * y / 3real,
            u == 3real * x / 2real,
            v == 3real * y / 2real,
            y <= f * x,
            x <= f * y,
    ;
    lemma_transmittance_near(s, t, f);
    lemma_transmittance_near(u, v, f);
    let (p, q) = (transmittance(s), transmittance(u));
    assert(f * ((p + q) / 2real) == (f * p + f * q) / 2real) by (nonlinear_arith);
}

} // verus!
