//! Lengths of vectors of exact numbers.
use crate::exact::size;
use crate::snell::lemma_inner_combined;
use crate::snell::lemma_inner_commutes;
use crate::triple::combined;
use crate::triple::inner;
use crate::triple::lemma_from_square;
use crate::triple::lemma_half_squares;
use crate::triple::Triple;
use vstd::prelude::*;

verus! {

/// A vector of length `e` at most.
pub open spec fn short(v: Triple, e: real) -> bool {
    e >= 0real && inner(v, v) <= e * e
}

/// `a - b`.
pub open spec fn minus(a: Triple, b: Triple) -> Triple {
    Triple { x: a.x - b.x, y: a.y - b.y, z: a.z - b.z }
}

/// `k a`.
pub open spec fn scaled(k: real, a: Triple) -> Triple {
    Triple { x: k * a.x, y: k * a.y, z: k * a.z }
}

/// What is left of a vector along the surface with unit normal `n`.
pub open spec fn along_surface(a: Triple, n: Triple) -> Triple {
    combined(a, -inner(a, n), n)
}

/// A product is at most the mean of the squares, weighted by bounds.
proof fn lemma_weighted_product(x: real, y: real, e: real, f: real)
    ensures
        2real * ((e * f) * (x * y)) <= (f * f) * (x * x) + (e * e) * (y * y),
        -(2real * ((e * f) * (x * y))) <= (f * f) * (x * x) + (e * e) * (y * y),
{
    let (a, b) = (f * x, e * y);
    lemma_half_squares(a, b);
    assert(a * b == (e * f) * (x * y) && a * a == (f * f) * (x * x) && b * b == (e * e) * (y * y))
        by (nonlinear_arith)
        requires
            a == f * x,
            b == e * y,
    ;
}

/// The inner product is at most the product of the lengths.
pub proof fn lemma_inner_short(a: Triple, b: Triple, e: real, f: real)
    requires
        short(a, e),
        short(b, f),
    ensures
        size(inner(a, b)) <= e * f,
{
    let s = inner(a, b);
    let (aa, bb) = (inner(a, a), inner(b, b));
    let (ee, ff, ef) = (e * e, f * f, e * f);
    lemma_weighted_product(a.x, b.x, e, f);
    lemma_weighted_product(a.y, b.y, e, f);
    lemma_weighted_product(a.z, b.z, e, f);
    let (p, q, r) = (a.x * b.x, a.y * b.y, a.z * b.z);
    assert(ef * s == ef * p + ef * q + ef * r) by (nonlinear_arith)
        requires
            s == p + q + r,
    ;
    let (u, v, w) = (a.x * a.x, a.y * a.y, a.z * a.z);
    assert(ff * aa == ff * u + ff * v + ff * w) by (nonlinear_arith)
        requires
            aa == u + v + w,
    ;
    let (i, j, k) = (b.x * b.x, b.y * b.y, b.z * b.z);
    assert(ee * bb == ee * i + ee * j + ee * k) by (nonlinear_arith)
        requires
            bb == i + j + k,
    ;
    assert(2real * (ef * s) <= ff * aa + ee * bb && -(2real * (ef * s)) <= ff * aa + ee * bb);
    assert(ff * aa + ee * bb <= 2real * (ef * ef)) by (nonlinear_arith)
        requires
            aa <= ee,
            bb <= ff,
            ee == e * e,
            ff == f * f,
            ef == e * f,
    ;
    if ef > 0real {
        assert(s <= ef && -s <= ef) by (nonlinear_arith)
            requires
                ef * s <= ef * ef,
                -(ef * s) <= ef * ef,
                ef > 0real,
        ;
    } else {
        assert(e == 0real || f == 0real) by (nonlinear_arith)
            requires
                ef == e * f,
                ef <= 0real,
                e >= 0real,
                f >= 0real,
        ;
        assert(ef == 0real) by (nonlinear_arith)
            requires
                ef == e * f,
                e == 0real || f == 0real,
        ;
        if e == 0real {
            lemma_zero_vector(a);
        } else {
            lemma_zero_vector(b);
        }
    }
}

/// A vector without length is zero.
proof fn lemma_zero_vector(a: Triple)
    requires
        short(a, 0real),
    ensures
        a.x == 0real,
        a.y == 0real,
        a.z == 0real,
{
    lemma_half_squares(a.x, a.y);
    lemma_half_squares(a.z, a.y);
    assert(0real * 0real == 0real);
    lemma_from_square(a.x, 0real);
    lemma_from_square(a.y, 0real);
    lemma_from_square(a.z, 0real);
}

/// Lengths add up.
pub proof fn lemma_short_sum(a: Triple, k: real, b: Triple, e: real, f: real)
    requires
        short(a, e),
        short(b, f),
    ensures
        short(combined(a, k, b), e + size(k) * f),
{
    let c = combined(a, k, b);
    let s = inner(a, b);
    let (aa, bb) = (inner(a, a), inner(b, b));
    lemma_inner_combined(a, k, b, c);
    lemma_inner_commutes(a, c);
    lemma_inner_commutes(b, c);
    lemma_inner_combined(a, k, b, a);
    lemma_inner_combined(a, k, b, b);
    lemma_inner_commutes(b, a);
    assert(inner(c, c) == (aa + k * s) + k * (s + k * bb));
    lemma_inner_short(a, b, e, f);
    let h = size(k);
    let g = e + h * f;
    let ks = k * s;
    assert(k * (s + k * bb) == ks + (k * k) * bb) by (nonlinear_arith)
        requires
            ks == k * s,
    ;
    assert(size(ks) <= h * (e * f)) by (nonlinear_arith)
        requires
            ks == k * s,
            h == size(k),
            -(e * f) <= s <= e * f,
    ;
    assert((k * k) * bb <= (h * f) * (h * f)) by (nonlinear_arith)
        requires
            h == k || h == -k,
            bb <= f * f,
    ;
    let hf = h * f;
    assert(h * (e * f) == e * hf && g * g == e * e + 2real * (e * hf) + hf * hf)
        by (nonlinear_arith)
        requires
            hf == h * f,
            g == e + hf,
    ;
    assert(hf >= 0real) by (nonlinear_arith)
        requires
            hf == h * f,
            h >= 0real,
            f >= 0real,
    ;
}

/// A multiple of a short vector.
pub proof fn lemma_short_scaled(k: real, a: Triple, e: real, bound: real)
    requires
        short(a, e),
        size(k) <= bound,
    ensures
        short(scaled(k, a), bound * e),
{
    let aa = inner(a, a);
    let c = scaled(k, a);
    let kk = k * k;
    assert(c.x * c.x == kk * (a.x * a.x) && c.y * c.y == kk * (a.y * a.y) && c.z * c.z == kk * (a.z
        * a.z)) by (nonlinear_arith)
        requires
            c.x == k * a.x,
            c.y == k * a.y,
            c.z == k * a.z,
            kk == k * k,
    ;
    let (u, v, w) = (a.x * a.x, a.y * a.y, a.z * a.z);
    assert(kk * aa == kk * u + kk * v + kk * w) by (nonlinear_arith)
        requires
            aa == u + v + w,
    ;
    let h = size(k);
    let (b2, ee) = (bound * bound, e * e);
    assert(0real <= kk <= b2) by (nonlinear_arith)
        requires
            kk == k * k,
            b2 == bound * bound,
            -bound <= k <= bound,
    ;
    lemma_half_squares(a.x, a.y);
    lemma_half_squares(a.z, a.y);
    assert(kk * aa <= b2 * ee) by (nonlinear_arith)
        requires
            0real <= kk <= b2,
            0real <= aa <= ee,
    ;
    assert(b2 * ee == (bound * e) * (bound * e) && bound * e >= 0real) by (nonlinear_arith)
        requires
            b2 == bound * bound,
            ee == e * e,
            bound >= 0real,
            e >= 0real,
    ;
}

/// A longer bound serves too.
pub proof fn lemma_short_longer(a: Triple, e: real, f: real)
    requires
        short(a, e),
        e <= f,
    ensures
        short(a, f),
{
    assert(e * e <= f * f) by (nonlinear_arith)
        requires
            0real <= e <= f,
    ;
}

/// The components of a short vector.
pub proof fn lemma_short_components(a: Triple, e: real)
    requires
        short(a, e),
    ensures
        size(a.x) <= e,
        size(a.y) <= e,
        size(a.z) <= e,
{
    lemma_half_squares(a.x, a.y);
    lemma_half_squares(a.z, a.y);
    lemma_from_square(a.x, e);
    lemma_from_square(a.y, e);
    lemma_from_square(a.z, e);
}

/// The sizes of the components.
pub open spec fn sizes(a: Triple) -> Triple {
    Triple { x: size(a.x), y: size(a.y), z: size(a.z) }
}

pub proof fn lemma_short_sizes(a: Triple, e: real)
    requires
        short(a, e),
    ensures
        short(sizes(a), e),
{
    let s = sizes(a);
    assert(s.x * s.x == a.x * a.x && s.y * s.y == a.y * a.y && s.z * s.z == a.z * a.z)
        by (nonlinear_arith)
        requires
            s.x == a.x || s.x == -a.x,
            s.y == a.y || s.y == -a.y,
            s.z == a.z || s.z == -a.z,
    ;
}

/// A vector whose components are no larger.
pub proof fn lemma_short_smaller(c: Triple, a: Triple, e: real)
    requires
        short(a, e),
        size(c.x) <= a.x,
        size(c.y) <= a.y,
        size(c.z) <= a.z,
    ensures
        short(c, e),
{
    lemma_square_smaller(c.x, a.x);
    lemma_square_smaller(c.y, a.y);
    lemma_square_smaller(c.z, a.z);
}

proof fn lemma_square_smaller(c: real, a: real)
    requires
        size(c) <= a,
    ensures
        c * c <= a * a,
{
    assert(c * c <= a * a) by (nonlinear_arith)
        requires
            -a <= c <= a,
    ;
}

/// The length of what lies along the surface.
pub proof fn lemma_along_square(a: Triple, n: Triple)
    ensures
        inner(along_surface(a, n), along_surface(a, n)) == inner(a, a) - (inner(a, n) * inner(a, n))
            * (2real - inner(n, n)),
{
    let c = along_surface(a, n);
    let s = inner(a, n);
    let (aa, nn) = (inner(a, a), inner(n, n));
    let k = -s;
    lemma_inner_combined(a, k, n, c);
    lemma_inner_commutes(a, c);
    lemma_inner_commutes(n, c);
    lemma_inner_combined(a, k, n, a);
    lemma_inner_combined(a, k, n, n);
    lemma_inner_commutes(n, a);
    assert(inner(c, c) == (aa + k * s) + k * (s + k * nn));
    assert((aa + k * s) + k * (s + k * nn) == aa - (s * s) * (2real - nn)) by (nonlinear_arith)
        requires
            k == -s,
    ;
}

/// What lies along the surface is no longer than the vector.
pub proof fn lemma_along_short(a: Triple, n: Triple, e: real)
    requires
        short(a, e),
        inner(n, n) <= 2real,
    ensures
        short(along_surface(a, n), e),
{
    lemma_along_square(a, n);
    let s = inner(a, n);
    let z = 2real - inner(n, n);
    assert((s * s) * z >= 0real) by (nonlinear_arith)
        requires
            z >= 0real,
    ;
}

/// What lies along the surface of a combination.
pub proof fn lemma_along_combined(a: Triple, k: real, b: Triple, n: Triple)
    ensures
        along_surface(combined(a, k, b), n) == combined(
            along_surface(a, n),
            k,
            along_surface(b, n),
        ),
{
    lemma_inner_combined(a, k, b, n);
    let (s, t) = (inner(a, n), inner(b, n));
    lemma_along_component(a.x, b.x, n.x, k, s, t);
    lemma_along_component(a.y, b.y, n.y, k, s, t);
    lemma_along_component(a.z, b.z, n.z, k, s, t);
}

proof fn lemma_along_component(a: real, b: real, n: real, k: real, s: real, t: real)
    ensures
        (a + k * b) + (-(s + k * t)) * n == (a + (-s) * n) + k * (b + (-t) * n),
{
    assert((a + k * b) + (-(s + k * t)) * n == (a + (-s) * n) + k * (b + (-t) * n))
        by (nonlinear_arith);
}

} // verus!
