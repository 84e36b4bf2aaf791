//! Vectors of exact numbers, and how near the rounded operations on vectors
//! come to the exact ones.
use crate::exact::close;
use crate::exact::eps;
use crate::exact::lemma_product_close;
use crate::exact::lemma_quotient_close;
use crate::exact::lemma_root_close;
use crate::exact::lemma_sum_close;
use crate::exact::number;
use crate::exact::size;
use crate::scalar::Scalar;
use crate::scalar::ONE_BITS;
use crate::vector::dot;
use crate::vector::length;
use crate::vector::unit;
use crate::vector::Vector;
use vstd::prelude::*;

verus! {

/// A vector of exact numbers.
pub struct Triple {
    pub x: real,
    pub y: real,
    pub z: real,
}

/// The numbers that a vector stands for.
pub open spec fn triple(v: Vector) -> Triple {
    Triple { x: number(v.x), y: number(v.y), z: number(v.z) }
}

pub open spec fn finite(v: Vector) -> bool {
    v.x.finite() && v.y.finite() && v.z.finite()
}

/// The exact inner product.
pub open spec fn inner(a: Triple, b: Triple) -> real {
    a.x * b.x + a.y * b.y + a.z * b.z
}

/// `a + k b`.
pub open spec fn combined(a: Triple, k: real, b: Triple) -> Triple {
    Triple { x: a.x + k * b.x, y: a.y + k * b.y, z: a.z + k * b.z }
}

/// Every component is within `e`.
pub open spec fn apart(a: Triple, b: Triple, e: real) -> bool {
    size(a.x - b.x) <= e && size(a.y - b.y) <= e && size(a.z - b.z) <= e
}

/// A product is at most the mean of the squares.
pub proof fn lemma_half_squares(p: real, q: real)
    ensures
        2real * size(p * q) <= p * p + q * q,
        p * p >= 0real,
        q * q >= 0real,
{
    assert(2real * (p * q) <= p * p + q * q && -(2real * (p * q)) <= p * p + q * q && p * p >= 0real
        && q * q >= 0real) by (nonlinear_arith);
}

/// A number whose square is bounded.
pub proof fn lemma_from_square(p: real, bound: real)
    requires
        p * p <= bound * bound,
        bound >= 0real,
    ensures
        size(p) <= bound,
{
    assert(p <= bound && -p <= bound) by (nonlinear_arith)
        requires
            p * p <= bound * bound,
            bound >= 0real,
    ;
}

/// The products, partial sums and inner product of vectors of bounded length.
pub proof fn lemma_inner_bounds(a: Triple, b: Triple, bound: real)
    requires
        inner(a, a) <= bound,
        inner(b, b) <= bound,
    ensures
        size(a.x * b.x) <= bound,
        size(a.y * b.y) <= bound,
        size(a.z * b.z) <= bound,
        size(a.x * b.x + a.y * b.y) <= bound,
        size(inner(a, b)) <= bound,
{
    lemma_half_squares(a.x, b.x);
    lemma_half_squares(a.y, b.y);
    lemma_half_squares(a.z, b.z);
}

/// The components of a vector of bounded length.
pub proof fn lemma_component_bounds(a: Triple, bound: real)
    requires
        inner(a, a) <= bound * bound,
        bound >= 0real,
    ensures
        size(a.x) <= bound,
        size(a.y) <= bound,
        size(a.z) <= bound,
{
    lemma_half_squares(a.x, a.y);
    lemma_half_squares(a.z, a.y);
    lemma_from_square(a.x, bound);
    lemma_from_square(a.y, bound);
    lemma_from_square(a.z, bound);
}

/// An error bound as a fraction.
pub proof fn lemma_eps(bound: real)
    ensures
        bound * eps() == bound / 16700000real,
{
    assert(bound * eps() == bound / 16700000real) by (nonlinear_arith)
        requires
            eps() == 1real / 16700000real,
    ;
}

/// A bound that keeps clear of underflow and of overflow.
pub open spec fn moderate(bound: real) -> bool {
    1real / 10000000000000000000000000real <= bound <= 10000000000000000000000000000real
}

/// The rounded inner product is close to the exact one.
pub proof fn lemma_dot_close(a: Vector, b: Vector, bound: real)
    requires
        finite(a),
        finite(b),
        inner(triple(a), triple(a)) <= bound,
        inner(triple(b), triple(b)) <= bound,
        moderate(bound),
    ensures
        close(dot(a, b), inner(triple(a), triple(b)), (31real / 10real) * bound * eps()),
{
    let (s, t) = (triple(a), triple(b));
    lemma_half_squares(s.x, t.x);
    lemma_half_squares(s.y, t.y);
    lemma_half_squares(s.z, t.z);
    let (u, v, w) = (s.x * t.x, s.y * t.y, s.z * t.z);
    lemma_products_summed(a, b, u, v, w, bound);
}

/// The sum of three products, from bounds on the exact ones.
pub proof fn lemma_products_summed(a: Vector, b: Vector, u: real, v: real, w: real, bound: real)
    requires
        finite(a),
        finite(b),
        u == number(a.x) * number(b.x),
        v == number(a.y) * number(b.y),
        w == number(a.z) * number(b.z),
        size(u) + size(v) + size(w) <= bound,
        moderate(bound),
    ensures
        close(dot(a, b), u + v + w, (31real / 10real) * bound * eps()),
{
    let low = bound / 10000real;
    let (p, q, r) = (a.x.product(b.x), a.y.product(b.y), a.z.product(b.z));
    lemma_product_close(a.x, b.x, size(u) + low);
    lemma_product_close(a.y, b.y, size(v) + low);
    lemma_product_close(a.z, b.z, size(w) + low);
    lemma_eps(size(u) + low);
    lemma_eps(size(v) + low);
    lemma_eps(size(w) + low);
    let wide = bound + bound / 1000real;
    lemma_eps(wide);
    lemma_eps((31real / 10real) * bound);
    lemma_sum_close(p, q, wide);
    lemma_sum_close(p.sum(q), r, wide);
}

/// One as a number.
pub proof fn lemma_one_number()
    ensures
        number(Scalar { bits: ONE_BITS }) == 1real,
        (Scalar { bits: ONE_BITS }).finite(),
        number(Scalar { bits: 0 }) == 0real,
{
    reveal(number);
    crate::order::lemma_one_size();
    crate::scalar::lemma_magnitude_sign(0);
    vstd::arithmetic::power2::lemma_pow2_pos(149);
    let o = crate::convert::one() as real;
    assert(o / o == 1real && 0real / o == 0real) by (nonlinear_arith)
        requires
            o > 0real,
    ;
}

/// The square of a number near one.
proof fn lemma_square_near_one(x: real, e: real)
    requires
        size(x - 1real) <= e,
        0real <= e <= 1real / 100000real,
    ensures
        size(x * x - 1real) <= (2001real / 1000real) * e,
{
    let d = x - 1real;
    assert(x * x == 1real + 2real * d + d * d) by (nonlinear_arith)
        requires
            d == x - 1real,
    ;
    assert(0real <= d * d <= e / 1000real) by (nonlinear_arith)
        requires
            -e <= d <= e,
            0real <= e <= 1real / 100000real,
    ;
}

/// The reciprocal `k` of a length `ln` whose square is known to a little.
proof fn lemma_reciprocal_square(k: real, ln: real, q: real, e: real)
    requires
        0real <= e <= 1real / 100000real,
        ln > 0real,
        size(k * ln - 1real) <= e,
        size(ln * ln - q) <= (511real / 100real) * (e * q),
        q > 0real,
    ensures
        k > 0real,
        size((k * k) * q - 1real) <= (714real / 100real) * e,
{
    let x = k * ln;
    lemma_square_near_one(x, e);
    let (kk, ll, xx) = (k * k, ln * ln, x * x);
    assert(kk * ll == xx) by (nonlinear_arith)
        requires
            kk == k * k,
            ll == ln * ln,
            xx == x * x,
            x == k * ln,
    ;
    assert(k > 0real) by (nonlinear_arith)
        requires
            k * ln > 0real,
            ln > 0real,
    ;
    let y = q - ll;
    let z = kk * q;
    let f = (511real / 100real) * e;
    assert(z == xx + kk * y) by (nonlinear_arith)
        requires
            z == kk * q,
            y == q - ll,
            kk * ll == xx,
    ;
    assert(kk > 0real) by (nonlinear_arith)
        requires
            kk == k * k,
            k > 0real,
    ;
    assert(-(f * q) <= y <= f * q) by {
        assert((511real / 100real) * (e * q) == f * q) by (nonlinear_arith)
            requires
                f == (511real / 100real) * e,
        ;
    }
    assert(-(f * z) <= kk * y <= f * z) by (nonlinear_arith)
        requires
            -(f * q) <= y <= f * q,
            kk > 0real,
            z == kk * q,
    ;
    let g = f * z;
    assert(z > 0real) by (nonlinear_arith)
        requires
            z == kk * q,
            kk > 0real,
            q > 0real,
    ;
    assert(g <= z / 10000real) by (nonlinear_arith)
        requires
            g == f * z,
            z > 0real,
            f <= 1real / 10000real,
    ;
    assert(z <= 1001real / 1000real);
    assert(g <= (1001real / 1000real) * f) by (nonlinear_arith)
        requires
            g == f * z,
            z <= 1001real / 1000real,
            f >= 0real,
    ;
}

/// A component of a vector brought to unit length.
proof fn lemma_unit_component(x: Scalar, f: Scalar, z: real)
    requires
        x.finite(),
        f.finite(),
        z == number(f) * number(x),
        size(z) <= 1001real / 1000real,
    ensures
        close(x.product(f), z, (101real / 100real) * eps()),
        size(number(x.product(f)) * number(x.product(f)) - z * z) <= (201real / 100real) * (z * z
            * eps()) + eps() / 1000real,
{
    let e = eps();
    assert(e == 1real / 16700000real);
    assert(number(x) * number(f) == z) by (nonlinear_arith)
        requires
            z == number(f) * number(x),
    ;
    let bound = size(z) + 1real / 1000000real;
    lemma_product_close(x, f, bound);
    lemma_eps(bound);
    let t = number(x.product(f));
    let d = t - z;
    let zz = z * z;
    lemma_eps(zz);
    assert(t * t - zz == 2real * (z * d) + d * d) by (nonlinear_arith)
        requires
            d == t - z,
            zz == z * z,
    ;
    let a = size(z);
    assert(a * a == zz) by (nonlinear_arith)
        requires
            a == z || a == -z,
            zz == z * z,
    ;
    assert(size(z * d) <= a * (bound * e)) by (nonlinear_arith)
        requires
            a == z && z >= 0real || a == -z && z <= 0real,
            -(bound * e) <= d <= bound * e,
    ;
    assert(a * (bound * e) == zz / 16700000real + a / 16700000000000real) by (nonlinear_arith)
        requires
            bound == a + 1real / 1000000real,
            a * a == zz,
            e == 1real / 16700000real,
    ;
    assert(0real <= d * d <= e / 10000real) by (nonlinear_arith)
        requires
            -(102real / 100real) * e <= d <= (102real / 100real) * e,
            e == 1real / 16700000real,
    ;
}

/// A vector brought to unit length: scaled by a number `k` whose square is one
/// over that of the length.
pub proof fn lemma_unit_close(v: Vector) -> (k: real)
    requires
        finite(v),
        1real / 1000000000000real <= inner(triple(v), triple(v)) <= 1000000000000real,
    ensures
        k > 0real,
        size((k * k) * inner(triple(v), triple(v)) - 1real) <= (714real / 100real) * eps(),
        finite(unit(v)),
        apart(
            triple(unit(v)),
            Triple { x: k * number(v.x), y: k * number(v.y), z: k * number(v.z) },
            (101real / 100real) * eps(),
        ),
        size(inner(triple(unit(v)), triple(unit(v))) - 1real) <= (92real / 10real) * eps(),
{
    let t = triple(v);
    let q = inner(t, t);
    let e = eps();
    assert(e == 1real / 16700000real);
    let k = lemma_reciprocal_length(v);
    let f = (Scalar { bits: ONE_BITS }).quotient(length(v));
    let (x, y, z) = (k * t.x, k * t.y, k * t.z);
    let kk = k * k;
    assert(x * x == kk * (t.x * t.x) && y * y == kk * (t.y * t.y) && z * z == kk * (t.z * t.z))
        by (nonlinear_arith)
        requires
            x == k * t.x,
            y == k * t.y,
            z == k * t.z,
            kk == k * k,
    ;
    let (a, b, c) = (t.x * t.x, t.y * t.y, t.z * t.z);
    assert(kk * (a + b + c) == kk * a + kk * b + kk * c) by (nonlinear_arith);
    lemma_half_squares(x, y);
    lemma_half_squares(z, y);
    lemma_from_square(x, 1001real / 1000real);
    lemma_from_square(y, 1001real / 1000real);
    lemma_from_square(z, 1001real / 1000real);
    lemma_unit_component(v.x, f, x);
    lemma_unit_component(v.y, f, y);
    lemma_unit_component(v.z, f, z);
    lemma_eps(x * x);
    lemma_eps(y * y);
    lemma_eps(z * z);
    k
}

/// The factor that brings a vector to unit length.
pub proof fn lemma_reciprocal_length(v: Vector) -> (k: real)
    requires
        finite(v),
        1real / 1000000000000real <= inner(triple(v), triple(v)) <= 1000000000000real,
    ensures
        k > 0real,
        k == number((Scalar { bits: ONE_BITS }).quotient(length(v))),
        (Scalar { bits: ONE_BITS }).quotient(length(v)).finite(),
        length(v).finite(),
        number(length(v)) > 0real,
        size(number(length(v)) * number(length(v)) - inner(triple(v), triple(v))) <= (511real
            / 100real) * (eps() * inner(triple(v), triple(v))),
        size(k * number(length(v)) - 1real) <= eps(),
        size((k * k) * inner(triple(v), triple(v)) - 1real) <= (714real / 100real) * eps(),
{
    let q = inner(triple(v), triple(v));
    let e = eps();
    assert(e == 1real / 16700000real);
    lemma_dot_close(v, v, q);
    let d = dot(v, v);
    let dn = number(d);
    lemma_eps((31real / 10real) * q);
    lemma_root_close(d);
    let l = length(v);
    let ln = number(l);
    assert(2real * e * dn == dn / 8350000real) by (nonlinear_arith)
        requires
            e == 1real / 16700000real,
    ;
    assert(e * q == q / 16700000real) by (nonlinear_arith)
        requires
            e == 1real / 16700000real,
    ;
    assert(size(ln * ln - q) <= (511real / 100real) * (e * q));
    assert(ln > 0real) by (nonlinear_arith)
        requires
            ln * ln > 0real,
            ln >= 0real,
    ;
    assert(ln <= 1001000real) by (nonlinear_arith)
        requires
            ln * ln <= 1001000000000real,
            ln >= 0real,
    ;
    assert(ln >= 1real / 1001000real) by (nonlinear_arith)
        requires
            ln * ln >= 1real / 1001000000000real,
            ln >= 0real,
    ;
    lemma_one_number();
    let unit_one = Scalar { bits: ONE_BITS };
    let i = 1real / ln;
    assert(i * ln == 1real && 0real < i <= 1001000real && i >= 1real / 1001000real)
        by (nonlinear_arith)
        requires
            i == 1real / ln,
            1real / 1001000real <= ln <= 1001000real,
    ;
    lemma_quotient_close(unit_one, l, i);
    let f = unit_one.quotient(l);
    let k = number(f);
    lemma_eps(i);
    let g = k - i;
    assert(-e <= g * ln <= e) by (nonlinear_arith)
        requires
            -(i / 16700000real) <= g <= i / 16700000real,
            i * ln == 1real,
            ln > 0real,
            e == 1real / 16700000real,
    ;
    assert(k * ln == i * ln + g * ln) by (nonlinear_arith)
        requires
            g == k - i,
    ;
    lemma_reciprocal_square(k, ln, q, e);
    k
}

} // verus!
