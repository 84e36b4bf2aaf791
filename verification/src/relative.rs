//! Products and quotients of positive numbers, with relative errors.
use crate::exact::lemma_product_close;
use crate::exact::lemma_quotient_close;
use crate::exact::number;
use crate::exact::size;
use crate::scalar::Scalar;
use crate::snell::lemma_small_product;
use crate::triple::lemma_eps;
use vstd::prelude::*;

verus! {

/// The encoding stands for the positive number `r`, to within the part `t` of
/// it.
pub open spec fn is_about(x: Scalar, r: real, t: real) -> bool {
    x.finite() && r > 0real && size(number(x) - r) <= t * r
}

/// A relative error that may enter a product or a quotient.
pub open spec fn is_slight(t: real) -> bool {
    0real <= t <= 1real / 10000real
}

/// A positive number that keeps clear of underflow and of overflow.
pub open spec fn is_ordinary(r: real) -> bool {
    1real / 1000000000000000000000000000real <= r <= 1000000000000000000000000000real
}

/// One rounding adds a millionth to the errors of a product.
pub proof fn lemma_about_product(x: Scalar, y: Scalar, r: real, s: real, t: real, u: real)
    requires
        is_about(x, r, t),
        is_about(y, s, u),
        is_slight(t),
        is_slight(u),
        is_ordinary(r * s),
    ensures
        is_about(x.product(y), r * s, t + u + 1real / 1000000real),
{
    let (f, g) = (number(x) - r, number(y) - s);
    let rs = r * s;
    assert(number(x) * number(y) == rs + f * s + g * r + f * g) by (nonlinear_arith)
        requires
            f == number(x) - r,
            g == number(y) - s,
            rs == r * s,
    ;
    lemma_small_product(f, s, t * r, s);
    lemma_small_product(g, r, u * s, r);
    lemma_small_product(f, g, t * r, u * s);
    assert(s * (t * r) == t * (r * s)) by (nonlinear_arith);
    assert(r * (u * s) == u * (r * s)) by (nonlinear_arith);
    assert((u * s) * (t * r) == (t * u) * (r * s)) by (nonlinear_arith);
    let tu = t * u;
    assert(0real <= tu <= 1real / 100000000real) by (nonlinear_arith)
        requires
            tu == t * u,
            0real <= t <= 1real / 10000real,
            0real <= u <= 1real / 10000real,
    ;
    assert(tu * rs <= rs / 100000000real) by (nonlinear_arith)
        requires
            tu <= 1real / 100000000real,
            rs > 0real,
    ;
    assert(t * rs <= rs / 10000real && u * rs <= rs / 10000real) by (nonlinear_arith)
        requires
            t <= 1real / 10000real,
            u <= 1real / 10000real,
            rs > 0real,
    ;
    let bound = (1001real / 1000real) * rs;
    lemma_product_close(x, y, bound);
    lemma_eps(bound);
    let k = t + u + 1real / 1000000real;
    assert(k * rs == t * rs + u * rs + rs / 1000000real) by (nonlinear_arith)
        requires
            k == t + u + 1real / 1000000real,
    ;
}

/// The same for a quotient.
pub proof fn lemma_about_quotient(x: Scalar, y: Scalar, r: real, s: real, t: real, u: real)
    requires
        is_about(x, r, t),
        is_about(y, s, u),
        is_slight(t),
        is_slight(u),
        is_ordinary(r / s),
    ensures
        is_about(x.quotient(y), r / s, t + u + 1real / 1000000real),
{
    let p = r / s;
    let (a, b) = (number(x), number(y));
    let (f, g) = (a - r, b - s);
    assert(p * s == r) by (nonlinear_arith)
        requires
            p == r / s,
            s > 0real,
    ;
    assert(u * s <= s / 10000real) by (nonlinear_arith)
        requires
            u <= 1real / 10000real,
            s > 0real,
    ;
    let q = a / b;
    assert(q * b == a) by (nonlinear_arith)
        requires
            q == a / b,
            b > 0real,
    ;
    let d = q - p;
    assert(d * b == f - p * g) by (nonlinear_arith)
        requires
            d == q - p,
            q * b == a,
            f == a - r,
            g == b - s,
            p * s == r,
    ;
    lemma_small_product(g, p, u * s, p);
    assert(p * (u * s) == u * (p * s)) by (nonlinear_arith);
    assert(g * p == p * g) by (nonlinear_arith);
    let w = t + u;
    assert(t * r + u * r == w * r) by (nonlinear_arith)
        requires
            w == t + u,
    ;
    assert(size(d * b) <= w * r);
    // The denominator is at least 0.9999 of the exact one.
    let (z, c) = (size(d), (9999real / 10000real) * s);
    assert(z * b == size(d * b)) by (nonlinear_arith)
        requires
            z == d && d >= 0real || z == -d && d < 0real,
            b > 0real,
    ;
    assert(z * c <= z * b) by (nonlinear_arith)
        requires
            c <= b,
            z >= 0real,
    ;
    assert(w * r == (w * p) * s) by (nonlinear_arith)
        requires
            p * s == r,
    ;
    let wp = w * p;
    assert((9999real / 10000real) * z <= wp) by (nonlinear_arith)
        requires
            z * c <= wp * s,
            c == (9999real / 10000real) * s,
            s > 0real,
    ;
    assert(0real <= wp <= p / 5000real) by (nonlinear_arith)
        requires
            wp == w * p,
            0real <= w <= 1real / 5000real,
            p > 0real,
    ;
    let bound = (1001real / 1000real) * p;
    lemma_quotient_close(x, y, bound);
    lemma_eps(bound);
    let k = t + u + 1real / 1000000real;
    assert(k * p == wp + p / 1000000real) by (nonlinear_arith)
        requires
            k == w + 1real / 1000000real,
            wp == w * p,
    ;
}

/// A larger part serves too.
pub proof fn lemma_about_wider(x: Scalar, r: real, t: real, u: real)
    requires
        is_about(x, r, t),
        t <= u,
    ensures
        is_about(x, r, u),
{
    assert(t * r <= u * r) by (nonlinear_arith)
        requires
            t <= u,
            r > 0real,
    ;
}

/// A positive number is about itself.
pub proof fn lemma_about_itself(x: Scalar)
    requires
        x.finite(),
        number(x) > 0real,
    ensures
        is_about(x, number(x), 0real),
{
    assert(0real * number(x) == 0real) by (nonlinear_arith);
}

} // verus!
