//! Unit vectors and incidence, in terms of the exact numbers.
use crate::convert::one;
use crate::exact::eps;
use crate::exact::number;
use crate::exact::size;
use crate::geom::TWO_BITS;
use crate::norm::along_surface;
use crate::optics::incidence;
use crate::order::lemma_quotient_not_negative;
use crate::scalar::lemma_negated;
use crate::scalar::Scalar;
use crate::triple::combined;
use crate::triple::finite;
use crate::triple::inner;
use crate::triple::lemma_dot_close;
use crate::triple::lemma_eps;
use crate::triple::lemma_inner_bounds;
use crate::triple::lemma_one_number;
use crate::triple::triple;
use crate::triple::Triple;
use crate::vector::dot;
use crate::vector::Vector;
use vstd::arithmetic::power2::lemma2_to64;
use vstd::arithmetic::power2::lemma_pow2_adds;
use vstd::arithmetic::power2::lemma_pow2_pos;
use vstd::arithmetic::power2::lemma_pow2_unfold;
use vstd::prelude::*;

verus! {

/// A unit vector, as far as rounding leaves it one.
pub open spec fn is_unit_vector(n: Vector) -> bool {
    finite(n) && size(inner(triple(n), triple(n)) - 1real) <= 10real * eps()
}

/// Two as a number.
pub proof fn lemma_two_number()
    ensures
        number(Scalar { bits: TWO_BITS }) == 2real,
        (Scalar { bits: TWO_BITS }).finite(),
{
    reveal(number);
    lemma2_to64();
    lemma_pow2_adds(23, 127);
    lemma_pow2_unfold(150);
    lemma_pow2_pos(149);
    let two = Scalar { bits: TWO_BITS };
    assert(two.value() == 2 * one());
    let o = one() as real;
    assert((2 * one()) as real == 2real * o);
    assert((2real * o) / o == 2real) by (nonlinear_arith)
        requires
            o > 0real,
    ;
}

/// The inner product is linear.
pub proof fn lemma_inner_combined(a: Triple, k: real, b: Triple, c: Triple)
    ensures
        inner(combined(a, k, b), c) == inner(a, c) + k * inner(b, c),
{
    assert((a.x + k * b.x) * c.x == a.x * c.x + k * (b.x * c.x)) by (nonlinear_arith);
    assert((a.y + k * b.y) * c.y == a.y * c.y + k * (b.y * c.y)) by (nonlinear_arith);
    assert((a.z + k * b.z) * c.z == a.z * c.z + k * (b.z * c.z)) by (nonlinear_arith);
    let (p, q, r) = (b.x * c.x, b.y * c.y, b.z * c.z);
    assert(k * (p + q + r) == k * p + k * q + k * r) by (nonlinear_arith);
}

pub proof fn lemma_inner_commutes(a: Triple, b: Triple)
    ensures
        inner(a, b) == inner(b, a),
{
    assert(a.x * b.x == b.x * a.x && a.y * b.y == b.y * a.y && a.z * b.z == b.z * a.z)
        by (nonlinear_arith);
}

/// The inner product of a sum.
pub proof fn lemma_inner_sum(u: Triple, v: Triple, c: Triple, m: Triple)
    requires
        c.x == u.x - v.x,
        c.y == u.y - v.y,
        c.z == u.z - v.z,
    ensures
        inner(u, m) == inner(v, m) + inner(c, m),
{
    assert(u.x * m.x == v.x * m.x + c.x * m.x) by (nonlinear_arith)
        requires
            c.x == u.x - v.x,
    ;
    assert(u.y * m.y == v.y * m.y + c.y * m.y) by (nonlinear_arith)
        requires
            c.y == u.y - v.y,
    ;
    assert(u.z * m.z == v.z * m.z + c.z * m.z) by (nonlinear_arith)
        requires
            c.z == u.z - v.z,
    ;
}

/// A small number times a bounded one.
pub proof fn lemma_small_product(a: real, b: real, e: real, bound: real)
    requires
        size(a) <= e,
        size(b) <= bound,
    ensures
        size(a * b) <= bound * e,
{
    assert(a * b <= bound * e && -(a * b) <= bound * e) by (nonlinear_arith)
        requires
            -e <= a <= e,
            -bound <= b <= bound,
    ;
}

pub proof fn lemma_negates(a: real, b: real)
    ensures
        a * (-b) == -(a * b),
{
    assert(a * (-b) == -(a * b)) by (nonlinear_arith);
}

proof fn lemma_opposite_factor(a: real, b: real)
    ensures
        (-a) * b == -(a * b),
{
    assert((-a) * b == -(a * b)) by (nonlinear_arith);
}

/// What lies along the surface does not depend on the side of the normal.
pub proof fn lemma_along_ignores_side(a: Triple, n: Triple, m: Triple)
    requires
        m.x == -n.x,
        m.y == -n.y,
        m.z == -n.z,
    ensures
        along_surface(a, m) == along_surface(a, n),
        inner(a, m) == -inner(a, n),
{
    lemma_negates(a.x, n.x);
    lemma_negates(a.y, n.y);
    lemma_negates(a.z, n.z);
    let k = inner(a, n);
    lemma_negates(k, n.x);
    lemma_negates(k, n.y);
    lemma_negates(k, n.z);
    lemma_opposite_factor(k, n.x);
    lemma_opposite_factor(k, n.y);
    lemma_opposite_factor(k, n.z);
}

pub proof fn lemma_negated_number(x: Scalar)
    ensures
        number(x.negated()) == -number(x),
        x.negated().finite() == x.finite(),
{
    reveal(number);
    lemma_negated(x);
    lemma_pow2_pos(149);
    let o = one() as real;
    let v = x.value() as real;
    assert((-v) / o == -(v / o)) by (nonlinear_arith)
        requires
            o > 0real,
    ;
}

/// The sign of an encoding's number is that of its value.
pub proof fn lemma_number_sign(x: Scalar)
    ensures
        x.value() < 0 <==> number(x) < 0real,
        x.value() == 0 <==> number(x) == 0real,
{
    reveal(number);
    lemma_pow2_pos(149);
    let o = one() as real;
    let v = x.value() as real;
    let r = number(x);
    assert((v < 0real <==> r < 0real) && (v == 0real <==> r == 0real)) by (nonlinear_arith)
        requires
            r == v / o,
            o > 0real,
    ;
}

/// A quotient of positive numbers is not negative.
pub proof fn lemma_quotient_sign(x: Scalar, y: Scalar)
    requires
        x.finite(),
        y.finite(),
        number(x) > 0real,
        number(y) > 0real,
        x.quotient(y).finite(),
    ensures
        number(x.quotient(y)) >= 0real,
{
    reveal(number);
    lemma_number_sign(x);
    lemma_number_sign(y);
    lemma_quotient_not_negative(x, y);
    lemma_number_sign(x.quotient(y));
}

/// The incidence: the cosine is that against the chosen side of the normal.
pub proof fn lemma_incidence_close(d: Vector, n: Vector)
    requires
        is_unit_vector(d),
        is_unit_vector(n),
    ensures
        ({
            let i = incidence(d, n);
            &&& is_unit_vector(i.normal)
            &&& i.cos_i.finite()
            &&& 0real <= number(i.cos_i) <= 1real + 1real / 100000real
            &&& size(number(i.cos_i) + inner(triple(d), triple(i.normal))) <= (311real / 100real)
                * eps()
            &&& inner(triple(i.normal), triple(i.normal)) == inner(triple(n), triple(n))
            &&& size(inner(triple(d), triple(i.normal))) == size(inner(triple(d), triple(n)))
            &&& triple(i.normal) == triple(n) || triple(i.normal) == (Triple {
                x: -triple(n).x,
                y: -triple(n).y,
                z: -triple(n).z,
            })
        }),
{
    reveal(number);
    let (a, b) = (triple(d), triple(n));
    let e = eps();
    assert(e == 1real / 16700000real);
    let bound = 1real + 10real * e;
    lemma_dot_close(d, n, bound);
    lemma_eps((31real / 10real) * bound);
    lemma_inner_bounds(a, b, bound);
    let s = dot(d, n);
    lemma_negated_number(s);
    lemma_negated_number(s.negated());
    lemma_number_sign(s.negated());
    lemma_one_number();
    lemma_number_sign(Scalar { bits: 0 });
    lemma_negated_number(n.x);
    lemma_negated_number(n.y);
    lemma_negated_number(n.z);
    let i = incidence(d, n);
    let m = triple(i.normal);
    if s.negated().below(Scalar { bits: 0 }) {
        assert(m.x == -b.x && m.y == -b.y && m.z == -b.z);
        assert(a.x * m.x == -(a.x * b.x) && a.y * m.y == -(a.y * b.y) && a.z * m.z == -(a.z * b.z)
            && m.x * m.x == b.x * b.x && m.y * m.y == b.y * b.y && m.z * m.z == b.z * b.z)
            by (nonlinear_arith)
            requires
                m.x == -b.x,
                m.y == -b.y,
                m.z == -b.z,
        ;
    }
}

} // verus!
