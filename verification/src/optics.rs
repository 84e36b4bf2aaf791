//! Vector Snell refraction, Fresnel reflectance, total internal reflection.
use crate::arith::lemma_nearest_exact;
use crate::arith::lemma_nearest_zero;
use crate::arith::NAN_BITS;
use crate::convert::one;
use crate::geom::TWO_BITS;
use crate::order::lemma_complement_not_positive;
use crate::order::lemma_contrast_bounded;
use crate::order::lemma_difference_sign;
use crate::order::lemma_mean_bounded;
use crate::order::lemma_product_not_negative;
use crate::order::lemma_product_operands;
use crate::order::lemma_product_opposite;
use crate::order::lemma_root_sign;
use crate::order::lemma_rounded_value;
use crate::order::lemma_square_above;
use crate::order::lemma_sum_is_number;
use crate::order::lemma_sum_operands;
use crate::order::lemma_sum_opposite;
use crate::order::lemma_sum_value;
use crate::order::lemma_zero_product;
use crate::order::lemma_zero_sum;
use crate::scalar::lemma_magnitude_increases;
use crate::scalar::lemma_magnitude_sign;
use crate::scalar::lemma_negated;
use crate::scalar::lemma_value_identifies;
use crate::scalar::Scalar;
use crate::scalar::ONE_BITS;
use crate::vector::dot;
use crate::vector::length;
use crate::vector::unit;
use crate::vector::vector_difference;
use crate::vector::vector_scaled;
use crate::vector::vector_sum;
use crate::vector::Vector;
use vstd::arithmetic::power2::lemma2_to64;
use vstd::arithmetic::power2::lemma_pow2_adds;
use vstd::arithmetic::power2::lemma_pow2_pos;
use vstd::prelude::*;

verus! {

/// Encoding of one half.
pub const HALF_BITS: u32 = 0x3f00_0000;

/// The incident direction less twice its part along the normal.
pub open spec fn mirrored(d: Vector, n: Vector) -> Vector {
    vector_difference(d, vector_scaled(n, (Scalar { bits: TWO_BITS }).product(dot(d, n))))
}

/// Mirror reflection of the incident direction `d` about `n`: `d` points
/// toward the surface, the result away from it.
pub fn reflect(d: Vector, n: Vector) -> (r: Vector)
    ensures
        r == mirrored(d, n),
{
    d.minus(n.times((Scalar { bits: TWO_BITS }).times(d.dot(n))))
}

/// A normal and the cosine of incidence against it.
#[derive(Clone, Copy, Debug, PartialEq, Eq, Structural)]
pub struct Incidence {
    pub normal: Vector,
    pub cos_i: Scalar,
}

/// The normal on the incident side, whichever way it was oriented, with its
/// cosine.
pub open spec fn incidence(d: Vector, n: Vector) -> Incidence {
    let cos_i = dot(d, n).negated();
    if cos_i.below(Scalar { bits: 0 }) {
        Incidence { normal: n.negated(), cos_i: cos_i.negated() }
    } else {
        Incidence { normal: n, cos_i }
    }
}

/// The squared sine of the transmitted angle: `ratio^2 (1 - cos_i^2)`.
pub open spec fn transmitted_sine(ratio: Scalar, cos_i: Scalar) -> Scalar {
    ratio.product(ratio).product((Scalar { bits: ONE_BITS }).difference(cos_i.product(cos_i)))
}

/// The transmitted direction, going on into the second medium; none where the
/// squared cosine of the transmitted angle is negative.
pub open spec fn refracted(d: Vector, n: Vector, n1: Scalar, n2: Scalar) -> Option<Vector> {
    let eta = n1.quotient(n2);
    let i = incidence(d, n);
    let k = (Scalar { bits: ONE_BITS }).difference(transmitted_sine(eta, i.cos_i));
    if k.below(Scalar { bits: 0 }) {
        None
    } else {
        Some(
            unit(
                vector_sum(
                    vector_scaled(d, eta),
                    vector_scaled(i.normal, eta.product(i.cos_i).difference(k.square_root())),
                ),
            ),
        )
    }
}

/// Vector Snell refraction of the incident direction `d` at a surface with
/// normal `n` between the indices `n1` before and `n2` after it. Either side of
/// the normal serves. `None` is total internal reflection.
pub fn refract(d: Vector, n: Vector, n1: Scalar, n2: Scalar) -> (r: Option<Vector>)
    ensures
        r == refracted(d, n, n1, n2),
{
    let one: Scalar = Scalar { bits: ONE_BITS };
    let zero: Scalar = Scalar { bits: 0 };
    let eta: Scalar = n1.over(n2);
    let mut nn: Vector = n;
    let mut cos_i: Scalar = d.dot(n).neg();
    if cos_i.lt(zero) {
        nn = n.neg();
        cos_i = cos_i.neg();
    }
    let k: Scalar = one.minus(eta.times(eta).times(one.minus(cos_i.times(cos_i))));
    if k.lt(zero) {
        return None;
    }
    let cos_t: Scalar = k.sqrt();
    Some(d.times(eta).plus(nn.times(eta.times(cos_i).minus(cos_t))).normalize())
}

/// A cosine moved into `[0, 1]`.
pub open spec fn clamped_cosine(cos_i: Scalar) -> Scalar {
    cos_i.clamped(Scalar { bits: 0 }, Scalar { bits: ONE_BITS })
}

/// The squared ratio of the difference of two numbers to their sum.
pub open spec fn contrast(a: Scalar, b: Scalar) -> Scalar {
    let ratio = a.difference(b).quotient(a.sum(b));
    ratio.product(ratio)
}

/// The reflectance: one where the squared sine of the transmitted angle
/// reaches one, else the mean over the two polarisations.
pub open spec fn reflectance(cos_i: Scalar, n1: Scalar, n2: Scalar) -> Scalar {
    let one = Scalar { bits: ONE_BITS };
    let c = clamped_cosine(cos_i);
    let sin_t2 = transmitted_sine(n1.quotient(n2), c);
    let cos_t = one.difference(sin_t2).square_root();
    if one.at_most(sin_t2) {
        one
    } else {
        (Scalar { bits: HALF_BITS }).product(
            contrast(n1.product(c), n2.product(cos_t)).sum(
                contrast(n1.product(cos_t), n2.product(c)),
            ),
        )
    }
}

fn squared_contrast(a: Scalar, b: Scalar) -> (r: Scalar)
    ensures
        r == contrast(a, b),
{
    let ratio: Scalar = a.minus(b).over(a.plus(b));
    ratio.times(ratio)
}

/// Unpolarised Fresnel reflectance of a dielectric interface: `cos_i` is the
/// size of the cosine of incidence, `n1` and `n2` are the indices.
pub fn fresnel_reflectance(cos_i: Scalar, n1: Scalar, n2: Scalar) -> (r: Scalar)
    ensures
        r == reflectance(cos_i, n1, n2),
{
    let one: Scalar = Scalar { bits: ONE_BITS };
    proof {
        crate::scalar::lemma_magnitude_increases(0, ONE_BITS as int);
    }
    let c: Scalar = cos_i.clamp(Scalar { bits: 0 }, one);
    let ratio: Scalar = n1.over(n2);
    let sin_t2: Scalar = ratio.times(ratio).times(one.minus(c.times(c)));
    if sin_t2.ge(one) {
        return one;
    }
    let cos_t: Scalar = one.minus(sin_t2).sqrt();
    let rs: Scalar = squared_contrast(n1.times(c), n2.times(cos_t));
    let rp: Scalar = squared_contrast(n1.times(cos_t), n2.times(c));
    (Scalar { bits: HALF_BITS }).times(rs.plus(rp))
}

/// The opposite vector has the opposite inner product.
pub proof fn lemma_dot_opposite(d: Vector, n: Vector)
    requires
        !dot(d, n).nan(),
    ensures
        !dot(d, n.negated()).nan(),
        dot(d, n.negated()).value() == -dot(d, n).value(),
{
    let o = n.negated();
    let (x, y, z) = (d.x.product(n.x), d.y.product(n.y), d.z.product(n.z));
    lemma_sum_operands(x.sum(y), z);
    lemma_sum_operands(x, y);
    lemma_product_opposite(d.x, n.x);
    lemma_product_opposite(d.y, n.y);
    lemma_product_opposite(d.z, n.z);
    let (u, v, w) = (d.x.product(o.x), d.y.product(o.y), d.z.product(o.z));
    lemma_sum_opposite(x, y, u, v);
    lemma_sum_opposite(x.sum(y), z, u.sum(v), w);
}

proof fn lemma_twice_opposite(n: Vector)
    ensures
        n.negated().negated() == n,
{
    lemma_negated(n.x);
    lemma_negated(n.y);
    lemma_negated(n.z);
}

/// An inner product that is not a number is always the same encoding.
proof fn lemma_dot_nan(d: Vector, n: Vector)
    requires
        dot(d, n).nan(),
    ensures
        dot(d, n) == (Scalar { bits: NAN_BITS }),
{
    reveal(Scalar::sum);
    let (x, y, z) = (d.x.product(n.x), d.y.product(n.y), d.z.product(n.z));
    let s = x.sum(y);
    if s.finite() && z.finite() {
        lemma_sum_is_number(s, z);
    }
}

/// The direction transmitted at a cosine that is not a number is none, on
/// either side.
proof fn lemma_refracted_nan(d: Vector, n: Vector, n1: Scalar, n2: Scalar)
    requires
        incidence(d, n).cos_i.nan(),
    ensures
        ({
            let x = Scalar { bits: NAN_BITS };
            refracted(d, n, n1, n2) == Some(unit(Vector { x, y: x, z: x }))
        }),
{
    reveal(Scalar::product);
    reveal(Scalar::sum);
    reveal(Scalar::difference);
    let eta = n1.quotient(n2);
    let i = incidence(d, n);
    let k = (Scalar { bits: ONE_BITS }).difference(transmitted_sine(eta, i.cos_i));
    assert(k.nan());
    let along = vector_scaled(i.normal, eta.product(i.cos_i).difference(k.square_root()));
    let x = Scalar { bits: NAN_BITS };
    assert(along == (Vector { x, y: x, z: x }));
    assert(vector_sum(vector_scaled(d, eta), along) == (Vector { x, y: x, z: x }));
}

/// Refraction does not depend on which side of the surface the normal points
/// to, unless the direction lies in the surface.
pub proof fn lemma_refraction_ignores_side(d: Vector, n: Vector, n1: Scalar, n2: Scalar)
    requires
        dot(d, n).value() != 0,
    ensures
        refracted(d, n.negated(), n1, n2) == refracted(d, n, n1, n2),
{
    let o = n.negated();
    lemma_twice_opposite(n);
    if dot(d, n).nan() {
        if !dot(d, o).nan() {
            lemma_dot_opposite(d, o);
        }
        lemma_refracted_nan(d, n, n1, n2);
        lemma_refracted_nan(d, o, n1, n2);
    } else {
        lemma_dot_opposite(d, n);
        lemma_negated(dot(d, n));
        lemma_value_identifies(dot(d, o), dot(d, n).negated());
        assert(incidence(d, o) == incidence(d, n));
    }
}

/// Reflection does not depend on which side of the surface the normal points
/// to, unless the direction lies in the surface.
pub proof fn lemma_reflection_ignores_side(d: Vector, n: Vector)
    requires
        dot(d, n).value() != 0,
    ensures
        mirrored(d, n.negated()) == mirrored(d, n),
{
    let o = n.negated();
    let two = Scalar { bits: TWO_BITS };
    lemma_twice_opposite(n);
    if dot(d, n).nan() {
        if !dot(d, o).nan() {
            lemma_dot_opposite(d, o);
        }
        lemma_dot_nan(d, n);
        lemma_dot_nan(d, o);
        reveal(Scalar::product);
    } else {
        lemma_dot_opposite(d, n);
        lemma_negated(dot(d, n));
        lemma_value_identifies(dot(d, o), dot(d, n).negated());
        lemma_two_scales(dot(d, n));
        lemma_opposite_factors(two, dot(d, n));
        let k = two.product(dot(d, n));
        lemma_both_opposite(n.x, k);
        lemma_both_opposite(n.y, k);
        lemma_both_opposite(n.z, k);
    }
}

/// The opposite of a factor gives the opposite product.
proof fn lemma_opposite_factors(x: Scalar, y: Scalar)
    requires
        !x.product(y).nan(),
    ensures
        x.product(y.negated()) == x.product(y).negated(),
{
    reveal(Scalar::product);
    lemma_pow2_pos(149);
    lemma_magnitude_sign(x.unsigned_bits());
    lemma_magnitude_sign(y.unsigned_bits());
    let num: int = x.size() * y.size();
    assert(num >= 0) by (nonlinear_arith)
        requires
            num == x.size() * y.size(),
            x.size() >= 0,
            y.size() >= 0,
    ;
    lemma_rounded_value(false, num, one());
}

/// Twice a number is a number.
proof fn lemma_two_scales(y: Scalar)
    requires
        !y.nan(),
    ensures
        !(Scalar { bits: TWO_BITS }).product(y).nan(),
{
    reveal(Scalar::product);
    let two = Scalar { bits: TWO_BITS };
    lemma_magnitude_sign(0);
    lemma_magnitude_increases(0, TWO_BITS as int);
    lemma_pow2_pos(149);
    lemma_magnitude_sign(y.unsigned_bits());
    let num: int = two.size() * y.size();
    assert(num >= 0) by (nonlinear_arith)
        requires
            num == two.size() * y.size(),
            two.size() >= 0,
            y.size() >= 0,
    ;
    lemma_rounded_value(y.negative(), num, one());
}

/// The opposites of both factors give the same product.
proof fn lemma_both_opposite(x: Scalar, y: Scalar)
    ensures
        x.negated().product(y.negated()) == x.product(y),
{
    let (a, b) = (x.negated(), y.negated());
    assert(a.unsigned_bits() == x.unsigned_bits() && b.unsigned_bits() == y.unsigned_bits());
    assert(a.negative() != x.negative() && b.negative() != y.negative());
    assert(a.nan() == x.nan() && b.nan() == y.nan());
    assert(a.infinite() == x.infinite() && b.infinite() == y.infinite());
    assert(a.size() == x.size() && b.size() == y.size());
    reveal(Scalar::product);
}

/// Nothing taken from a number leaves it.
proof fn lemma_zero_taken(x: Scalar, z: Scalar)
    requires
        x.finite(),
        z.finite(),
        z.value() == 0,
    ensures
        x.difference(z).value() == x.value(),
{
    reveal(Scalar::difference);
    lemma_negated(z);
    lemma_sum_value(x, z.negated());
    lemma_nearest_exact(x.unsigned_bits());
    lemma_magnitude_sign(x.unsigned_bits());
    lemma_rounded_value(x.value() < 0, x.size(), 1);
}

/// Zero times a finite number is zero.
proof fn lemma_times_zero(x: Scalar, z: Scalar)
    requires
        x.finite(),
        z.finite(),
        z.value() == 0,
    ensures
        x.product(z).finite(),
        x.product(z).value() == 0,
{
    reveal(Scalar::product);
    lemma_pow2_pos(149);
    lemma_magnitude_sign(0);
    lemma_magnitude_sign(z.unsigned_bits());
    assert(x.size() * z.size() == 0) by (nonlinear_arith)
        requires
            z.size() == 0,
    ;
    lemma_nearest_zero(one());
}

/// A direction in the surface is reflected into itself, whichever side the
/// normal points to.
pub proof fn lemma_reflection_in_surface(d: Vector, n: Vector)
    requires
        d.x.finite() && d.y.finite() && d.z.finite(),
        n.x.finite() && n.y.finite() && n.z.finite(),
        dot(d, n).finite(),
        dot(d, n).value() == 0,
    ensures
        ({
            let (r, o) = (mirrored(d, n), mirrored(d, n.negated()));
            &&& r.x.value() == d.x.value() && r.y.value() == d.y.value() && r.z.value()
                == d.z.value()
            &&& o.x.value() == d.x.value() && o.y.value() == d.y.value() && o.z.value()
                == d.z.value()
        }),
{
    let o = n.negated();
    lemma_dot_opposite(d, n);
    lemma_zero_is_finite(dot(d, o));
    lemma_finite_opposite(n.x);
    lemma_finite_opposite(n.y);
    lemma_finite_opposite(n.z);
    lemma_kept_in_surface(d, n);
    lemma_kept_in_surface(d, o);
}

proof fn lemma_finite_opposite(x: Scalar)
    requires
        x.finite(),
    ensures
        x.negated().finite(),
{
}

/// The components of a direction in the surface are kept.
proof fn lemma_kept_in_surface(d: Vector, n: Vector)
    requires
        d.x.finite() && d.y.finite() && d.z.finite(),
        n.x.finite() && n.y.finite() && n.z.finite(),
        dot(d, n).finite(),
        dot(d, n).value() == 0,
    ensures
        mirrored(d, n).x.value() == d.x.value(),
        mirrored(d, n).y.value() == d.y.value(),
        mirrored(d, n).z.value() == d.z.value(),
{
    let s = dot(d, n);
    let j = (Scalar { bits: TWO_BITS }).product(s);
    lemma_times_zero(Scalar { bits: TWO_BITS }, s);
    lemma_component_kept(d.x, n.x, j);
    lemma_component_kept(d.y, n.y, j);
    lemma_component_kept(d.z, n.z, j);
}

proof fn lemma_component_kept(d: Scalar, n: Scalar, j: Scalar)
    requires
        d.finite() && n.finite() && j.finite(),
        j.value() == 0,
    ensures
        d.difference(n.product(j)).value() == d.value(),
{
    lemma_times_zero(n, j);
    lemma_zero_taken(d, n.product(j));
}

proof fn lemma_zero_is_finite(x: Scalar)
    requires
        !x.nan(),
        x.value() == 0,
    ensures
        x.finite(),
{
    lemma_magnitude_sign(x.unsigned_bits());
}

/// A direction in the plane that `d` and `n` span.
pub open spec fn in_plane(t: Vector, d: Vector, n: Vector, along: Scalar, across: Scalar) -> bool {
    t == unit(vector_sum(vector_scaled(d, along), vector_scaled(n, across)))
}

/// The transmitted direction never leaves the plane of incidence: for every
/// pair of indices, and so for every wavelength, it is a combination of the
/// incident direction and the normal on its side.
pub proof fn lemma_plane_of_incidence(d: Vector, n: Vector, n1: Scalar, n2: Scalar)
    ensures
        refracted(d, n, n1, n2) matches Some(t) ==> exists|along: Scalar, across: Scalar|
            in_plane(t, d, incidence(d, n).normal, along, across),
{
    let eta = n1.quotient(n2);
    let i = incidence(d, n);
    let k = (Scalar { bits: ONE_BITS }).difference(transmitted_sine(eta, i.cos_i));
    let across = eta.product(i.cos_i).difference(k.square_root());
    if let Some(t) = refracted(d, n, n1, n2) {
        assert(in_plane(t, d, i.normal, eta, across));
    }
}

/// Light that meets a surface upright in the world plane of x and y is
/// transmitted within that plane.
pub proof fn lemma_world_plane(d: Vector, n: Vector, n1: Scalar, n2: Scalar)
    requires
        d.z.value() == 0,
        n.z.value() == 0,
    ensures
        refracted(d, n, n1, n2) matches Some(t) ==> t.z.nan() || t.z.value() == 0,
{
    let eta = n1.quotient(n2);
    let i = incidence(d, n);
    let k = (Scalar { bits: ONE_BITS }).difference(transmitted_sine(eta, i.cos_i));
    let across = eta.product(i.cos_i).difference(k.square_root());
    if let Some(t) = refracted(d, n, n1, n2) {
        let sum = vector_sum(vector_scaled(d, eta), vector_scaled(i.normal, across));
        let factor = (Scalar { bits: ONE_BITS }).quotient(length(sum));
        lemma_negated(n.z);
        lemma_zero_product(d.z, eta);
        lemma_zero_product(i.normal.z, across);
        lemma_zero_sum(d.z.product(eta), i.normal.z.product(across));
        lemma_zero_product(sum.z, factor);
    }
}

/// Where refraction finds total internal reflection, the reflectance is
/// exactly one.
pub proof fn lemma_total_reflection_agrees(d: Vector, n: Vector, n1: Scalar, n2: Scalar)
    ensures
        refracted(d, n, n1, n2) is None ==> reflectance(incidence(d, n).cos_i, n1, n2) == (Scalar {
            bits: ONE_BITS,
        }),
{
    let unit_size = Scalar { bits: ONE_BITS };
    let c = incidence(d, n).cos_i;
    let ratio = n1.quotient(n2);
    let s = transmitted_sine(ratio, c);
    lemma_one_bits();
    lemma_difference_sign(unit_size, s);
    lemma_negated(dot(d, n).negated());
    if c.nan() {
        lemma_refracted_nan(d, n, n1, n2);
    } else if unit_size.below(c) {
        lemma_steep_sine(ratio, c);
    }
}

/// A cosine that rounding has brought above one leaves no sine.
pub proof fn lemma_steep_sine(ratio: Scalar, c: Scalar)
    requires
        (Scalar { bits: ONE_BITS }).below(c),
    ensures
        !(Scalar { bits: ONE_BITS }).below(transmitted_sine(ratio, c)),
{
    let square = c.product(c);
    let rest = (Scalar { bits: ONE_BITS }).difference(square);
    let factor = ratio.product(ratio);
    lemma_one_bits();
    lemma_square_above(c);
    lemma_complement_not_positive(square);
    let s = factor.product(rest);
    if !s.nan() {
        lemma_product_operands(factor, rest);
        lemma_product_operands(ratio, ratio);
        lemma_square_not_negative(ratio);
        lemma_product_opposite(factor, rest);
        lemma_negated(rest);
        lemma_product_not_negative(factor, rest.negated());
    }
}

/// A square is not negative.
proof fn lemma_square_not_negative(x: Scalar)
    requires
        !x.product(x).nan(),
    ensures
        x.product(x).value() >= 0,
{
    lemma_product_operands(x, x);
    lemma_negated(x);
    if x.value() >= 0 {
        lemma_product_not_negative(x, x);
    } else {
        lemma_product_opposite(x, x);
        reveal(Scalar::product);
        assert(x.negated().product(x.negated()) == x.product(x));
        lemma_product_not_negative(x.negated(), x.negated());
    }
}

/// The reflectance of media with indices that are not negative lies between
/// zero and one, wherever it is a number.
pub proof fn lemma_reflectance_bounded(cos_i: Scalar, n1: Scalar, n2: Scalar)
    requires
        n1.value() >= 0,
        n2.value() >= 0,
        !reflectance(cos_i, n1, n2).nan(),
    ensures
        (Scalar { bits: 0 }).at_most(reflectance(cos_i, n1, n2)),
        reflectance(cos_i, n1, n2).at_most(Scalar { bits: ONE_BITS }),
{
    let one = Scalar { bits: ONE_BITS };
    let c = clamped_cosine(cos_i);
    let sin_t2 = transmitted_sine(n1.quotient(n2), c);
    let cos_t = one.difference(sin_t2).square_root();
    lemma_one_bits();
    if !one.at_most(sin_t2) {
        let rs = contrast(n1.product(c), n2.product(cos_t));
        let rp = contrast(n1.product(cos_t), n2.product(c));
        lemma_product_operands(Scalar { bits: HALF_BITS }, rs.sum(rp));
        lemma_sum_operands(rs, rp);
        lemma_contrast_operands(n1.product(c), n2.product(cos_t));
        lemma_contrast_operands(n1.product(cos_t), n2.product(c));
        lemma_product_operands(n1, c);
        lemma_product_operands(n2, cos_t);
        lemma_root_sign(one.difference(sin_t2));
        lemma_product_not_negative(n1, c);
        lemma_product_not_negative(n2, cos_t);
        lemma_product_not_negative(n1, cos_t);
        lemma_product_not_negative(n2, c);
        lemma_contrast_bounded(n1.product(c), n2.product(cos_t));
        lemma_contrast_bounded(n1.product(cos_t), n2.product(c));
        lemma_mean_bounded(rs, rp);
    }
}

proof fn lemma_one_bits()
    ensures
        (Scalar { bits: ONE_BITS }).value() == one(),
        (Scalar { bits: 0 }).value() == 0,
        one() > 0,
{
    lemma2_to64();
    lemma_pow2_adds(23, 126);
    lemma_pow2_pos(149);
}

proof fn lemma_contrast_operands(a: Scalar, b: Scalar)
    requires
        !contrast(a, b).nan(),
    ensures
        !a.nan(),
        !b.nan(),
{
    let ratio = a.difference(b).quotient(a.sum(b));
    lemma_product_operands(ratio, ratio);
    reveal(Scalar::quotient);
    lemma_sum_operands(a, b);
}

} // verus!
