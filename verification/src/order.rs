//! How the rounded operations keep the order of numbers.
use crate::arith::absolute;
use crate::arith::integral;
use crate::arith::lemma_nearest_exact;
use crate::arith::lemma_nearest_exists;
use crate::arith::lemma_nearest_monotone;
use crate::arith::lemma_nearest_multiple;
use crate::arith::lemma_nearest_root_exists;
use crate::arith::lemma_nearest_zero;
use crate::arith::nearest;
use crate::arith::nearest_root;
use crate::arith::rounded;
use crate::arith::signed;
use crate::convert::one;
use crate::geom::Quadratic;
use crate::geom::Ray;
use crate::geom::Sphere;
use crate::geom::TWO_BITS;
use crate::optics::contrast;
use crate::optics::HALF_BITS;
use crate::scalar::lemma_infinities_bound;
use crate::scalar::lemma_magnitude_increases;
use crate::scalar::lemma_magnitude_sign;
use crate::scalar::lemma_negated;
use crate::scalar::magnitude;
use crate::scalar::Scalar;
use crate::scalar::ONE_BITS;
use vstd::arithmetic::power2::lemma2_to64;
use vstd::arithmetic::power2::lemma_pow2_adds;
use vstd::arithmetic::power2::lemma_pow2_pos;
use vstd::arithmetic::power2::lemma_pow2_unfold;
use vstd::arithmetic::power2::pow2;
use vstd::prelude::*;

verus! {

/// Encoding of the negative zero.
pub const NEGATIVE_ZERO_BITS: u32 = 0x8000_0000;

/// The size of a rounded number is that of the nearest encoding.
pub proof fn lemma_rounded_value(negative: bool, num: int, den: int)
    requires
        num >= 0,
        den > 0,
    ensures
        !rounded(negative, num, den).nan(),
        0 <= nearest(num, den) <= 0x7f80_0000,
        magnitude(nearest(num, den)) >= 0,
        rounded(negative, num, den).value() == if negative {
            -magnitude(nearest(num, den))
        } else {
            magnitude(nearest(num, den))
        },
{
    lemma_nearest_exists(num, den);
    lemma_magnitude_sign(nearest(num, den));
}

/// Rounding keeps the order of two quotients with one denominator, signs and
/// all.
proof fn lemma_rounded_order(a: int, b: int, den: int)
    requires
        a <= b,
        den > 0,
    ensures
        rounded(a < 0, absolute(a), den).value() <= rounded(b < 0, absolute(b), den).value(),
{
    lemma_rounded_value(a < 0, absolute(a), den);
    lemma_rounded_value(b < 0, absolute(b), den);
    let ka: int = nearest(absolute(a), den);
    let kb: int = nearest(absolute(b), den);
    if a >= 0 {
        lemma_nearest_monotone(a, b, den);
        if ka < kb {
            lemma_magnitude_increases(ka, kb);
        }
    } else if b < 0 {
        lemma_nearest_monotone(-b, -a, den);
        if kb < ka {
            lemma_magnitude_increases(kb, ka);
        }
    }
}

/// The sum of finite numbers has the value of the rounded total.
pub proof fn lemma_sum_value(x: Scalar, y: Scalar)
    requires
        x.finite(),
        y.finite(),
    ensures
        !x.sum(y).nan(),
        x.sum(y).value() == rounded(
            x.value() + y.value() < 0,
            absolute(x.value() + y.value()),
            1,
        ).value(),
{
    reveal(Scalar::sum);
    let total: int = x.value() + y.value();
    lemma_rounded_value(total < 0, absolute(total), 1);
    if total == 0 {
        lemma_nearest_exact(0);
    }
}

/// An integer that is not negative is not below zero as a number.
pub proof fn lemma_integral_not_negative(n: int)
    requires
        n >= 0,
    ensures
        (Scalar { bits: 0 }).at_most(integral(n)),
{
    lemma_pow2_pos(149);
    assert(n * one() >= 0) by (nonlinear_arith)
        requires
            n >= 0,
            one() > 0,
    ;
    lemma_rounded_value(false, n * one(), 1);
}

/// The sum of finite numbers is a number.
pub proof fn lemma_sum_is_number(x: Scalar, y: Scalar)
    requires
        x.finite(),
        y.finite(),
    ensures
        !x.sum(y).nan(),
{
    lemma_sum_value(x, y);
}

/// Zero added to a number leaves it, unless the number is the negative zero.
pub proof fn lemma_sum_zero(x: Scalar)
    requires
        !x.nan(),
        x.bits != NEGATIVE_ZERO_BITS,
    ensures
        x.sum(Scalar { bits: 0 }) == x,
{
    reveal(Scalar::sum);
    lemma_magnitude_sign(0);
    lemma_magnitude_sign(x.unsigned_bits());
    if x.finite() && x.value() != 0 {
        lemma_nearest_exact(x.unsigned_bits());
    }
}

/// Zero over a positive number is zero.
pub proof fn lemma_zero_quotient(a: Scalar)
    requires
        a.finite(),
        a.value() > 0,
    ensures
        (Scalar { bits: 0 }).quotient(a) == (Scalar { bits: 0 }),
{
    reveal(Scalar::quotient);
    lemma_magnitude_sign(0);
    lemma_magnitude_sign(a.unsigned_bits());
    assert((Scalar { bits: 0 }).size() * one() == 0) by (nonlinear_arith)
        requires
            (Scalar { bits: 0 }).size() == 0,
    ;
    lemma_nearest_zero(a.size());
}

/// The sum of finite numbers has the sign of the exact sum.
pub proof fn lemma_sum_sign(x: Scalar, y: Scalar)
    requires
        x.finite(),
        y.finite(),
    ensures
        x.sum(y).value() < 0 <==> x.value() + y.value() < 0,
        x.sum(y).value() > 0 <==> x.value() + y.value() > 0,
{
    let total: int = x.value() + y.value();
    let num: int = absolute(total);
    lemma_sum_value(x, y);
    lemma_rounded_value(total < 0, num, 1);
    let k: int = nearest(num, 1);
    if num == 0 {
        lemma_nearest_exact(0);
    } else {
        lemma_nearest_exact(1);
        lemma_nearest_monotone(1, num, 1);
        lemma_magnitude_increases(0, k);
    }
}

/// The difference of two numbers is below zero exactly where the first is
/// below the second.
pub proof fn lemma_difference_sign(a: Scalar, b: Scalar)
    requires
        a.finite(),
    ensures
        a.difference(b).below(Scalar { bits: 0 }) <==> a.below(b),
{
    reveal(Scalar::difference);
    lemma_magnitude_sign(a.unsigned_bits());
    lemma_magnitude_sign(b.unsigned_bits());
    if b.finite() {
        lemma_sum_value(a, b.negated());
        lemma_sum_sign(a, b.negated());
    } else {
        reveal(Scalar::sum);
        lemma_magnitude_increases(a.unsigned_bits(), 0x7f80_0000);
    }
}

/// A larger summand does not give a smaller sum.
pub proof fn lemma_sum_order(x: Scalar, y: Scalar, z: Scalar)
    requires
        y.at_most(z),
        !x.sum(y).nan(),
        !x.sum(z).nan(),
    ensures
        x.sum(y).at_most(x.sum(z)),
{
    reveal(Scalar::sum);
    lemma_infinities_bound(x.sum(y));
    lemma_infinities_bound(x.sum(z));
    lemma_infinities_bound(y);
    lemma_infinities_bound(z);
    if x.finite() && y.finite() && z.finite() {
        lemma_sum_value(x, y);
        lemma_sum_value(x, z);
        lemma_rounded_order(x.value() + y.value(), x.value() + z.value(), 1);
    } else if x.finite() {
        lemma_magnitude_sign(y.unsigned_bits());
        lemma_magnitude_sign(z.unsigned_bits());
        lemma_magnitude_sign(0x7f80_0000);
        if y.finite() {
            lemma_magnitude_increases(y.unsigned_bits(), 0x7f80_0000);
        }
        if z.finite() {
            lemma_magnitude_increases(z.unsigned_bits(), 0x7f80_0000);
        }
    }
}

/// Dividing by a positive number keeps the order.
pub proof fn lemma_quotient_order(y: Scalar, z: Scalar, a: Scalar)
    requires
        y.at_most(z),
        a.finite(),
        a.value() > 0,
    ensures
        y.quotient(a).at_most(z.quotient(a)),
{
    reveal(Scalar::quotient);
    lemma_pow2_pos(149);
    lemma_magnitude_sign(y.unsigned_bits());
    lemma_magnitude_sign(z.unsigned_bits());
    lemma_magnitude_sign(a.unsigned_bits());
    lemma_infinities_bound(y.quotient(a));
    lemma_infinities_bound(z.quotient(a));
    lemma_magnitude_sign(0x7f80_0000);
    if y.finite() {
        lemma_quotient_value(y, a);
    } else {
        lemma_infinities_bound(z);
    }
    if z.finite() {
        lemma_quotient_value(z, a);
    } else {
        lemma_infinities_bound(y);
    }
    if y.finite() && z.finite() {
        assert(y.value() * one() <= z.value() * one()) by (nonlinear_arith)
            requires
                y.value() <= z.value(),
                one() > 0,
        ;
        lemma_rounded_order(y.value() * one(), z.value() * one(), a.size());
    }
    if y.finite() {
        lemma_magnitude_increases(y.unsigned_bits(), 0x7f80_0000);
    }
    if z.finite() {
        lemma_magnitude_increases(z.unsigned_bits(), 0x7f80_0000);
    }
}

proof fn lemma_quotient_value(y: Scalar, a: Scalar)
    requires
        y.finite(),
        a.finite(),
        a.value() > 0,
    ensures
        !y.quotient(a).nan(),
        y.quotient(a).value() == rounded(
            y.value() * one() < 0,
            absolute(y.value() * one()),
            a.size(),
        ).value(),
{
    reveal(Scalar::quotient);
    lemma_pow2_pos(149);
    lemma_magnitude_sign(y.unsigned_bits());
    lemma_magnitude_sign(a.unsigned_bits());
    let num: int = y.size() * one();
    assert(num >= 0) by (nonlinear_arith)
        requires
            num == y.size() * one(),
            y.size() >= 0,
            one() > 0,
    ;
    assert((-y.size()) * one() == -num) by (nonlinear_arith)
        requires
            num == y.size() * one(),
    ;
    assert(num == 0 <==> y.size() == 0) by (nonlinear_arith)
        requires
            num == y.size() * one(),
            one() > 0,
    ;
    lemma_rounded_value(y.negative() != a.negative(), num, a.size());
    lemma_rounded_value(y.value() * one() < 0, num, a.size());
    if num == 0 {
        lemma_nearest_exists(0, a.size());
        let k: int = nearest(0, a.size());
        if k > 0 {
            lemma_magnitude_increases(k - 1, k);
            lemma_magnitude_sign(k - 1);
            assert((magnitude(k - 1) + magnitude(k)) * a.size() > 0) by (nonlinear_arith)
                requires
                    magnitude(k - 1) >= 0,
                    magnitude(k) > 0,
                    a.size() > 0,
            ;
        }
    }
}

/// A square root that is a number is not negative.
pub proof fn lemma_root_sign(x: Scalar)
    requires
        !x.square_root().nan(),
    ensures
        x.square_root().value() >= 0,
{
    reveal(Scalar::square_root);
    lemma_magnitude_sign(x.unsigned_bits());
    if !x.nan() && x.size() != 0 && !x.negative() && !x.infinite() {
        lemma_nearest_root_exists(x.size() * one());
        lemma_magnitude_sign(nearest_root(x.size() * one()));
    }
}

/// A quotient that is a number has a numerator that is.
proof fn lemma_quotient_operand(x: Scalar, y: Scalar)
    requires
        !x.quotient(y).nan(),
    ensures
        !x.nan(),
{
    reveal(Scalar::quotient);
}

/// A sum that is a number has a summand that is.
proof fn lemma_sum_operand(x: Scalar, y: Scalar)
    requires
        !x.sum(y).nan(),
    ensures
        !y.nan(),
{
    reveal(Scalar::sum);
}

/// A number less and more something that is not negative come in order.
proof fn lemma_spread(x: Scalar, y: Scalar)
    requires
        y.value() >= 0,
        !x.difference(y).nan(),
        !x.sum(y).nan(),
    ensures
        x.difference(y).at_most(x.sum(y)),
{
    reveal(Scalar::difference);
    lemma_sum_operand(x, y);
    lemma_negated(y);
    lemma_sum_order(x, y.negated(), y);
}

/// The roots of a sphere's quadratic come in order, where both are numbers.
pub proof fn lemma_roots_ordered(sphere: Sphere, ray: Ray)
    requires
        sphere.quadratic(ray).a.finite(),
        sphere.quadratic(ray).a.value() > 0,
        !sphere.quadratic(ray).smaller_root().nan(),
        !sphere.quadratic(ray).larger_root().nan(),
    ensures
        sphere.quadratic(ray).smaller_root().at_most(sphere.quadratic(ray).larger_root()),
{
    let q = sphere.quadratic(ray);
    lemma_quadratic_ordered(q);
}

proof fn lemma_quadratic_ordered(q: Quadratic)
    requires
        q.a.finite(),
        q.a.value() > 0,
        !q.smaller_root().nan(),
        !q.larger_root().nan(),
    ensures
        q.smaller_root().at_most(q.larger_root()),
{
    let sq = q.discriminant().square_root();
    let low = q.half_b.negated().difference(sq);
    let high = q.half_b.negated().sum(sq);
    lemma_quotient_operand(low, q.a);
    lemma_quotient_operand(high, q.a);
    lemma_sum_operand(q.half_b.negated(), sq);
    lemma_root_sign(q.discriminant());
    lemma_spread(q.half_b.negated(), sq);
    lemma_quotient_order(low, high, q.a);
}

/// A product that is a number has factors that are.
pub proof fn lemma_product_operands(x: Scalar, y: Scalar)
    requires
        !x.product(y).nan(),
    ensures
        !x.nan(),
        !y.nan(),
{
    reveal(Scalar::product);
}

/// A sum that is a number has summands that are.
pub proof fn lemma_sum_operands(x: Scalar, y: Scalar)
    requires
        !x.sum(y).nan(),
    ensures
        !x.nan(),
        !y.nan(),
{
    reveal(Scalar::sum);
}

/// The product of numbers that are not negative is not negative.
pub proof fn lemma_product_not_negative(x: Scalar, y: Scalar)
    requires
        x.value() >= 0,
        y.value() >= 0,
        !x.product(y).nan(),
    ensures
        x.product(y).value() >= 0,
{
    reveal(Scalar::product);
    lemma_magnitude_sign(x.unsigned_bits());
    lemma_magnitude_sign(y.unsigned_bits());
    lemma_magnitude_sign(0x7f80_0000);
    lemma_pow2_pos(149);
    let num: int = x.size() * y.size();
    let negative: bool = x.negative() != y.negative();
    assert(num >= 0 && (x.size() == 0 || y.size() == 0 ==> num == 0)) by (nonlinear_arith)
        requires
            num == x.size() * y.size(),
            x.size() >= 0,
            y.size() >= 0,
    ;
    lemma_rounded_value(negative, num, one());
    if num == 0 {
        lemma_nearest_zero(one());
    }
}

/// One over one in its own unit.
pub proof fn lemma_one_size()
    ensures
        magnitude(ONE_BITS as int) == one(),
{
    lemma2_to64();
    lemma_pow2_adds(23, 126);
}

/// The ratio of the difference of two numbers that are not negative to their
/// sum, squared, is never more than one.
pub proof fn lemma_contrast_bounded(a: Scalar, b: Scalar)
    requires
        a.value() >= 0,
        b.value() >= 0,
        !contrast(a, b).nan(),
    ensures
        0 <= contrast(a, b).value() <= one(),
{
    let num = a.difference(b);
    let den = a.sum(b);
    let ratio = num.quotient(den);
    lemma_product_operands(ratio, ratio);
    lemma_contrast_parts(a, b);
    lemma_ratio_bounded(num, den);
    lemma_square_bounded(ratio);
}

proof fn lemma_contrast_parts(a: Scalar, b: Scalar)
    requires
        a.value() >= 0,
        b.value() >= 0,
        !a.difference(b).quotient(a.sum(b)).nan(),
    ensures
        !a.difference(b).nan(),
        !a.sum(b).nan(),
        a.sum(b).value() > 0,
        -a.sum(b).value() <= a.difference(b).value() <= a.sum(b).value(),
{
    reveal(Scalar::quotient);
    reveal(Scalar::difference);
    lemma_negated(b);
    lemma_magnitude_sign(a.unsigned_bits());
    lemma_magnitude_sign(b.unsigned_bits());
    lemma_magnitude_sign(a.sum(b).unsigned_bits());
    lemma_magnitude_sign(a.difference(b).unsigned_bits());
    if a.finite() && b.finite() {
        lemma_sum_value(a, b);
        lemma_sum_value(a, b.negated());
        lemma_sum_sign(a, b);
        lemma_sum_sign(a, b.negated());
        lemma_rounded_order(a.value() - b.value(), a.value() + b.value(), 1);
        lemma_rounded_opposite(a.value() + b.value());
        lemma_rounded_order(-(a.value() + b.value()), a.value() - b.value(), 1);
    } else {
        reveal(Scalar::sum);
    }
}

/// Rounding treats both signs alike.
proof fn lemma_rounded_opposite(n: int)
    requires
        n >= 0,
    ensures
        rounded(-n < 0, absolute(-n), 1).value() == -rounded(n < 0, absolute(n), 1).value(),
{
    lemma_rounded_value(-n < 0, absolute(-n), 1);
    lemma_rounded_value(n < 0, absolute(n), 1);
    if n == 0 {
        lemma_nearest_zero(1);
    }
}

proof fn lemma_ratio_bounded(num: Scalar, den: Scalar)
    requires
        !num.quotient(den).nan(),
        den.value() > 0,
        -den.value() <= num.value() <= den.value(),
    ensures
        num.quotient(den).size() <= one(),
{
    reveal(Scalar::quotient);
    lemma_magnitude_sign(num.unsigned_bits());
    lemma_magnitude_sign(den.unsigned_bits());
    lemma_pow2_pos(149);
    lemma_one_size();
    lemma_magnitude_sign(0);
    if num.infinite() {
        lemma_infinities_bound(den);
        if den.finite() {
            lemma_magnitude_increases(den.unsigned_bits(), 0x7f80_0000);
        }
    } else if !den.infinite() {
        let n: int = num.size() * one();
        let d: int = den.size();
        assert(0 <= n <= one() * d) by (nonlinear_arith)
            requires
                n == num.size() * one(),
                0 <= num.size() <= d,
                one() > 0,
        ;
        lemma_nearest_monotone(n, one() * d, d);
        lemma_nearest_multiple(ONE_BITS as int, d);
        lemma_nearest_exists(n, d);
        if nearest(n, d) < ONE_BITS {
            lemma_magnitude_increases(nearest(n, d), ONE_BITS as int);
        }
    }
}

pub proof fn lemma_square_bounded(ratio: Scalar)
    requires
        !ratio.nan(),
        ratio.size() <= one(),
    ensures
        0 <= ratio.product(ratio).value() <= one(),
{
    reveal(Scalar::product);
    lemma_one_size();
    lemma_pow2_pos(149);
    lemma_magnitude_sign(ratio.unsigned_bits());
    lemma_magnitude_increases(ONE_BITS as int, 0x7f80_0000);
    let s: int = ratio.size();
    let n: int = s * s;
    assert(0 <= n <= one() * one()) by (nonlinear_arith)
        requires
            n == s * s,
            0 <= s <= one(),
    ;
    lemma_nearest_monotone(n, one() * one(), one());
    lemma_nearest_multiple(ONE_BITS as int, one());
    lemma_nearest_exists(n, one());
    lemma_magnitude_sign(nearest(n, one()));
    if nearest(n, one()) < ONE_BITS {
        lemma_magnitude_increases(nearest(n, one()), ONE_BITS as int);
    }
}

/// The mean of two numbers between zero and one lies there too.
pub proof fn lemma_mean_bounded(x: Scalar, y: Scalar)
    requires
        !x.nan(),
        !y.nan(),
        0 <= x.value() <= one(),
        0 <= y.value() <= one(),
    ensures
        !(Scalar { bits: HALF_BITS }).product(x.sum(y)).nan(),
        0 <= (Scalar { bits: HALF_BITS }).product(x.sum(y)).value() <= one(),
{
    let half = Scalar { bits: HALF_BITS };
    let total = x.sum(y);
    lemma_one_size();
    lemma_pow2_pos(149);
    lemma2_to64();
    lemma_pow2_adds(23, 125);
    lemma_pow2_adds(23, 127);
    lemma_pow2_unfold(149);
    lemma_pow2_unfold(150);
    assert(half.size() == pow2(148));
    assert(magnitude(TWO_BITS as int) == pow2(150));
    lemma_magnitude_increases(ONE_BITS as int, 0x7f80_0000);
    lemma_magnitude_increases(TWO_BITS as int, 0x7f80_0000);
    lemma_magnitude_sign(x.unsigned_bits());
    lemma_magnitude_sign(y.unsigned_bits());
    lemma_sum_value(x, y);
    lemma_rounded_order(x.value() + y.value(), 2 * one(), 1);
    lemma_nearest_exact(TWO_BITS as int);
    lemma_rounded_value(false, 2 * one(), 1);
    lemma_sum_sign(x, y);
    lemma_magnitude_sign(total.unsigned_bits());
    assert(total.finite());
    reveal(Scalar::product);
    let h: int = half.size();
    let t: int = total.size();
    let n: int = h * t;
    assert(0 <= n <= one() * one()) by (nonlinear_arith)
        requires
            n == h * t,
            0 <= t <= 2 * one(),
            2 * h == one(),
            one() > 0,
    ;
    lemma_nearest_monotone(n, one() * one(), one());
    lemma_nearest_multiple(ONE_BITS as int, one());
    lemma_nearest_exists(n, one());
    lemma_magnitude_sign(nearest(n, one()));
    if nearest(n, one()) < ONE_BITS {
        lemma_magnitude_increases(nearest(n, one()), ONE_BITS as int);
    }
    if total.negative() {
        assert(n == 0) by (nonlinear_arith)
            requires
                n == h * t,
                t == 0,
        ;
        lemma_nearest_zero(one());
    }
}

/// Negating a factor negates the product.
pub proof fn lemma_product_opposite(x: Scalar, y: Scalar)
    requires
        !x.product(y).nan(),
    ensures
        !x.product(y.negated()).nan(),
        x.product(y.negated()).value() == -x.product(y).value(),
{
    let o = y.negated();
    assert(o.unsigned_bits() == y.unsigned_bits());
    assert(o.negative() != y.negative());
    lemma_pow2_pos(149);
    lemma_magnitude_sign(x.unsigned_bits());
    lemma_magnitude_sign(y.unsigned_bits());
    let num: int = x.size() * y.size();
    assert(num >= 0) by (nonlinear_arith)
        requires
            num == x.size() * y.size(),
            x.size() >= 0,
            y.size() >= 0,
    ;
    lemma_rounded_value(true, num, one());
    lemma_rounded_value(false, num, one());
    assert(x.size() * o.size() == num);
    let negative = x.negative() != y.negative();
    reveal(Scalar::product);
    if x.finite() && y.finite() {
        assert(x.product(y) == rounded(negative, num, one()));
        assert(x.product(o) == rounded(!negative, num, one()));
    } else {
        assert(x.product(y) == signed(negative, 0x7f80_0000));
        assert(x.product(o) == signed(!negative, 0x7f80_0000));
    }
}

/// Two numbers of one size are both infinite or neither is.
proof fn lemma_same_size(x: Scalar, y: Scalar)
    requires
        x.size() == y.size(),
    ensures
        x.unsigned_bits() == y.unsigned_bits(),
{
    if x.unsigned_bits() < y.unsigned_bits() {
        lemma_magnitude_increases(x.unsigned_bits(), y.unsigned_bits());
    } else if y.unsigned_bits() < x.unsigned_bits() {
        lemma_magnitude_increases(y.unsigned_bits(), x.unsigned_bits());
    }
}

/// Summands of the opposite values have the opposite sum.
pub proof fn lemma_sum_opposite(x: Scalar, y: Scalar, u: Scalar, v: Scalar)
    requires
        !x.sum(y).nan(),
        !u.nan(),
        !v.nan(),
        u.value() == -x.value(),
        v.value() == -y.value(),
    ensures
        !u.sum(v).nan(),
        u.sum(v).value() == -x.sum(y).value(),
{
    lemma_sum_operands(x, y);
    lemma_magnitude_sign(x.unsigned_bits());
    lemma_magnitude_sign(y.unsigned_bits());
    lemma_magnitude_sign(u.unsigned_bits());
    lemma_magnitude_sign(v.unsigned_bits());
    lemma_magnitude_sign(0x7f80_0000);
    lemma_same_size(x, u);
    lemma_same_size(y, v);
    if x.finite() && y.finite() {
        let total: int = x.value() + y.value();
        lemma_sum_value(x, y);
        lemma_sum_value(u, v);
        if total >= 0 {
            lemma_rounded_opposite(total);
        } else {
            lemma_rounded_opposite(-total);
        }
    } else {
        reveal(Scalar::sum);
    }
}

/// The square of a number that is larger than one is not below one.
pub proof fn lemma_square_above(x: Scalar)
    requires
        !x.nan(),
        x.size() >= one(),
    ensures
        !x.product(x).nan(),
        x.product(x).value() >= one(),
{
    reveal(Scalar::product);
    lemma_one_size();
    lemma_pow2_pos(149);
    lemma_magnitude_sign(x.unsigned_bits());
    lemma_magnitude_increases(ONE_BITS as int, 0x7f80_0000);
    let s: int = x.size();
    let n: int = s * s;
    assert(n >= one() * one()) by (nonlinear_arith)
        requires
            n == s * s,
            s >= one() > 0,
    ;
    assert(one() * one() >= 0) by (nonlinear_arith)
        requires
            one() > 0,
    ;
    lemma_nearest_monotone(one() * one(), n, one());
    lemma_nearest_multiple(ONE_BITS as int, one());
    lemma_nearest_exists(n, one());
    if nearest(n, one()) > ONE_BITS {
        lemma_magnitude_increases(ONE_BITS as int, nearest(n, one()));
    }
}

/// One less a number that is not below one is not positive.
pub proof fn lemma_complement_not_positive(x: Scalar)
    requires
        !x.nan(),
        x.value() >= one(),
    ensures
        !(Scalar { bits: ONE_BITS }).difference(x).nan(),
        (Scalar { bits: ONE_BITS }).difference(x).value() <= 0,
{
    reveal(Scalar::difference);
    let unit = Scalar { bits: ONE_BITS };
    lemma_one_size();
    lemma_negated(x);
    lemma_magnitude_sign(x.unsigned_bits());
    if x.finite() {
        lemma_sum_value(unit, x.negated());
        lemma_sum_sign(unit, x.negated());
    } else {
        reveal(Scalar::sum);
    }
}

/// The quotient of a number that is not negative by a positive one is not
/// negative.
pub proof fn lemma_quotient_not_negative(x: Scalar, y: Scalar)
    requires
        x.value() >= 0,
        y.value() > 0,
        !x.quotient(y).nan(),
    ensures
        x.quotient(y).value() >= 0,
{
    reveal(Scalar::quotient);
    lemma_magnitude_sign(x.unsigned_bits());
    lemma_magnitude_sign(y.unsigned_bits());
    lemma_magnitude_sign(0x7f80_0000);
    lemma_magnitude_sign(0);
    lemma_pow2_pos(149);
    let num: int = x.size() * one();
    let negative: bool = x.negative() != y.negative();
    assert(num >= 0 && (x.size() == 0 ==> num == 0)) by (nonlinear_arith)
        requires
            num == x.size() * one(),
            x.size() >= 0,
            one() > 0,
    ;
    if !x.infinite() && !y.infinite() {
        lemma_rounded_value(negative, num, y.size());
        if num == 0 {
            lemma_nearest_zero(y.size());
        }
    }
}

/// Zero times anything is zero, or not a number.
pub proof fn lemma_zero_product(x: Scalar, y: Scalar)
    requires
        x.nan() || x.value() == 0,
    ensures
        x.product(y).nan() || x.product(y).value() == 0,
{
    reveal(Scalar::product);
    lemma_magnitude_sign(x.unsigned_bits());
    lemma_magnitude_sign(0);
    lemma_pow2_pos(149);
    if !x.nan() && !y.nan() && !y.infinite() {
        assert(x.size() * y.size() == 0) by (nonlinear_arith)
            requires
                x.size() == 0,
        ;
        lemma_nearest_zero(one());
    }
}

/// The sum of zeros is zero, where it is a number.
pub proof fn lemma_zero_sum(x: Scalar, y: Scalar)
    requires
        x.nan() || x.value() == 0,
        y.nan() || y.value() == 0,
    ensures
        x.sum(y).nan() || x.sum(y).value() == 0,
{
    reveal(Scalar::sum);
    lemma_magnitude_sign(x.unsigned_bits());
    lemma_magnitude_sign(y.unsigned_bits());
    lemma_magnitude_sign(0);
    lemma_magnitude_sign(0x7f80_0000);
}

/// One times a number is the number.
pub proof fn lemma_product_one(x: Scalar)
    requires
        !x.nan(),
    ensures
        x.product(Scalar { bits: ONE_BITS }) == x,
{
    reveal(Scalar::product);
    lemma_one_size();
    lemma_pow2_pos(149);
    lemma_magnitude_sign(x.unsigned_bits());
    lemma_nearest_multiple(x.unsigned_bits(), one());
}

/// A number that is not zero over itself is one.
pub proof fn lemma_quotient_self(x: Scalar)
    requires
        x.finite(),
        x.value() != 0,
    ensures
        x.quotient(x) == (Scalar { bits: ONE_BITS }),
{
    reveal(Scalar::quotient);
    lemma_one_size();
    lemma_magnitude_sign(x.unsigned_bits());
    assert(x.size() * one() == one() * x.size()) by (nonlinear_arith);
    lemma_nearest_multiple(ONE_BITS as int, x.size());
}

/// A positive number times zero is zero.
pub proof fn lemma_zero_factor(x: Scalar)
    requires
        x.finite(),
        !x.negative(),
    ensures
        x.product(Scalar { bits: 0 }) == (Scalar { bits: 0 }),
{
    reveal(Scalar::product);
    lemma_magnitude_sign(0);
    lemma_pow2_pos(149);
    assert(x.size() * 0 == 0);
    lemma_nearest_zero(one());
}

/// The order of two summands does not matter.
pub proof fn lemma_sum_commutes(x: Scalar, y: Scalar)
    ensures
        x.sum(y) == y.sum(x),
{
    reveal(Scalar::sum);
    lemma_magnitude_sign(x.unsigned_bits());
    lemma_magnitude_sign(y.unsigned_bits());
}

} // verus!
