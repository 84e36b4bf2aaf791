//! The comb of wavelengths of a path: its hero is spread over the band by the
//! draw, and its companions follow at quarters of the band.
use crate::arith::integral;
use crate::arith::lemma_remainder_exact;
use crate::camera::in_frame;
use crate::constants::lemma_constant;
use crate::convert::one;
use crate::exact::close;
use crate::exact::eps;
use crate::exact::lemma_one;
use crate::exact::lemma_product_close;
use crate::exact::lemma_sum_close;
use crate::exact::number;
use crate::raster::lemma_integral_number;
use crate::scalar::lemma_magnitude_sign;
use crate::scalar::Scalar;
use crate::spectrum::lane;
use crate::spectrum::lemma_quarter;
use crate::spectrum::lemma_unit_bounds;
use crate::spectrum::lemma_unwrapped;
use crate::spectrum::unwrapped;
use crate::spectrum::HERO_BITS;
use crate::spectrum::LAMBDA_MIN_BITS;
use crate::spectrum::LAMBDA_RANGE_BITS;
use crate::triple::lemma_eps;
use vstd::arithmetic::power2::lemma2_to64;
use vstd::prelude::*;

verus! {

/// A quarter of the band as a number.
proof fn lemma_quarter_number()
    ensures
        ({
            let step = (Scalar { bits: LAMBDA_RANGE_BITS }).quotient(Scalar { bits: HERO_BITS });
            step.finite() && number(step) == 175real / 2real
        }),
{
    reveal(number);
    lemma_one();
    lemma_quarter();
    let step = (Scalar { bits: LAMBDA_RANGE_BITS }).quotient(Scalar { bits: HERO_BITS });
    let (v, o) = (step.value() as real, one() as real);
    assert(2 * step.value() == 175 * one());
    assert((2 * step.value()) as real == 2real * v && (175 * one()) as real == 175real * o);
    assert(v / o == 175real / 2real) by (nonlinear_arith)
        requires
            2real * v == 175real * o,
            o > 0real,
    ;
}

/// A number from zero to one is in the frame of an image.
pub proof fn lemma_frame_number(u: Scalar)
    requires
        in_frame(u),
    ensures
        u.finite(),
        0real <= number(u) <= 1real,
{
    reveal(number);
    lemma_one();
    lemma_unit_bounds(u);
    let (v, o) = (u.value() as real, one() as real);
    assert(0real <= v / o <= 1real) by (nonlinear_arith)
        requires
            0real <= v <= o,
            o > 0real,
    ;
}

/// The remainder of a number below twice the band: the number itself, or that
/// less the band.
proof fn lemma_wrapped(x: Scalar) -> (c: real)
    requires
        x.finite(),
        !x.negative(),
        number(x) < 700real,
    ensures
        ({
            let off = x.euclidean_remainder(Scalar { bits: LAMBDA_RANGE_BITS });
            &&& c == 0real || c == 1real
            &&& off.finite()
            &&& number(off) == number(x) - 350real * c
            &&& 0real <= number(off) < 350real
        }),
{
    let range = Scalar { bits: LAMBDA_RANGE_BITS };
    lemma2_to64();
    lemma_constant(LAMBDA_RANGE_BITS, 134, 11468800, 32768real);
    reveal(number);
    lemma_one();
    lemma_magnitude_sign(x.unsigned_bits());
    lemma_magnitude_sign(range.unsigned_bits());
    let (v, r, o) = (x.value(), range.value(), one());
    let (vr, rr, or) = (v as real, r as real, o as real);
    assert(rr == 350real * or) by (nonlinear_arith)
        requires
            rr / or == 350real,
            or > 0real,
    ;
    assert(vr < 700real * or) by (nonlinear_arith)
        requires
            vr / or < 700real,
            or > 0real,
    ;
    assert(0 <= v < 2 * r && r > 0);
    lemma_remainder_exact(x, range);
    let off = x.remainder(range);
    let q: int = v / r;
    assert(q == 0 || q == 1) by (nonlinear_arith)
        requires
            q == v / r,
            0 <= v < 2 * r,
            r > 0,
    ;
    assert(v % r == v - q * r && 0 <= v % r < r) by (nonlinear_arith)
        requires
            q == v / r,
            r > 0,
    ;
    assert(off.value() == v % r);
    let c = q as real;
    let w = off.value() as real;
    if q == 0 {
        assert(q * r == 0 && c * rr == 0real) by (nonlinear_arith)
            requires
                q == 0,
                c == 0real,
        ;
    } else {
        assert(q * r == r && c * rr == rr) by (nonlinear_arith)
            requires
                q == 1,
                c == 1real,
        ;
    }
    assert(w == vr - c * rr);
    assert(w / or == vr / or - 350real * c) by (nonlinear_arith)
        requires
            w == vr - c * rr,
            rr == 350real * or,
            or > 0real,
    ;
    assert(0real <= w / or < 350real) by (nonlinear_arith)
        requires
            0real <= w < rr,
            rr == 350real * or,
            or > 0real,
    ;
    c
}

/// A wavelength of the comb: 380 nanometres, the draw's part of 350 and `j`
/// quarters of 350, less 350 where that leaves the band. So the hero runs over
/// the whole band with the draw, and the four stay a quarter of it apart.
pub proof fn lemma_comb_lane(u: Scalar, j: int) -> (c: real)
    requires
        in_frame(u),
        0 <= j < 4,
    ensures
        c == 0real || c == 1real,
        close(
            lane(u, j),
            380real + 350real * number(u) + (175real * j as real) / 2real - 350real * c,
            1real / 5000real,
        ),
        3799real / 10real <= number(lane(u, j)) <= 7301real / 10real,
{
    assert(eps() == 1real / 16700000real);
    lemma_frame_number(u);
    lemma_quarter_number();
    lemma2_to64();
    lemma_constant(LAMBDA_RANGE_BITS, 134, 11468800, 32768real);
    lemma_constant(LAMBDA_MIN_BITS, 134, 12451840, 32768real);
    lemma_integral_number(j);
    let range = Scalar { bits: LAMBDA_RANGE_BITS };
    let step = range.quotient(Scalar { bits: HERO_BITS });
    let (x, y) = (number(u), j as real);
    assert(x * number(range) == 350real * x) by (nonlinear_arith)
        requires
            number(range) == 350real,
    ;
    assert(y * number(step) == (175real * y) / 2real) by (nonlinear_arith)
        requires
            number(step) == 175real / 2real,
    ;
    lemma_product_close(u, range, 350real);
    lemma_eps(350real);
    lemma_product_close(integral(j), step, 263real);
    lemma_eps(263real);
    lemma_sum_close(u.product(range), integral(j).product(step), 613real);
    lemma_eps(613real);
    lemma_unwrapped(u, j);
    let c = lemma_wrapped(unwrapped(u, j));
    let off = unwrapped(u, j).euclidean_remainder(range);
    lemma_sum_close(Scalar { bits: LAMBDA_MIN_BITS }, off, 731real);
    lemma_eps(731real);
    c
}

} // verus!
