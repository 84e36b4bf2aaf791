//! Visible band, spectral sample carrier, and hero wavelength sampling.
use crate::arith::from_u64;
use crate::arith::integral;
use crate::arith::lemma_integral_exact;
use crate::arith::lemma_integral_sum;
use crate::arith::lemma_integral_zero;
use crate::arith::lemma_nearest_exists;
use crate::arith::lemma_nearest_multiple;
use crate::arith::lemma_nearest_zero;
use crate::arith::lemma_remainder_exact;
use crate::camera::in_frame;
use crate::convert::lemma_encoding;
use crate::convert::one;
use crate::error::lemma_nearest_between;
use crate::error::lemma_sum_between;
use crate::order::lemma_sum_is_number;
use crate::order::lemma_sum_order;
use crate::scalar::lemma_magnitude_increases;
use crate::scalar::lemma_magnitude_sign;
use crate::scalar::lemma_value_identifies;
use crate::scalar::magnitude;
use crate::scalar::Scalar;
use crate::scalar::ONE_BITS;
use vstd::arithmetic::power2::lemma2_to64;
use vstd::arithmetic::power2::lemma_pow2_adds;
use vstd::arithmetic::power2::lemma_pow2_pos;
use vstd::arithmetic::power2::pow2;
use vstd::prelude::*;

verus! {

/// Encoding of 380, the shortest wavelength in nanometres.
pub const LAMBDA_MIN_BITS: u32 = 0x43be_0000;

/// Encoding of 730, the longest.
pub const LAMBDA_MAX_BITS: u32 = 0x4436_8000;

/// Encoding of 350, the width of the band.
pub const LAMBDA_RANGE_BITS: u32 = 0x43af_0000;

/// The number of wavelengths that a path carries.
pub const HERO_N: usize = 4;

/// Encoding of that number.
pub const HERO_BITS: u32 = 0x4080_0000;

/// A path's spectral state: wavelengths traced together. The first is the
/// hero, the others are its companions, evenly spaced around the band.
#[derive(Clone, Copy, Debug)]
pub struct SpectralSample {
    pub lambda: [Scalar; 4],
    pub radiance: [Scalar; 4],
    pub pdf: [Scalar; 4],
}

/// The distance of lane `j` from the hero, before it is wrapped: the draw
/// spread over the band, and `j` quarters of the band.
pub open spec fn unwrapped(u: Scalar, j: int) -> Scalar {
    let range = Scalar { bits: LAMBDA_RANGE_BITS };
    let step = range.quotient(Scalar { bits: HERO_BITS });
    u.product(range).sum(integral(j).product(step))
}

/// The wavelength of lane `j` for the draw `u`: wrapped into the band.
pub open spec fn lane(u: Scalar, j: int) -> Scalar {
    (Scalar { bits: LAMBDA_MIN_BITS }).sum(
        unwrapped(u, j).euclidean_remainder(Scalar { bits: LAMBDA_RANGE_BITS }),
    )
}

fn lane_wavelength(u: Scalar, j: u64) -> (lambda: Scalar)
    ensures
        lambda == lane(u, j as int),
{
    let range: Scalar = Scalar { bits: LAMBDA_RANGE_BITS };
    let step: Scalar = range.over(Scalar { bits: HERO_BITS });
    let off: Scalar = u.times(range).plus(from_u64(j).times(step)).rem_euclid(range);
    (Scalar { bits: LAMBDA_MIN_BITS }).plus(off)
}

/// The density of a wavelength drawn uniformly over the band.
pub open spec fn band_density() -> Scalar {
    (Scalar { bits: ONE_BITS }).quotient(Scalar { bits: LAMBDA_RANGE_BITS })
}

impl SpectralSample {
    /// The comb of wavelengths for a uniform draw `u`, dark so far, each with
    /// the density of the band.
    pub open spec fn is_comb(self, u: Scalar) -> bool {
        &&& forall|j: int| 0 <= j < 4 ==> (#[trigger] self.lambda[j]) == lane(u, j)
        &&& forall|j: int| 0 <= j < 4 ==> (#[trigger] self.radiance[j]) == (Scalar { bits: 0 })
        &&& forall|j: int| 0 <= j < 4 ==> (#[trigger] self.pdf[j]) == band_density()
    }

    pub fn from_hero_u(u: Scalar) -> (r: Self)
        ensures
            r.is_comb(u),
    {
        let zero: Scalar = Scalar { bits: 0 };
        let density: Scalar = (Scalar { bits: ONE_BITS }).over(
            Scalar { bits: LAMBDA_RANGE_BITS },
        );
        SpectralSample {
            lambda: [
                lane_wavelength(u, 0),
                lane_wavelength(u, 1),
                lane_wavelength(u, 2),
                lane_wavelength(u, 3),
            ],
            radiance: [zero, zero, zero, zero],
            pdf: [density, density, density, density],
        }
    }
}

/// The ends and the width of the band are the integers that they encode.
pub proof fn lemma_band_integers()
    ensures
        (Scalar { bits: LAMBDA_MIN_BITS }) == integral(380),
        (Scalar { bits: LAMBDA_MAX_BITS }) == integral(730),
        (Scalar { bits: LAMBDA_RANGE_BITS }) == integral(350),
{
    lemma2_to64();
    lemma_pow2_adds(15, 134);
    lemma_pow2_adds(14, 135);
    lemma_pow2_pos(149);
    lemma_integral_exact(380);
    lemma_integral_exact(730);
    lemma_integral_exact(350);
    lemma_encoding(135, 0xbe_0000);
    lemma_encoding(136, 0xb6_8000);
    lemma_encoding(135, 0xaf_0000);
    lemma_value_identifies(Scalar { bits: LAMBDA_MIN_BITS }, integral(380));
    lemma_value_identifies(Scalar { bits: LAMBDA_MAX_BITS }, integral(730));
    lemma_value_identifies(Scalar { bits: LAMBDA_RANGE_BITS }, integral(350));
}

/// A quarter of the band is 87.5 nanometres.
pub proof fn lemma_quarter()
    ensures
        ({
            let step = (Scalar { bits: LAMBDA_RANGE_BITS }).quotient(Scalar { bits: HERO_BITS });
            step.finite() && !step.negative() && 2 * step.size() == 175 * one()
        }),
{
    let range = Scalar { bits: LAMBDA_RANGE_BITS };
    let four = Scalar { bits: HERO_BITS };
    let quarter: int = 0x42af_0000;
    let o: int = one();
    let p: int = pow2(132) as int;
    lemma_band_integers();
    lemma_integral_exact(350);
    lemma2_to64();
    lemma_pow2_adds(17, 132);
    lemma_pow2_adds(21, 128);
    lemma_pow2_pos(132);
    lemma_encoding(129, 0x80_0000);
    lemma_encoding(133, 0xaf_0000);
    assert(four.size() == 4 * o);
    assert(magnitude(quarter) == 0xaf_0000 * p);
    reveal(Scalar::quotient);
    assert(0xaf_0000 * p * (4 * o) == 350 * o * o) by (nonlinear_arith)
        requires
            o == 0x2_0000 * p,
    ;
    lemma_nearest_multiple(quarter, 4 * o);
}

/// The product of numbers that are not negative is at most `350` where the
/// exact one is.
proof fn lemma_product_in_band(x: Scalar, y: Scalar)
    requires
        x.finite(),
        y.finite(),
        x.value() >= 0,
        y.value() >= 0,
        x.value() * y.value() <= 350 * one() * one(),
    ensures
        x.product(y).finite(),
        0 <= x.product(y).value() <= 350 * one(),
        x.product(y).negative() == (x.negative() != y.negative()),
{
    let o: int = one();
    let num: int = x.size() * y.size();
    lemma_pow2_pos(149);
    lemma_magnitude_sign(0);
    lemma_magnitude_sign(x.unsigned_bits());
    lemma_magnitude_sign(y.unsigned_bits());
    lemma_band_integers();
    lemma_integral_exact(350);
    assert(0 <= num) by (nonlinear_arith)
        requires
            num == x.size() * y.size(),
            x.size() >= 0,
            y.size() >= 0,
    ;
    assert(x.size() == x.value() && y.size() == y.value());
    assert(magnitude(0) * o == 0);
    lemma_nearest_between(num, o, 0, LAMBDA_RANGE_BITS as int);
    reveal(Scalar::product);
    if x.negative() != y.negative() {
        assert(num == 0) by (nonlinear_arith)
            requires
                num == x.size() * y.size(),
                x.size() == 0 || y.size() == 0,
        ;
        lemma_nearest_zero(o);
    }
}

/// Before they are wrapped, the lanes of a draw lie within twice the band.
pub proof fn lemma_unwrapped(u: Scalar, j: int)
    requires
        in_frame(u),
        0 <= j < 4,
    ensures
        unwrapped(u, j).finite(),
        !unwrapped(u, j).negative(),
{
    let range = Scalar { bits: LAMBDA_RANGE_BITS };
    let step = range.quotient(Scalar { bits: HERO_BITS });
    let o: int = one();
    lemma_pow2_pos(149);
    lemma_magnitude_sign(0);
    lemma_band_integers();
    lemma_integral_exact(350);
    lemma_integral_exact(j);
    lemma_integral_exact(700);
    lemma_quarter();
    lemma_magnitude_sign(step.unsigned_bits());
    lemma_unit_bounds(u);
    assert(u.value() * (350 * o) <= 350 * o * o) by (nonlinear_arith)
        requires
            u.value() <= o,
            o > 0,
    ;
    lemma_product_in_band(u, range);
    assert(j * o * step.value() <= 350 * o * o && j * o >= 0) by (nonlinear_arith)
        requires
            0 <= j <= 3,
            2 * step.value() == 175 * o,
            o > 0,
    ;
    lemma_product_in_band(integral(j), step);
    let x = u.product(range);
    let y = integral(j).product(step);
    let high: int = integral(700).unsigned_bits();
    lemma_sum_between(x, y, 0, high);
    lemma_nearest_exists(x.value() + y.value(), 1);
    reveal(Scalar::sum);
}

/// A coordinate of the unit frame is finite and at most one.
pub proof fn lemma_unit_bounds(u: Scalar)
    requires
        in_frame(u),
    ensures
        u.finite(),
        0 <= u.value() <= one(),
{
    lemma2_to64();
    lemma_pow2_adds(23, 126);
    lemma_magnitude_sign(0);
    assert((Scalar { bits: ONE_BITS }).value() == one());
    lemma_magnitude_sign(u.unsigned_bits());
    if u.infinite() {
        lemma_magnitude_increases(ONE_BITS as int, 0x7f80_0000);
    }
}

/// Every wavelength of a comb lies in the band, from 380 to 730 nanometres,
/// for every draw from zero to one. The upper end itself is reached by rounding
/// alone.
pub proof fn lemma_comb_in_band(u: Scalar, j: int)
    requires
        in_frame(u),
        0 <= j < 4,
    ensures
        (Scalar { bits: LAMBDA_MIN_BITS }).at_most(lane(u, j)),
        lane(u, j).at_most(Scalar { bits: LAMBDA_MAX_BITS }),
{
    lemma_unwrapped(u, j);
    let x = unwrapped(u, j);
    let range = Scalar { bits: LAMBDA_RANGE_BITS };
    let low = Scalar { bits: LAMBDA_MIN_BITS };
    let zero = Scalar { bits: 0 };
    lemma_band_integers();
    lemma_pow2_pos(149);
    lemma_integral_exact(380);
    lemma_integral_exact(350);
    lemma_integral_exact(0);
    lemma_remainder_exact(x, range);
    let off = x.remainder(range);
    vstd::arithmetic::div_mod::lemma_mod_bound(x.size(), range.size());
    assert(off.value() == x.size() % range.size());
    lemma_integral_sum(380, 350);
    lemma_integral_sum(380, 0);
    assert(integral(0) == zero) by {
        lemma_integral_zero();
    }
    lemma_sum_is_number(low, off);
    lemma_sum_is_number(low, range);
    lemma_sum_is_number(low, zero);
    lemma_sum_order(low, off, range);
    lemma_sum_order(low, zero, off);
}

} // verus!
