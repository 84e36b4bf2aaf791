//! From light to bytes: exposure, tone mapping and the sRGB curve, means over
//! samples, and chromaticity.
use crate::accum::AccumBuffer;
use crate::arith::integral;
use crate::cie::byte_value;
use crate::cie::encoded;
use crate::cie::pressed;
use crate::cie::whole_part;
use crate::cie::Xyz;
use crate::cie::BYTE_MAX_BITS;
use crate::cie::SRGB_GAIN_BITS;
use crate::cie::SRGB_KNEE_BITS;
use crate::cie::SRGB_OFFSET_BITS;
use crate::cie::SRGB_SLOPE_BITS;
use crate::constants::lemma_constant;
use crate::exact::close;
use crate::exact::eps;
use crate::exact::lemma_difference_close;
use crate::exact::lemma_product_close;
use crate::exact::lemma_sum_close;
use crate::exact::number;
use crate::exact::size;
use crate::exposure::is_moderate;
use crate::film::averaged;
use crate::film::resolved;
use crate::fresnel::lemma_half_number;
use crate::interpolation::held;
use crate::interpolation::lemma_clamped_number;
use crate::optics::HALF_BITS;
use crate::photons::PHOTON_SCALE_BITS;
use crate::projection::lemma_number_order;
use crate::raster::lemma_integral_number;
use crate::raster::lemma_whole_number;
use crate::relative::is_about;
use crate::relative::is_ordinary;
use crate::relative::is_slight;
use crate::relative::lemma_about_itself;
use crate::relative::lemma_about_product;
use crate::relative::lemma_about_quotient;
use crate::relative::lemma_about_wider;
use crate::scalar::Scalar;
use crate::scalar::ONE_BITS;
use crate::snell::lemma_number_sign;
use crate::snell::lemma_small_product;
use crate::supplied::result;
use crate::triple::lemma_eps;
use crate::triple::lemma_one_number;
use crate::viewer::brightness_factor;
use crate::viewer::TARGET_N_BITS;
use vstd::arithmetic::power2::lemma2_to64;
use vstd::prelude::*;

verus! {

/// A sum of positive numbers with the same relative error.
proof fn lemma_about_sum(x: Scalar, y: Scalar, r: real, s: real, t: real)
    requires
        is_about(x, r, t),
        is_about(y, s, t),
        is_slight(t),
        is_ordinary(r + s),
    ensures
        is_about(x.sum(y), r + s, t + 1real / 1000000real),
{
    let q = r + s;
    assert(t * r + t * s == t * q) by (nonlinear_arith)
        requires
            q == r + s,
    ;
    assert(t * q <= q / 10000real) by (nonlinear_arith)
        requires
            t <= 1real / 10000real,
            q > 0real,
    ;
    let bound = (1001real / 1000real) * q;
    lemma_sum_close(x, y, bound);
    lemma_eps(bound);
    let u = t + 1real / 1000000real;
    assert(u * q == t * q + q / 1000000real) by (nonlinear_arith)
        requires
            u == t + 1real / 1000000real,
    ;
}

/// A light channel under an exposure is pressed below one: `v` of it becomes
/// `v / (1 + v)`, so that the dark keep their ratios and the bright approach one.
pub proof fn lemma_pressed(channel: Scalar, exposure: Scalar)
    requires
        is_moderate(channel),
        is_moderate(exposure),
    ensures
        ({
            let v = number(channel) * number(exposure);
            is_about(pressed(channel, exposure), v / (1real + v), 1real / 100000real)
        }),
{
    let m = 1real / 1000000real;
    lemma_about_itself(channel);
    lemma_about_itself(exposure);
    let (c, e) = (number(channel), number(exposure));
    let v = c * e;
    assert(1real / 1000000000000000000real <= v <= 1000000000000000000real) by (nonlinear_arith)
        requires
            v == c * e,
            1real / 1000000000real <= c <= 1000000000real,
            1real / 1000000000real <= e <= 1000000000real,
    ;
    lemma_about_product(channel, exposure, c, e, 0real, 0real);
    let x = channel.product(exposure);
    assert(is_about(x, v, m)) by {
        assert(0real + 0real + m == m);
    }
    let zero = Scalar { bits: 0 };
    lemma_number_sign(zero);
    assert(m * v <= v / 1000real) by (nonlinear_arith)
        requires
            m == 1real / 1000000real,
            v > 0real,
    ;
    lemma_number_sign(x);
    assert(x.larger(zero) == x);
    lemma_one_number();
    let one = Scalar { bits: ONE_BITS };
    lemma_about_itself(one);
    lemma_about_wider(one, 1real, 0real, m);
    lemma_about_sum(one, x, 1real, v, m);
    let q = v / (1real + v);
    assert(q * (1real + v) == v) by (nonlinear_arith)
        requires
            q == v / (1real + v),
            v > 0real,
    ;
    assert(1real / 10000000000000000000real <= q <= 1real) by (nonlinear_arith)
        requires
            q * (1real + v) == v,
            1real / 1000000000000000000real <= v,
    ;
    lemma_about_quotient(x, one.sum(x), v, 1real + v, m, m + m);
    lemma_about_wider(x.quotient(one.sum(x)), q, m + (m + m) + m, 1real / 100000real);
}

/// The byte of a value is the nearest to 255 times it, within `[0, 255]`.
pub proof fn lemma_byte(gamma: Scalar)
    requires
        gamma.finite(),
    ensures
        0 <= byte_value(gamma) <= 255,
        size(byte_value(gamma) as real - 255real * held(number(gamma), 0real, 1real)) <= 1real
            / 2real + 1real / 10000real,
{
    assert(eps() == 1real / 16700000real);
    lemma2_to64();
    lemma_one_number();
    lemma_half_number();
    lemma_constant(BYTE_MAX_BITS, 133, 16711680, 65536real);
    let (zero, one) = (Scalar { bits: 0 }, Scalar { bits: ONE_BITS });
    lemma_number_sign(zero);
    lemma_clamped_number(gamma, zero, one);
    let c = gamma.clamped(zero, one);
    let top = Scalar { bits: BYTE_MAX_BITS };
    let x = number(c);
    assert(number(c) * number(top) == 255real * x) by (nonlinear_arith)
        requires
            number(top) == 255real,
            x == number(c),
    ;
    lemma_product_close(c, top, 255real);
    lemma_eps(255real);
    let half = Scalar { bits: HALF_BITS };
    let s = c.product(top).sum(half);
    lemma_sum_close(c.product(top), half, 256real);
    lemma_eps(256real);
    lemma_whole_number(s);
    assert(whole_part(s) <= 256);
}

/// The sRGB curve: a line of slope 12.92 up to 0.0031308, and above it 1.055
/// times the supplied root less 0.055.
pub proof fn lemma_srgb_curve<F: Fn(Scalar) -> Scalar>(mapped: Scalar, root: F)
    requires
        mapped.finite(),
        0real <= number(mapped) <= 1real,
        result(root, mapped).finite(),
        0real <= number(result(root, mapped)) <= 1real,
    ensures
        number(mapped) <= 31307real / 10000000real ==> close(
            encoded(mapped, root),
            (1292real * number(mapped)) / 100real,
            1real / 100000real,
        ),
        number(mapped) >= 31309real / 10000000real ==> close(
            encoded(mapped, root),
            (1055real * number(result(root, mapped)) - 55real) / 1000real,
            1real / 100000real,
        ),
{
    assert(eps() == 1real / 16700000real);
    lemma2_to64();
    lemma_constant(SRGB_KNEE_BITS, 117, 13446684, 4294967296real);
    lemma_constant(SRGB_SLOPE_BITS, 129, 13547602, 1048576real);
    lemma_constant(SRGB_GAIN_BITS, 126, 8849981, 8388608real);
    lemma_constant(SRGB_OFFSET_BITS, 121, 14763950, 268435456real);
    let knee = Scalar { bits: SRGB_KNEE_BITS };
    let x = number(mapped);
    if x <= 31307real / 10000000real {
        lemma_number_order(mapped, knee);
        let slope = Scalar { bits: SRGB_SLOPE_BITS };
        lemma_coefficient(number(slope), 1292real / 100real, x);
        lemma_product_close(slope, mapped, 1real);
        lemma_eps(1real);
    } else if x >= 31309real / 10000000real {
        lemma_number_order(knee, mapped);
        let (gain, offset) = (Scalar { bits: SRGB_GAIN_BITS }, Scalar { bits: SRGB_OFFSET_BITS });
        let r = result(root, mapped);
        let y = number(r);
        lemma_coefficient(number(gain), 1055real / 1000real, y);
        lemma_product_close(gain, r, 2real);
        lemma_eps(2real);
        lemma_difference_close(gain.product(r), offset, 2real);
    }
}

proof fn lemma_coefficient(a: real, b: real, x: real)
    requires
        size(a - b) <= 1real / 5000000real,
        0real <= x <= 1real,
    ensures
        size(a * x - b * x) <= 1real / 5000000real,
{
    let d = a - b;
    lemma_small_product(d, x, 1real / 5000000real, 1real);
    assert(d * x == a * x - b * x) by (nonlinear_arith)
        requires
            d == a - b,
    ;
}

/// The mean of a pixel is its sum over the number of samples.
pub proof fn lemma_mean(buffer: AccumBuffer, i: int)
    requires
        0 <= i < buffer.sum@.len(),
        0 < buffer.samples < 0x100_0000,
        is_moderate(buffer.sum@[i].x),
        is_moderate(buffer.sum@[i].y),
        is_moderate(buffer.sum@[i].z),
    ensures
        ({
            let (sum, mean) = (buffer.sum@[i], buffer.mean_spec()[i]);
            let n = buffer.samples as real;
            &&& is_about(mean.x, number(sum.x) / n, 1real / 100000real)
            &&& is_about(mean.y, number(sum.y) / n, 1real / 100000real)
            &&& is_about(mean.z, number(sum.z) / n, 1real / 100000real)
        }),
{
    let n: int = buffer.samples as int;
    lemma_integral_number(n);
    let sum = buffer.sum@[i];
    lemma_part(sum.x, integral(n), n as real);
    lemma_part(sum.y, integral(n), n as real);
    lemma_part(sum.z, integral(n), n as real);
}

/// A quotient by a number from one to 2^24.
proof fn lemma_part(x: Scalar, y: Scalar, n: real)
    requires
        is_moderate(x),
        y.finite(),
        number(y) == n,
        1real <= n <= 16777216real,
    ensures
        is_about(x.quotient(y), number(x) / n, 1real / 100000real),
{
    lemma_about_itself(x);
    lemma_about_itself(y);
    let a = number(x);
    let q = a / n;
    assert(q * n == a) by (nonlinear_arith)
        requires
            q == a / n,
            n > 0real,
    ;
    assert(1real / 1000000000000000000real <= q <= 1000000000real) by (nonlinear_arith)
        requires
            q * n == a,
            1real / 1000000000real <= a <= 1000000000real,
            1real <= n <= 16777216real,
    ;
    lemma_about_quotient(x, y, a, n, 0real, 0real);
    lemma_about_wider(x.quotient(y), q, 0real + 0real + 1real / 1000000real, 1real / 100000real);
}

/// A pixel of the path tracer's buffer is its sums over its count.
pub proof fn lemma_averaged(x: Scalar, y: Scalar, z: Scalar, count: Scalar)
    requires
        is_moderate(x) && is_moderate(y) && is_moderate(z),
        count.finite(),
        1real <= number(count) <= 16777216real,
    ensures
        ({
            let (p, n) = (averaged(x, y, z, count), number(count));
            &&& is_about(p.x, number(x) / n, 1real / 100000real)
            &&& is_about(p.y, number(y) / n, 1real / 100000real)
            &&& is_about(p.z, number(z) / n, 1real / 100000real)
        }),
{
    lemma_number_sign(count);
    lemma_part(x, count, number(count));
    lemma_part(y, count, number(count));
    lemma_part(z, count, number(count));
}

/// A fixed-point value of a film stands for itself over the scale.
pub proof fn lemma_resolved(v: u32, scale: Scalar)
    requires
        0 < v < 0x100_0000,
        scale.finite(),
        1real <= number(scale) <= 16777216real,
    ensures
        is_about(resolved(v, scale), v as real / number(scale), 1real / 100000real),
{
    lemma_integral_number(v as int);
    lemma_part(integral(v as int), scale, number(scale));
}

/// The factor of the viewer brings a fixed-point value, of 2^23 to one, from the
/// photons traced to four million.
pub proof fn lemma_brightness(total_photons: u32)
    requires
        0 < total_photons < 0x100_0000,
    ensures
        is_about(
            brightness_factor(total_photons),
            ((1real / 8388608real) * (1real / total_photons as real)) * 4000000real,
            1real / 100000real,
        ),
{
    lemma2_to64();
    lemma_one_number();
    let n: int = total_photons as int;
    lemma_integral_number(n);
    lemma_constant(TARGET_N_BITS, 147, 16000000, 4real);
    assert(vstd::arithmetic::power2::pow2(0) == 1);
    lemma_constant(PHOTON_SCALE_BITS, 149, 8388608, 1real);
    let (one, scale, target) = (
        Scalar { bits: ONE_BITS },
        Scalar { bits: PHOTON_SCALE_BITS },
        Scalar { bits: TARGET_N_BITS },
    );
    lemma_about_itself(one);
    lemma_about_itself(scale);
    lemma_about_itself(target);
    lemma_about_itself(integral(n));
    let m = 1real / 1000000real;
    let x = n as real;
    let (a, b) = (1real / 8388608real, 1real / x);
    assert(b * x == 1real) by (nonlinear_arith)
        requires
            b == 1real / x,
            x > 0real,
    ;
    assert(1real / 16777216real <= b <= 1real) by (nonlinear_arith)
        requires
            b * x == 1real,
            1real <= x <= 16777216real,
    ;
    lemma_about_quotient(one, scale, 1real, 8388608real, 0real, 0real);
    lemma_about_quotient(one, integral(n), 1real, x, 0real, 0real);
    let (p, q) = (one.quotient(scale), one.quotient(integral(n)));
    let ab = a * b;
    assert(ab == b / 8388608real);
    lemma_about_product(p, q, a, b, 0real + 0real + m, 0real + 0real + m);
    let e = (0real + 0real + m) + (0real + 0real + m) + m;
    lemma_about_product(p.product(q), target, ab, 4000000real, e, 0real);
    lemma_about_wider(
        p.product(q).product(target),
        ab * 4000000real,
        e + 0real + m,
        1real / 100000real,
    );
}

/// Chromaticity coordinates are parts of the sum of the channels.
pub proof fn lemma_chromaticity(xyz: Xyz)
    requires
        is_moderate(xyz.x) && is_moderate(xyz.y) && is_moderate(xyz.z),
    ensures
        ({
            let total = xyz.x.sum(xyz.y).sum(xyz.z);
            let sum = number(xyz.x) + number(xyz.y) + number(xyz.z);
            &&& is_about(xyz.x.quotient(total), number(xyz.x) / sum, 1real / 100000real)
            &&& is_about(xyz.y.quotient(total), number(xyz.y) / sum, 1real / 100000real)
        }),
{
    let m = 1real / 1000000real;
    let (x, y, z) = (number(xyz.x), number(xyz.y), number(xyz.z));
    lemma_about_itself(xyz.x);
    lemma_about_itself(xyz.y);
    lemma_about_itself(xyz.z);
    lemma_about_sum(xyz.x, xyz.y, x, y, 0real);
    let first = xyz.x.sum(xyz.y);
    lemma_about_wider(xyz.z, z, 0real, 0real + m);
    lemma_about_sum(first, xyz.z, x + y, z, 0real + m);
    let total = first.sum(xyz.z);
    let e = 0real + m + m;
    let sum = x + y + z;
    lemma_small_part(x, sum);
    lemma_small_part(y, sum);
    lemma_about_quotient(xyz.x, total, x, sum, 0real, e);
    lemma_about_quotient(xyz.y, total, y, sum, 0real, e);
    lemma_about_wider(xyz.x.quotient(total), x / sum, 0real + e + m, 1real / 100000real);
    lemma_about_wider(xyz.y.quotient(total), y / sum, 0real + e + m, 1real / 100000real);
}

proof fn lemma_small_part(x: real, sum: real)
    requires
        1real / 1000000000real <= x <= sum,
        sum <= 3000000000real,
    ensures
        is_ordinary(x / sum),
{
    let q = x / sum;
    assert(q * sum == x) by (nonlinear_arith)
        requires
            q == x / sum,
            sum > 0real,
    ;
    assert(1real / 1000000000000000000000000real <= q <= 1real) by (nonlinear_arith)
        requires
            q * sum == x,
            1real / 1000000000real <= x <= sum,
            0real < sum <= 3000000000real,
    ;
}

} // verus!
