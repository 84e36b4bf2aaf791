//! Exposure meters, the white point, and how keys steer: what is read off the
//! picture, and what a key changes.
use crate::arith::integral;
use crate::brush::lemma_larger_number;
use crate::cie::whole_part;
use crate::cie::Illuminant;
use crate::cie::Sensor;
use crate::cie::FIVE_BITS;
use crate::constants::lemma_constant;
use crate::constants::lemma_negative_constant;
use crate::exact::close;
use crate::exact::eps;
use crate::exact::lemma_difference_close;
use crate::exact::lemma_product_close;
use crate::exact::lemma_sum_close;
use crate::exact::number;
use crate::exact::size;
use crate::exposure::is_moderate;
use crate::film::peak;
use crate::film::peak_exposure;
use crate::film::percentile_place;
use crate::film::EXPOSE_FLOOR_BITS;
use crate::film::PERCENTILE_BITS;
use crate::interpolation::held;
use crate::interpolation::lemma_clamped_number;
use crate::raster::lemma_integral_number;
use crate::raster::lemma_whole_number;
use crate::relative::is_about;
use crate::relative::is_ordinary;
use crate::relative::lemma_about_itself;
use crate::relative::lemma_about_product;
use crate::relative::lemma_about_quotient;
use crate::relative::lemma_about_wider;
use crate::scalar::Scalar;
use crate::scalar::ONE_BITS;
use crate::snell::lemma_number_sign;
use crate::snell::lemma_small_product;
use crate::triple::lemma_eps;
use crate::triple::lemma_one_number;
use crate::viewer::after_key;
use crate::viewer::Key;
use crate::viewer::State;
use crate::viewer::PITCH_MAX_BITS;
use crate::viewer::PITCH_MIN_BITS;
use crate::viewer::PITCH_STEP_BITS;
use crate::viewer::YAW_STEP_BITS;
use vstd::arithmetic::power2::lemma2_to64;
use vstd::arithmetic::power2::lemma2_to64_rest;
use vstd::prelude::*;

verus! {

/// The peak is one of the luminances or zero, and none of them is above it.
pub proof fn lemma_peak(lums: Seq<Scalar>)
    requires
        forall|i: int| 0 <= i < lums.len() ==> (#[trigger] lums[i]).finite(),
    ensures
        peak(lums).finite(),
        number(peak(lums)) >= 0real,
        forall|i: int| 0 <= i < lums.len() ==> number(#[trigger] lums[i]) <= number(peak(lums)),
        number(peak(lums)) == 0real || exists|i: int|
            0 <= i < lums.len() && number(#[trigger] lums[i]) == number(peak(lums)),
    decreases lums.len(),
{
    lemma_number_sign(Scalar { bits: 0 });
    if lums.len() > 0 {
        let rest = lums.drop_last();
        assert forall|i: int| 0 <= i < rest.len() implies (#[trigger] rest[i]).finite() by {
            assert(rest[i] == lums[i]);
        }
        lemma_peak(rest);
        let (p, l) = (peak(rest), lums.last());
        assert(l == lums[lums.len() - 1]);
        lemma_larger_number(p, l);
        assert forall|i: int| 0 <= i < lums.len() implies number(#[trigger] lums[i]) <= number(
            peak(lums),
        ) by {
            if i < rest.len() {
                assert(rest[i] == lums[i]);
            }
        }
        if number(p) < number(l) {
            assert(number(lums[lums.len() - 1]) == number(peak(lums)));
        } else if number(p) != 0real {
            let i = choose|i: int|
                0 <= i < rest.len() && number(#[trigger] rest[i]) == number(p);
            assert(rest[i] == lums[i]);
        }
    }
}

/// The exposure for a peak brings it to the scale, but never darkens.
pub proof fn lemma_peak_exposure(peak: Scalar, scale: Scalar)
    requires
        peak.finite(),
        1real / 100000real <= number(peak) <= 1000000000real,
        is_moderate(scale),
    ensures
        ({
            let e = peak_exposure(peak, scale);
            let q = number(scale) / number(peak);
            &&& e.finite()
            &&& q >= 1real + 1real / 100000real ==> is_about(e, q, 1real / 100000real)
            &&& q <= 1real - 1real / 100000real ==> number(e) == 1real
        }),
{
    lemma2_to64();
    lemma2_to64_rest();
    lemma_one_number();
    lemma_constant(EXPOSE_FLOOR_BITS, 106, 8796093, 8796093022208real);
    let floor = Scalar { bits: EXPOSE_FLOOR_BITS };
    lemma_larger_number(peak, floor);
    let p = peak.larger(floor);
    lemma_about_itself(scale);
    lemma_about_itself(p);
    let (s, x) = (number(scale), number(peak));
    let q = s / x;
    assert(q * x == s) by (nonlinear_arith)
        requires
            q == s / x,
            x > 0real,
    ;
    assert(1real / 1000000000000000000real <= q <= 100000000000000real) by (nonlinear_arith)
        requires
            q * x == s,
            1real / 1000000000real <= s <= 1000000000real,
            1real / 100000real <= x <= 1000000000real,
    ;
    let m = 1real / 1000000real;
    lemma_about_quotient(scale, p, s, x, 0real, 0real);
    let r = scale.quotient(p);
    assert(is_about(r, q, m)) by {
        assert(0real + 0real + m == m);
    }
    assert(m * q == q / 1000000real) by (nonlinear_arith)
        requires
            m == 1real / 1000000real,
    ;
    let one = Scalar { bits: ONE_BITS };
    lemma_larger_number(r, one);
    lemma_about_wider(r, q, m, 1real / 100000real);
}

/// The percentile is read at 0.997 of the way through the luminances.
pub proof fn lemma_percentile_place(n: int)
    requires
        0 < n < 1000000,
    ensures
        0 <= percentile_place(n) < n,
        size(percentile_place(n) as real - (997real * n as real) / 1000real) <= 1real + 2real
            / 10real,
{
    assert(eps() == 1real / 16700000real);
    lemma2_to64();
    lemma_integral_number(n);
    lemma_constant(PERCENTILE_BITS, 125, 16726884, 16777216real);
    let part = Scalar { bits: PERCENTILE_BITS };
    let (x, y) = (n as real, number(part));
    let d = y - 997real / 1000real;
    let xy = x * y;
    assert(xy == (997real * x) / 1000real + d * x) by (nonlinear_arith)
        requires
            xy == x * y,
            d == y - 997real / 1000real,
    ;
    lemma_small_product(d, x, 1real / 10000000real, 1000000real);
    lemma_product_close(integral(n), part, x);
    lemma_eps(x);
    let f = integral(n).product(part);
    lemma_whole_number(f);
    assert(whole_part(f) as real <= x);
}

/// One wavelength of the white point: 5 nanometres of the illuminant's power,
/// seen by each of the three sensitivities, are added; the luminance's part is
/// what the sums are finally taken over.
pub proof fn lemma_white_adds(sensor: Sensor, ill: Illuminant, n: nat) -> (xyz: (
    Scalar,
    Scalar,
    Scalar,
))
    requires
        n < 71,
        is_moderate(sensor.power(ill, integral(380 + 5 * (n as int)))),
        is_moderate(sensor.matching(integral(380 + 5 * (n as int))).x),
        is_moderate(sensor.matching(integral(380 + 5 * (n as int))).y),
        is_moderate(sensor.matching(integral(380 + 5 * (n as int))).z),
    ensures
        ({
            let (before, after) = (sensor.integrated(ill, n), sensor.integrated(ill, n + 1));
            let nm = integral(380 + 5 * (n as int));
            let (s, m) = (number(sensor.power(ill, nm)), sensor.matching(nm));
            let (x, y, z) = xyz;
            &&& after.xyz.x == before.xyz.x.sum(x)
            &&& after.xyz.y == before.xyz.y.sum(y)
            &&& after.xyz.z == before.xyz.z.sum(z)
            &&& after.k == before.k.sum(y)
            &&& is_about(x, (s * number(m.x)) * 5real, 1real / 100000real)
            &&& is_about(y, (s * number(m.y)) * 5real, 1real / 100000real)
            &&& is_about(z, (s * number(m.z)) * 5real, 1real / 100000real)
        }),
{
    assert((n + 1 - 1) as nat == n);
    assert(380 + 5 * (n + 1 - 1) == 380 + 5 * n);
    let nm = integral(380 + 5 * (n as int));
    let (s, m) = (sensor.power(ill, nm), sensor.matching(nm));
    let step = Scalar { bits: FIVE_BITS };
    lemma_stripe(s, m.x);
    lemma_stripe(s, m.y);
    lemma_stripe(s, m.z);
    (s.product(m.x).product(step), s.product(m.y).product(step), s.product(m.z).product(step))
}

proof fn lemma_stripe(s: Scalar, m: Scalar)
    requires
        is_moderate(s),
        is_moderate(m),
    ensures
        is_about(
            s.product(m).product(Scalar { bits: FIVE_BITS }),
            (number(s) * number(m)) * 5real,
            1real / 100000real,
        ),
{
    lemma2_to64();
    lemma_constant(FIVE_BITS, 128, 10485760, 2097152real);
    let step = Scalar { bits: FIVE_BITS };
    lemma_about_itself(s);
    lemma_about_itself(m);
    lemma_about_itself(step);
    let e = 1real / 1000000real;
    let (a, b) = (number(s), number(m));
    let ab = a * b;
    assert(1real / 1000000000000000000real <= ab <= 1000000000000000000real) by (nonlinear_arith)
        requires
            ab == a * b,
            1real / 1000000000real <= a <= 1000000000real,
            1real / 1000000000real <= b <= 1000000000real,
    ;
    lemma_about_product(s, m, a, b, 0real, 0real);
    assert(is_ordinary(ab * 5real));
    lemma_about_product(s.product(m), step, ab, 5real, 0real + 0real + e, 0real);
    lemma_about_wider(
        s.product(m).product(step),
        ab * 5real,
        0real + 0real + e + 0real + e,
        1real / 100000real,
    );
}

/// Left and right turn the camera by 0.08 about the vertical, up and down by 0.06
/// toward its ends at 1.4; a key changes one angle and nothing else.
pub proof fn lemma_keys_steer(s: State)
    requires
        s.yaw.finite() && s.pitch.finite(),
        size(number(s.yaw)) <= 1000real,
        size(number(s.pitch)) <= 1000real,
    ensures
        ({
            let (left, right) = (after_key(s, Key::ArrowLeft), after_key(s, Key::ArrowRight));
            let (up, down) = (after_key(s, Key::ArrowUp), after_key(s, Key::ArrowDown));
            let e = 1real / 10000real;
            let end = 14real / 10real;
            &&& close(left.yaw, number(s.yaw) - 8real / 100real, e)
            &&& close(right.yaw, number(s.yaw) + 8real / 100real, e)
            &&& left == (State { yaw: left.yaw, ..s })
            &&& right == (State { yaw: right.yaw, ..s })
            &&& close(up.pitch, held(number(s.pitch) + 6real / 100real, -end, end), e)
            &&& close(down.pitch, held(number(s.pitch) - 6real / 100real, -end, end), e)
            &&& up == (State { pitch: up.pitch, ..s })
            &&& down == (State { pitch: down.pitch, ..s })
        }),
{
    assert(eps() == 1real / 16700000real);
    lemma2_to64();
    lemma_constant(YAW_STEP_BITS, 122, 10737418, 134217728real);
    lemma_constant(PITCH_STEP_BITS, 121, 16106127, 268435456real);
    lemma_constant(PITCH_MAX_BITS, 126, 11744051, 8388608real);
    lemma_negative_constant(PITCH_MIN_BITS, 126, 11744051, 8388608real);
    let (yaw, pitch) = (Scalar { bits: YAW_STEP_BITS }, Scalar { bits: PITCH_STEP_BITS });
    lemma_difference_close(s.yaw, yaw, 1001real);
    lemma_sum_close(s.yaw, yaw, 1001real);
    lemma_difference_close(s.pitch, pitch, 1001real);
    lemma_sum_close(s.pitch, pitch, 1001real);
    lemma_eps(1001real);
    let (low, high) = (Scalar { bits: PITCH_MIN_BITS }, Scalar { bits: PITCH_MAX_BITS });
    lemma_clamped_number(s.pitch.sum(pitch), low, high);
    lemma_clamped_number(s.pitch.difference(pitch), low, high);
}

} // verus!
