//! The colour matching functions and the illuminants as one flat array, which
//! the device programs read.
use crate::arith::from_u64;
use crate::arith::integral;
use crate::cie::Illuminant;
use crate::cie::Sensor;
use crate::scalar::Scalar;
use vstd::prelude::*;

verus! {

/// The samples of each curve, from 380 nm to 730 nm.
pub const N_SAMPLES: usize = 71;

/// Encoding of 380, the first wavelength.
pub const LAMBDA0_BITS: u32 = 0x43be_0000;

/// Encoding of 5, the step between wavelengths.
pub const LAMBDA_STEP_BITS: u32 = 0x40a0_0000;

/// The curves of the array, in its order.
#[derive(Clone, Copy, Debug, PartialEq, Eq, Structural)]
pub enum Curve {
    X,
    Y,
    Z,
    D65,
    A,
}

/// The wavelength of sample `i`.
pub open spec fn sample_lambda(i: int) -> Scalar {
    (Scalar { bits: LAMBDA0_BITS }).sum(
        integral(i).product(Scalar { bits: LAMBDA_STEP_BITS }),
    )
}

/// A curve at a wavelength.
pub open spec fn curve_value(sensor: Sensor, curve: Curve, nm: Scalar) -> Scalar {
    match curve {
        Curve::X => sensor.matching(nm).x,
        Curve::Y => sensor.matching(nm).y,
        Curve::Z => sensor.matching(nm).z,
        Curve::D65 => sensor.power(Illuminant::D65, nm),
        Curve::A => sensor.power(Illuminant::A, nm),
    }
}

/// The samples of one curve.
pub open spec fn curve_samples(sensor: Sensor, curve: Curve) -> Seq<Scalar> {
    Seq::new(N_SAMPLES as nat, |i: int| curve_value(sensor, curve, sample_lambda(i)))
}

fn push_curve(sensor: &Sensor, curve: Curve, out: &mut Vec<Scalar>)
    requires
        sensor.loaded(),
    ensures
        final(out)@ == old(out)@ + curve_samples(*sensor, curve),
{
    let ghost before = out@;
    let ghost all = curve_samples(*sensor, curve);
    let mut k: usize = 0;
    assert(out@ =~= before + all.take(0));
    while k < N_SAMPLES
        invariant
            k <= N_SAMPLES,
            sensor.loaded(),
            all == curve_samples(*sensor, curve),
            out@ == before + all.take(k as int),
        decreases N_SAMPLES - k,
    {
        let nm: Scalar = (Scalar { bits: LAMBDA0_BITS }).plus(
            from_u64(k as u64).times(Scalar { bits: LAMBDA_STEP_BITS }),
        );
        let value: Scalar = match curve {
            Curve::X => sensor.cmf(nm).x,
            Curve::Y => sensor.cmf(nm).y,
            Curve::Z => sensor.cmf(nm).z,
            Curve::D65 => sensor.illuminant(Illuminant::D65, nm),
            Curve::A => sensor.illuminant(Illuminant::A, nm),
        };
        out.push(value);
        k = k + 1;
        assert(out@ =~= before + all.take(k as int));
    }
    assert(all.take(k as int) =~= all);
}

/// The five curves, one after the other.
pub open spec fn tables(sensor: Sensor) -> Seq<Scalar> {
    curve_samples(sensor, Curve::X) + curve_samples(sensor, Curve::Y) + curve_samples(
        sensor,
        Curve::Z,
    ) + curve_samples(sensor, Curve::D65) + curve_samples(sensor, Curve::A)
}

/// The flat array of a sensor's curves.
pub fn sample_tables(sensor: &Sensor) -> (r: Vec<Scalar>)
    requires
        sensor.loaded(),
    ensures
        r@ == tables(*sensor),
        r@.len() == 5 * N_SAMPLES,
{
    let mut out: Vec<Scalar> = Vec::new();
    assert(out@ + curve_samples(*sensor, Curve::X) =~= curve_samples(*sensor, Curve::X));
    push_curve(sensor, Curve::X, &mut out);
    push_curve(sensor, Curve::Y, &mut out);
    push_curve(sensor, Curve::Z, &mut out);
    push_curve(sensor, Curve::D65, &mut out);
    push_curve(sensor, Curve::A, &mut out);
    out
}

} // verus!
