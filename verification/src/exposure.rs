//! What a finished path shows: each wavelength counts with its radiance, over its
//! density in the band and over the number of wavelengths that count.
use crate::arith::integral;
use crate::cie::Sensor;
use crate::constants::lemma_constant;
use crate::exact::close;
use crate::exact::eps;
use crate::exact::lemma_sum_close;
use crate::exact::number;
use crate::exact::size;
use crate::raster::lemma_integral_number;
use crate::relative::is_about;
use crate::relative::is_ordinary;
use crate::relative::lemma_about_itself;
use crate::relative::lemma_about_product;
use crate::relative::lemma_about_quotient;
use crate::relative::lemma_about_wider;
use crate::scalar::Scalar;
use crate::scalar::ONE_BITS;
use crate::scene::Scene;
use crate::snell::lemma_number_sign;
use crate::spectrum::band_density;
use crate::spectrum::LAMBDA_RANGE_BITS;
use crate::tracer::developed;
use crate::tracer::PathState;
use crate::tracer::World;
use crate::triple::lemma_eps;
use crate::triple::lemma_one_number;
use crate::vector::Vector;
use vstd::arithmetic::power2::lemma2_to64;
use vstd::prelude::*;

verus! {

/// A number from a billionth to a billion.
pub open spec fn is_moderate(x: Scalar) -> bool {
    x.finite() && 1real / 1000000000real <= number(x) <= 1000000000real
}

/// The density of the band: one over its 350 nanometres.
pub proof fn lemma_density()
    ensures
        is_about(band_density(), 1real / 350real, 1real / 1000000real),
{
    lemma2_to64();
    lemma_one_number();
    lemma_constant(LAMBDA_RANGE_BITS, 134, 11468800, 32768real);
    let (one, range) = (Scalar { bits: ONE_BITS }, Scalar { bits: LAMBDA_RANGE_BITS });
    lemma_about_itself(one);
    lemma_about_itself(range);
    lemma_about_quotient(one, range, 1real, 350real, 0real, 0real);
}

/// A lane of a finished path adds its color, weighted by its radiance times the
/// 350 nanometres of the band and over the number of lanes that count: all lanes
/// together are the mean over the band.
pub proof fn lemma_lane_develops(
    sensor: Sensor,
    lambda: Seq<Scalar>,
    radiance: Seq<Scalar>,
    lanes: int,
    n: nat,
) -> (w: Scalar)
    requires
        is_moderate(radiance[n as int]),
        1 <= lanes <= 4,
    ensures
        developed(sensor, lambda, radiance, lanes, n + 1) == developed(
            sensor,
            lambda,
            radiance,
            lanes,
            n,
        ).total(sensor.matching(lambda[n as int]).weighted(w)),
        is_about(
            w,
            (350real * number(radiance[n as int])) / lanes as real,
            1real / 100000real,
        ),
{
    assert((n + 1 - 1) as nat == n);
    let r = radiance[n as int];
    let (x, l) = (number(r), lanes as real);
    lemma_density();
    lemma_integral_number(lanes);
    lemma_about_itself(r);
    lemma_about_itself(integral(lanes));
    let m = 1real / 1000000real;
    let d = 1real / 350real;
    assert(x / d == 350real * x) by (nonlinear_arith)
        requires
            d == 1real / 350real,
    ;
    lemma_about_quotient(r, band_density(), x, d, 0real, m);
    let a = r.quotient(band_density());
    let y = 350real * x;
    let z = y / l;
    assert(z * l == y) by (nonlinear_arith)
        requires
            z == y / l,
            l > 0real,
    ;
    assert(1real / 1000000000000real <= z <= 1000000000000real) by (nonlinear_arith)
        requires
            z * l == y,
            1real <= l <= 4real,
            350real / 1000000000real <= y <= 350000000000real,
    ;
    assert(is_ordinary(z));
    lemma_about_quotient(a, integral(lanes), y, l, m + m, 0real);
    let w = a.quotient(integral(lanes));
    lemma_about_wider(w, z, m + m + 0real + m, 1real / 100000real);
    w
}

/// The background of a ray is the uniform one, and what is above the horizon
/// besides if the ray points up; a level ray, or one that points down, has the
/// uniform one alone.
pub proof fn lemma_background(scene: Scene, dir: Vector, bound: real)
    requires
        scene.background.finite() && dir.y.finite(),
        1real / 1000000real <= bound <= 1000000000real,
        size(number(scene.background)) <= bound,
        scene.horizon matches Some(above) ==> above.finite() && size(number(above)) <= bound,
    ensures
        ({
            let b = number(scene.background);
            let e = bound / 1000000real;
            match scene.horizon {
                None => close(scene.background_spec(dir), b, e),
                Some(above) => {
                    &&& number(dir.y) > 0real ==> close(
                        scene.background_spec(dir),
                        b + number(above),
                        e,
                    )
                    &&& number(dir.y) <= 0real ==> close(scene.background_spec(dir), b, e)
                },
            }
        }),
{
    assert(eps() == 1real / 16700000real);
    let zero = Scalar { bits: 0 };
    lemma_number_sign(zero);
    lemma_number_sign(dir.y);
    lemma_sum_close(scene.background, zero, 2real * bound);
    lemma_eps(2real * bound);
    if let Some(above) = scene.horizon {
        lemma_sum_close(scene.background, above, 2real * bound);
    }
}

/// A path that escapes gathers, in each lane, the background's radiance in its
/// direction with the illuminant's power at the lane's wavelength, times what the
/// surfaces on its way have left of it.
pub proof fn lemma_escape_gathers<F: Fn(Scalar) -> (Scalar, Scalar)>(
    world: World<F>,
    lambda: Seq<Scalar>,
    path: PathState,
    k: int,
) -> (e: Scalar)
    requires
        0 <= k < 4,
        is_moderate(path.throughput[k]),
        is_moderate(world.scene.background_spec(path.ray.dir)),
        is_moderate(world.sensor.power(world.illuminant, lambda[k])),
    ensures
        world.escaped(lambda, path).radiance[k] == path.radiance[k].sum(e),
        is_about(
            e,
            (number(path.throughput[k]) * number(world.scene.background_spec(path.ray.dir)))
                * number(world.sensor.power(world.illuminant, lambda[k])),
            1real / 100000real,
        ),
{
    let (t, b, p) = (
        path.throughput[k],
        world.scene.background_spec(path.ray.dir),
        world.sensor.power(world.illuminant, lambda[k]),
    );
    let (x, y, z) = (number(t), number(b), number(p));
    lemma_about_itself(t);
    lemma_about_itself(b);
    lemma_about_itself(p);
    let m = 1real / 1000000real;
    let xy = x * y;
    assert(1real / 1000000000000000000real <= xy <= 1000000000000000000real) by (nonlinear_arith)
        requires
            xy == x * y,
            1real / 1000000000real <= x <= 1000000000real,
            1real / 1000000000real <= y <= 1000000000real,
    ;
    let xyz = xy * z;
    assert(is_ordinary(xyz)) by {
        assert(1real / 1000000000000000000000000000real <= xyz <= 1000000000000000000000000000real)
            by (nonlinear_arith)
            requires
                xyz == xy * z,
                1real / 1000000000000000000real <= xy <= 1000000000000000000real,
                1real / 1000000000real <= z <= 1000000000real,
        ;
    }
    lemma_about_product(t, b, x, y, 0real, 0real);
    lemma_about_product(t.product(b), p, xy, z, 0real + 0real + m, 0real);
    let e = t.product(b).product(p);
    lemma_about_wider(e, xyz, 0real + 0real + m + 0real + m, 1real / 100000real);
    e
}

} // verus!
