//! What one photon adds to a picture: it sets out with a power of one, and shows
//! the color of its wavelength.
use crate::cie::Sensor;
use crate::cie::Xyz;
use crate::exact::number;
use crate::lighttrace::emission;
use crate::lighttrace::landing;
use crate::lighttrace::pixel_at;
use crate::lighttrace::scattered_on;
use crate::lighttrace::splatted;
use crate::lighttrace::traced;
use crate::lighttrace::Beam;
use crate::lighttrace::PhotonState;
use crate::lighttrace::ScreenFrame;
use crate::order::lemma_product_one;
use crate::scalar::Scalar;
use crate::scalar::ONE_BITS;
use crate::scene::distance;
use crate::scene::Scene;
use crate::triple::lemma_one_number;
use crate::volume::haze_on;
use crate::volume::hazed;
use crate::volume::Deposit;
use vstd::prelude::*;

verus! {

/// A photon that meets the screen before anything else adds the color of its
/// wavelength, unweakened, to the pixel that it strikes, and nothing else.
pub proof fn lemma_photon_strikes<F: Fn(Scalar) -> (Scalar, Scalar)>(
    scene: Scene,
    frame: ScreenFrame,
    sensor: Sensor,
    beam: Beam,
    image: Seq<Xyz>,
    n: nat,
    seed: u32,
    turn: F,
)
    requires
        ({
            let e = emission(beam, n as u32, seed);
            let color = sensor.matching(e.lambda);
            &&& frame.met(e.ray) matches Some((s, r, t)) && t.below(distance(scene.hit(e.ray)))
            &&& color.x.finite() && color.y.finite() && color.z.finite()
        }),
    ensures
        ({
            let e = emission(beam, n as u32, seed);
            let before = traced(scene, frame, sensor, beam, image, n, seed, turn);
            frame.met(e.ray) matches Some((s, r, _)) && traced(
                scene,
                frame,
                sensor,
                beam,
                image,
                n + 1,
                seed,
                turn,
            ) == splatted(
                before,
                pixel_at(s, r, frame.width, frame.height),
                sensor.matching(e.lambda),
            )
        }),
{
    reveal(landing);
    assert((n + 1 - 1) as nat == n);
    let e = emission(beam, n as u32, seed);
    let color = sensor.matching(e.lambda);
    lemma_product_one(color.x);
    lemma_product_one(color.y);
    lemma_product_one(color.z);
    assert(color.weighted(Scalar { bits: ONE_BITS }) == color);
}

/// A photon that meets nothing leaves on its one segment, of the greatest
/// length, what a photon of power one leaves there in the color of its
/// wavelength, and its way is at its end.
pub proof fn lemma_photon_passes<F: Fn(Scalar) -> (Scalar, Scalar)>(
    scene: Scene,
    sensor: Sensor,
    beam: Beam,
    max_dist: Scalar,
    deposit: Deposit,
    image: Seq<Xyz>,
    first: int,
    n: nat,
    seed: u32,
    turn: F,
) -> (photon: PhotonState)
    requires
        scene.hit(emission(beam, (first + n) as u32, seed).ray) is None,
    ensures
        ({
            let e = emission(beam, (first + n) as u32, seed);
            let before = haze_on(
                scene,
                sensor,
                beam,
                max_dist,
                deposit,
                image,
                first,
                n,
                seed,
                turn,
            );
            &&& photon.ray == e.ray
            &&& photon.counter == e.counter
            &&& number(photon.power) == 1real
            &&& haze_on(
                scene,
                sensor,
                beam,
                max_dist,
                deposit,
                image,
                first,
                n + 1,
                seed,
                turn,
            ) == deposit(photon, sensor.matching(e.lambda), max_dist, before).0
        }),
{
    reveal(hazed);
    reveal_with_fuel(hazed, 2);
    lemma_one_number();
    assert((n + 1 - 1) as nat == n);
    assert(first + (n + 1) - 1 == first + n);
    let e = emission(beam, (first + n) as u32, seed);
    PhotonState { ray: e.ray, counter: e.counter, power: Scalar { bits: ONE_BITS } }
}

/// A photon that meets a surface leaves its light on the way to it, and no
/// further; it goes on from there, scattered by the surface's material, with the
/// draws that are left.
pub proof fn lemma_photon_meets<F: Fn(Scalar) -> (Scalar, Scalar)>(
    scene: Scene,
    max_dist: Scalar,
    deposit: Deposit,
    photon: PhotonState,
    lambda: Scalar,
    color: Xyz,
    image: Seq<Xyz>,
    turn: F,
    segments: nat,
) -> (next: PhotonState)
    requires
        scene.hit(photon.ray) is Some,
    ensures
        ({
            let (hit, material) = scene.hit(photon.ray)->0;
            let (left, counter) = deposit(photon, color, hit.t, image);
            &&& next == scattered_on(
                PhotonState { counter, ..photon },
                hit,
                material,
                lambda,
                turn,
            )
            &&& next.ray.origin == hit.point
            &&& hazed(
                scene,
                max_dist,
                deposit,
                photon,
                lambda,
                color,
                image,
                turn,
                segments + 1,
            ) == hazed(
                scene,
                max_dist,
                deposit,
                next,
                lambda,
                color,
                left,
                turn,
                segments,
            )
        }),
{
    reveal(hazed);
    assert((segments + 1 - 1) as nat == segments);
    let (hit, material) = scene.hit(photon.ray)->0;
    let (left, counter) = deposit(photon, color, hit.t, image);
    scattered_on(PhotonState { counter, ..photon }, hit, material, lambda, turn)
}

} // verus!
