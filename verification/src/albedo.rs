//! What a diffuse surface does to light: it keeps the part that it reflects.
use crate::geom::Hit;
use crate::haze::blank;
use crate::haze::lemma_blank_product;
use crate::lighttrace::landing;
use crate::lighttrace::scattered_on;
use crate::lighttrace::PhotonState;
use crate::lighttrace::ScreenFrame;
use crate::material::Material;
use crate::scalar::Scalar;
use crate::scene::Scene;
use crate::tracer::lemma_hit_material;
use crate::tracer::PathState;
use crate::tracer::World;
use crate::vector::Vector;
use vstd::prelude::*;

verus! {

/// A surface that reflects the part `rho` of the light, whatever its wavelength
/// and direction.
pub open spec fn is_diffuse(material: Material, rho: Scalar) -> bool {
    material == (Material::Lambertian { reflectance: rho })
}

/// Light after `n` meetings with such surfaces.
pub open spec fn dimmed(p: Scalar, rho: Scalar, n: nat) -> Scalar
    decreases n,
{
    if n == 0 {
        p
    } else {
        dimmed(p.product(rho), rho, (n - 1) as nat)
    }
}

/// A diffuse surface multiplies what a path or a photon carries by its
/// reflectance, and by nothing else: every wavelength alike, at every hit and
/// for every draw. What has been gathered stays.
pub proof fn lemma_diffuse_scatter<F: Fn(Scalar) -> (Scalar, Scalar)>(
    world: World<F>,
    lambda: Seq<Scalar>,
    path: PathState,
    photon: PhotonState,
    hit: Hit,
    rho: Scalar,
    wo_in: Vector,
    n_hero: Scalar,
    counter: u32,
)
    requires
        path.throughput.len() == 4,
    ensures
        ({
            let m = Material::Lambertian { reflectance: rho };
            let after = world.bounced(lambda, path, hit, m);
            &&& m.scattered(wo_in, hit, n_hero, counter, world.turn).weight == rho
            &&& scattered_on(photon, hit, m, lambda[0], world.turn).power == photon.power.product(
                rho,
            )
            &&& scattered_on(photon, hit, m, lambda[0], world.turn).ray.origin == hit.point
            &&& after.ray.origin == hit.point
            &&& after.throughput.len() == 4
            &&& forall|k: int|
                0 <= k < 4 ==> #[trigger] after.throughput[k] == path.throughput[k].product(rho)
            &&& after.radiance == path.radiance
            &&& after.lanes == path.lanes
        }),
{
}

/// Among diffuse surfaces of one reflectance, under a uniform background, a path
/// gathers in each wavelength the background, dimmed once for every surface that
/// it has met; nothing, if it never escapes.
pub proof fn lemma_diffuse_walk<F: Fn(Scalar) -> (Scalar, Scalar)>(
    world: World<F>,
    lambda: Seq<Scalar>,
    path: PathState,
    rho: Scalar,
    bounces: nat,
)
    requires
        path.throughput.len() == 4,
        path.radiance.len() == 4,
        world.scene.horizon is None,
        forall|i: int|
            0 <= i < world.scene.primitives@.len() ==> is_diffuse(
                (#[trigger] world.scene.primitives@[i]).material,
                rho,
            ),
    ensures
        ({
            let end = world.walked(lambda, path, bounces);
            end.lanes == path.lanes && (end.radiance == path.radiance || exists|n: nat|
                n < bounces && #[trigger] gathers(world, lambda, path, end, rho, n))
        }),
    decreases bounces,
{
    if bounces > 0 {
        match world.scene.hit(path.ray) {
            None => {
                let end = world.escaped(lambda, path);
                assert(gathers(world, lambda, path, end, rho, 0));
            },
            Some((hit, m)) => {
                lemma_hit_material(
                    world.scene.primitives@,
                    path.ray,
                    world.scene.primitives@.len(),
                );
                let next = world.bounced(lambda, path, hit, m);
                lemma_diffuse_walk(world, lambda, next, rho, (bounces - 1) as nat);
                let end = world.walked(lambda, next, (bounces - 1) as nat);
                if end.radiance != path.radiance {
                    let n = choose|n: nat|
                        n < bounces - 1 && #[trigger] gathers(world, lambda, next, end, rho, n);
                    assert(gathers(world, lambda, path, end, rho, n + 1)) by {
                        assert forall|k: int| 0 <= k < 4 implies #[trigger] end.radiance[k]
                            == path.radiance[k].sum(
                            dimmed(path.throughput[k], rho, n + 1).product(
                                world.scene.background.sum(Scalar { bits: 0 }),
                            ).product(world.sensor.power(world.illuminant, lambda[k])),
                        ) by {
                            assert(next.throughput[k] == path.throughput[k].product(rho));
                        }
                    }
                }
            },
        }
    }
}

/// The path has gathered the background after `n` surfaces.
pub open spec fn gathers<F: Fn(Scalar) -> (Scalar, Scalar)>(
    world: World<F>,
    lambda: Seq<Scalar>,
    path: PathState,
    end: PathState,
    rho: Scalar,
    n: nat,
) -> bool {
    end.radiance.len() == 4 && forall|k: int|
        0 <= k < 4 ==> #[trigger] end.radiance[k] == path.radiance[k].sum(
            dimmed(path.throughput[k], rho, n).product(
                world.scene.background.sum(Scalar { bits: 0 }),
            ).product(world.sensor.power(world.illuminant, lambda[k])),
        )
}

/// Black surfaces give nothing back: nothing times a number that is one is
/// nothing.
pub proof fn lemma_dimmed_black(p: Scalar, rho: Scalar, n: nat)
    requires
        blank(rho),
        n > 0,
    ensures
        blank(dimmed(p, rho, n)),
{
    lemma_blank_product(rho, p);
    lemma_dimmed_stays_black(p.product(rho), rho, (n - 1) as nat);
}

proof fn lemma_dimmed_stays_black(p: Scalar, rho: Scalar, n: nat)
    requires
        blank(p),
    ensures
        blank(dimmed(p, rho, n)),
    decreases n,
{
    if n > 0 {
        lemma_blank_product(p, rho);
        lemma_dimmed_stays_black(p.product(rho), rho, (n - 1) as nat);
    }
}

/// A photon lands with its power dimmed once for every surface that it has met.
pub proof fn lemma_diffuse_landing<F: Fn(Scalar) -> (Scalar, Scalar)>(
    scene: Scene,
    frame: ScreenFrame,
    photon: PhotonState,
    lambda: Scalar,
    turn: F,
    rho: Scalar,
    segments: nat,
)
    requires
        forall|i: int|
            0 <= i < scene.primitives@.len() ==> is_diffuse(
                (#[trigger] scene.primitives@[i]).material,
                rho,
            ),
    ensures
        landing(scene, frame, photon, lambda, turn, segments).found matches Some((_, _, power))
            ==> exists|n: nat| n < segments && power == #[trigger] dimmed(photon.power, rho, n),
    decreases segments,
{
    reveal(landing);
    if segments > 0 {
        let hit = scene.hit(photon.ray);
        assert(photon.power == dimmed(photon.power, rho, 0));
        if let Some((h, m)) = hit {
            lemma_hit_material(scene.primitives@, photon.ray, scene.primitives@.len());
            let next = scattered_on(photon, h, m, lambda, turn);
            lemma_diffuse_landing(
                scene,
                frame,
                next,
                lambda,
                turn,
                rho,
                (segments - 1) as nat,
            );
            if let Some((_, _, power)) = landing(
                scene,
                frame,
                next,
                lambda,
                turn,
                (segments - 1) as nat,
            ).found {
                let n = choose|n: nat|
                    n < segments - 1 && power == #[trigger] dimmed(next.power, rho, n);
                assert(dimmed(photon.power, rho, n + 1) == dimmed(next.power, rho, n));
            }
        }
    }
}

} // verus!
