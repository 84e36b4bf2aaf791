//! Surface materials: Lambertian diffuse, and smooth dispersive dielectric.
use crate::exact::number;
use crate::geom::Hit;
use crate::optics::fresnel_reflectance;
use crate::optics::mirrored;
use crate::optics::reflect;
use crate::optics::reflectance;
use crate::optics::refract;
use crate::optics::refracted;
use crate::rng::advanced;
use crate::rng::draw_below;
use crate::rng::lemma_draw_below_one;
use crate::rng::pcg;
use crate::rng::unit_draw;
use crate::rng::PathRng;
use crate::scalar::Scalar;
use crate::scalar::ONE_BITS;
use crate::sellmeier::Glass;
use crate::supplied::evaluate;
use crate::supplied::result;
use crate::supplied::single_valued;
use crate::triple::lemma_one_number;
use crate::vector::cross;
use crate::vector::dot;
use crate::vector::unit;
use crate::vector::vector_scaled;
use crate::vector::vector_sum;
use crate::vector::Vector;
use vstd::prelude::*;

verus! {

/// Encoding of 0.9.
pub const NEAR_ONE_BITS: u32 = 0x3f66_6666;

/// Encoding of a full turn in radians.
pub const TURN_BITS: u32 = 0x40c9_0fdb;

#[derive(Clone, Copy, Debug, PartialEq, Eq, Structural)]
pub enum Material {
    Lambertian { reflectance: Scalar },
    /// A smooth dispersive dielectric: its index depends on the wavelength.
    Dielectric { glass: Glass },
}

/// A new direction and a throughput multiplier.
#[derive(Clone, Copy, Debug, PartialEq, Eq, Structural)]
pub struct Scatter {
    pub dir: Vector,
    pub weight: Scalar,
}

/// The indices before and after an interface: a ray that hits the front face
/// enters the glass, any other leaves it.
pub open spec fn indices(front_face: bool, n_glass: Scalar) -> (Scalar, Scalar) {
    if front_face {
        (Scalar { bits: ONE_BITS }, n_glass)
    } else {
        (n_glass, Scalar { bits: ONE_BITS })
    }
}

/// The direction a dielectric sends a path in: mirrored if the draw is below
/// the reflectance, else transmitted, or mirrored where nothing is.
pub open spec fn dielectric_direction(wo_in: Vector, hit: Hit, n_hero: Scalar, draw: u32) -> Vector {
    let (n1, n2) = indices(hit.front_face, n_hero);
    let cos_i = dot(wo_in, hit.normal).negated().unsigned();
    if draw_below(draw, reflectance(cos_i, n1, n2)) {
        mirrored(wo_in, hit.normal)
    } else {
        match refracted(wo_in, hit.normal, n1, n2) {
            Some(dir) => dir,
            None => mirrored(wo_in, hit.normal),
        }
    }
}

/// The axis crossed with a normal to span its tangent plane: x, or y where the
/// normal lies close to x.
pub open spec fn tangent_seed(normal: Vector) -> Vector {
    if (Scalar { bits: NEAR_ONE_BITS }).below(normal.x.unsigned()) {
        Vector::unit_y()
    } else {
        Vector::unit_x()
    }
}

/// The angle about the normal for a draw `u`.
pub open spec fn azimuth(u: Scalar) -> Scalar {
    (Scalar { bits: TURN_BITS }).product(u)
}

/// The direction about `normal` at the squared radius `u` of the unit disc and
/// at the azimuth with the given cosine and sine.
pub open spec fn hemisphere(normal: Vector, u: Scalar, cos_sin: (Scalar, Scalar)) -> Vector {
    let r = u.square_root();
    let z = (Scalar { bits: ONE_BITS }).difference(u).larger(Scalar { bits: 0 }).square_root();
    let t = unit(cross(normal, tangent_seed(normal)));
    let b = cross(normal, t);
    unit(
        vector_sum(
            vector_sum(
                vector_scaled(t, r.product(cos_sin.0)),
                vector_scaled(b, r.product(cos_sin.1)),
            ),
            vector_scaled(normal, z),
        ),
    )
}

/// Lifts a point of the unit disc to the hemisphere about `normal`.
pub fn hemisphere_direction(normal: Vector, u: Scalar, cos_sin: (Scalar, Scalar)) -> (dir: Vector)
    ensures
        dir == hemisphere(normal, u, cos_sin),
{
    let r: Scalar = u.sqrt();
    let x: Scalar = r.times(cos_sin.0);
    let y: Scalar = r.times(cos_sin.1);
    let z: Scalar = (Scalar { bits: ONE_BITS }).minus(u).max(Scalar { bits: 0 }).sqrt();
    let a: Vector = if normal.x.abs().gt(Scalar { bits: NEAR_ONE_BITS }) {
        Vector::y_axis()
    } else {
        Vector::x_axis()
    };
    let t: Vector = normal.cross(a).normalize();
    let b: Vector = normal.cross(t);
    t.times(x).plus(b.times(y)).plus(normal.times(z)).normalize()
}

/// A cosine-weighted direction about `normal`, from two draws. `turn` gives
/// the cosine and sine of an angle.
pub fn cosine_hemisphere<F: Fn(Scalar) -> (Scalar, Scalar)>(
    normal: Vector,
    rng: &mut PathRng,
    turn: &F,
) -> (dir: Vector)
    requires
        single_valued(*turn),
    ensures
        final(rng).counter() == advanced(old(rng).counter(), 2),
        dir == hemisphere(
            normal,
            unit_draw(pcg(advanced(old(rng).counter(), 1))),
            result(*turn, azimuth(unit_draw(pcg(advanced(old(rng).counter(), 2))))),
        ),
{
    let u1: Scalar = rng.next_f32();
    let u2: Scalar = rng.next_f32();
    let phi: Scalar = (Scalar { bits: TURN_BITS }).times(u2);
    let cos_sin: (Scalar, Scalar) = evaluate(turn, phi);
    hemisphere_direction(normal, u1, cos_sin)
}

impl Material {
    /// The glass of a dispersive material.
    pub open spec fn glass_spec(self) -> Option<Glass> {
        match self {
            Material::Lambertian { .. } => None,
            Material::Dielectric { glass } => Some(glass),
        }
    }

    /// The number of draws that one scattering takes.
    pub open spec fn draws(self) -> nat {
        match self {
            Material::Lambertian { .. } => 2,
            Material::Dielectric { .. } => 1,
        }
    }

    /// How a path goes on from a hit with the stream at `counter`.
    pub open spec fn scattered<F: Fn(Scalar) -> (Scalar, Scalar)>(
        self,
        wo_in: Vector,
        hit: Hit,
        n_hero: Scalar,
        counter: u32,
        turn: F,
    ) -> Scatter {
        match self {
            Material::Lambertian { reflectance } => Scatter {
                dir: hemisphere(
                    hit.normal,
                    unit_draw(pcg(advanced(counter, 1))),
                    result(turn, azimuth(unit_draw(pcg(advanced(counter, 2))))),
                ),
                weight: reflectance,
            },
            Material::Dielectric { .. } => Scatter {
                dir: dielectric_direction(wo_in, hit, n_hero, pcg(advanced(counter, 1))),
                weight: Scalar { bits: ONE_BITS },
            },
        }
    }

    /// The glass whose index the path needs; any other material counts with
    /// index one.
    pub fn glass(&self) -> (r: Option<Glass>)
        ensures
            r == self.glass_spec(),
    {
        match *self {
            Material::Lambertian { .. } => None,
            Material::Dielectric { glass } => Some(glass),
        }
    }

    /// Scatters a path that arrives along `wo_in`. A dielectric, with index
    /// `n_hero` at the path's wavelength, decides on one draw between mirroring
    /// and transmission; a diffuse surface takes two draws for its direction.
    /// Every path goes on. The wavelength itself decides nothing.
    pub fn scatter<F: Fn(Scalar) -> (Scalar, Scalar)>(
        &self,
        wo_in: Vector,
        hit: &Hit,
        _hero_lambda: Scalar,
        n_hero: Scalar,
        rng: &mut PathRng,
        turn: &F,
    ) -> (r: Option<Scatter>)
        requires
            single_valued(*turn),
        ensures
            final(rng).counter() == advanced(old(rng).counter(), self.draws()),
            r == Some(self.scattered(wo_in, *hit, n_hero, old(rng).counter(), *turn)),
            r matches Some(sc) ==> match *self {
                Material::Lambertian { reflectance } => sc.weight == reflectance,
                Material::Dielectric { .. } => number(sc.weight) == 1real,
            },
    {
        let one: Scalar = Scalar { bits: ONE_BITS };
        proof {
            lemma_one_number();
        }
        match *self {
            Material::Lambertian { reflectance } => {
                let dir: Vector = cosine_hemisphere(hit.normal, rng, turn);
                Some(Scatter { dir, weight: reflectance })
            },
            Material::Dielectric { .. } => {
                let cos_i: Scalar = wo_in.dot(hit.normal).neg().abs();
                let (n1, n2): (Scalar, Scalar) = if hit.front_face {
                    (one, n_hero)
                } else {
                    (n_hero, one)
                };
                let r: Scalar = fresnel_reflectance(cos_i, n1, n2);
                let draw: Scalar = rng.next_f32();
                let dir: Vector = if draw.lt(r) {
                    reflect(wo_in, hit.normal)
                } else {
                    match refract(wo_in, hit.normal, n1, n2) {
                        Some(dir) => dir,
                        None => reflect(wo_in, hit.normal),
                    }
                };
                Some(Scatter { dir, weight: one })
            },
        }
    }
}

/// Under total internal reflection, where the reflectance is one or nothing is
/// transmitted, every draw mirrors the path.
pub proof fn lemma_total_reflection(wo_in: Vector, hit: Hit, n_hero: Scalar, draw: u32)
    requires
        ({
            let (n1, n2) = indices(hit.front_face, n_hero);
            let cos_i = dot(wo_in, hit.normal).negated().unsigned();
            reflectance(cos_i, n1, n2) == (Scalar { bits: ONE_BITS }) || refracted(
                wo_in,
                hit.normal,
                n1,
                n2,
            ) is None
        }),
    ensures
        dielectric_direction(wo_in, hit, n_hero, draw) == mirrored(wo_in, hit.normal),
{
    lemma_draw_below_one(draw);
}

/// Where nothing is reflected, no draw mirrors a path that can be transmitted.
pub proof fn lemma_no_reflection(wo_in: Vector, hit: Hit, n_hero: Scalar, draw: u32)
    requires
        ({
            let (n1, n2) = indices(hit.front_face, n_hero);
            let cos_i = dot(wo_in, hit.normal).negated().unsigned();
            reflectance(cos_i, n1, n2).value() <= 0
        }),
    ensures
        ({
            let (n1, n2) = indices(hit.front_face, n_hero);
            refracted(wo_in, hit.normal, n1, n2) matches Some(dir) ==> dielectric_direction(
                wo_in,
                hit,
                n_hero,
                draw,
            ) == dir
        }),
{
    lemma_draw_below_one(draw);
}

} // verus!
