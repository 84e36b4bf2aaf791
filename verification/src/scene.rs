//! A scene: primitives with materials, and a background.
use crate::constants::lemma_constant;
use crate::exact::number;
use crate::geom::crossings;
use crate::geom::entry_t;
use crate::geom::exit_t;
use crate::geom::lemma_solid_hit_ahead;
use crate::geom::lemma_sphere_hit_admitted;
use crate::geom::ConvexSolid;
use crate::geom::Hit;
use crate::geom::Ray;
use crate::geom::Sphere;
use crate::material::Material;
use crate::projection::lemma_number_order;
use crate::scalar::lemma_infinities_bound;
use crate::scalar::Scalar;
use crate::scalar::INFINITY_BITS;
use crate::scalar::ONE_BITS;
use crate::vector::Vector;
use vstd::arithmetic::power2::lemma2_to64_rest;
use vstd::prelude::*;

verus! {

/// Encoding of 1e-3: a hit nearer than this is the surface a ray starts from.
pub const NEAREST_BITS: u32 = 0x3a83_126f;

#[derive(Debug)]
pub enum Shape {
    Sphere(Sphere),
    Solid(ConvexSolid),
}

#[derive(Debug)]
pub struct Primitive {
    pub shape: Shape,
    pub material: Material,
}

/// Primitives and a uniform background radiance, with an optional extra
/// radiance for rays that point above the horizon.
#[derive(Debug)]
pub struct Scene {
    pub primitives: Vec<Primitive>,
    pub background: Scalar,
    pub horizon: Option<Scalar>,
}

impl Primitive {
    /// The hit on this primitive between `t_min` and `t_max`.
    pub open spec fn hit(self, ray: Ray, t_min: Scalar, t_max: Scalar) -> Option<Hit> {
        match self.shape {
            Shape::Sphere(s) => s.hit(ray, t_min, t_max),
            Shape::Solid(s) => s.hit(ray, t_min, t_max),
        }
    }
}

/// The nearest hit among the first `n` primitives: each is asked for a hit no
/// farther than the best so far, and replaces it.
pub open spec fn nearest(primitives: Seq<Primitive>, ray: Ray, n: nat) -> Option<(Hit, Material)>
    decreases n,
{
    if n == 0 {
        None
    } else {
        let before = nearest(primitives, ray, (n - 1) as nat);
        let p = primitives[n - 1];
        match p.hit(ray, Scalar { bits: NEAREST_BITS }, distance(before)) {
            Some(h) => Some((h, p.material)),
            None => before,
        }
    }
}

/// The parameter of a hit; infinity for none.
pub open spec fn distance(found: Option<(Hit, Material)>) -> Scalar {
    match found {
        Some((h, _)) => h.t,
        None => Scalar { bits: INFINITY_BITS },
    }
}

impl Default for Scene {
    fn default() -> (r: Self)
        ensures
            r.primitives@.len() == 0,
            r.background == (Scalar { bits: ONE_BITS }),
            r.horizon is None,
    {
        Self::new()
    }
}

impl Scene {
    /// An empty scene under a uniform background of one.
    pub fn new() -> (r: Self)
        ensures
            r.primitives@.len() == 0,
            r.background == (Scalar { bits: ONE_BITS }),
            r.horizon is None,
    {
        Scene { primitives: Vec::new(), background: Scalar { bits: ONE_BITS }, horizon: None }
    }

    /// The background radiance for an escaped ray: uniform, plus what is above
    /// the horizon for a ray that points there.
    pub open spec fn background_spec(self, dir: Vector) -> Scalar {
        let sky = match self.horizon {
            Some(above) => if (Scalar { bits: 0 }).below(dir.y) {
                above
            } else {
                Scalar { bits: 0 }
            },
            None => Scalar { bits: 0 },
        };
        self.background.sum(sky)
    }

    pub fn background_radiance(&self, dir: Vector) -> (r: Scalar)
        ensures
            r == self.background_spec(dir),
    {
        let zero: Scalar = Scalar { bits: 0 };
        let sky: Scalar = match self.horizon {
            Some(above) => if dir.y.gt(zero) {
                above
            } else {
                zero
            },
            None => zero,
        };
        self.background.plus(sky)
    }

    pub fn add_sphere(&mut self, center: Vector, radius: Scalar, material: Material)
        ensures
            final(self).primitives@ == old(self).primitives@.push(
                Primitive { shape: Shape::Sphere(Sphere { center, radius }), material },
            ),
            final(self).background == old(self).background,
            final(self).horizon == old(self).horizon,
    {
        self.primitives.push(
            Primitive { shape: Shape::Sphere(Sphere { center, radius }), material },
        );
    }

    pub fn add_solid(&mut self, solid: ConvexSolid, material: Material)
        ensures
            final(self).primitives@ == old(self).primitives@.push(
                Primitive { shape: Shape::Solid(solid), material },
            ),
            final(self).background == old(self).background,
            final(self).horizon == old(self).horizon,
    {
        self.primitives.push(Primitive { shape: Shape::Solid(solid), material });
    }

    /// The hit nearest along the ray, with its material.
    pub open spec fn hit(self, ray: Ray) -> Option<(Hit, Material)> {
        nearest(self.primitives@, ray, self.primitives@.len())
    }

    /// The nearest intersection with any primitive, and its material.
    pub fn intersect(&self, r: &Ray) -> (found: Option<(Hit, Material)>)
        ensures
            found == self.hit(*r),
    {
        let low: Scalar = Scalar { bits: NEAREST_BITS };
        let mut best: Option<(Hit, Material)> = None;
        let mut closest: Scalar = Scalar { bits: INFINITY_BITS };
        let mut k: usize = 0;
        while k < self.primitives.len()
            invariant
                k <= self.primitives@.len(),
                low == (Scalar { bits: NEAREST_BITS }),
                best == nearest(self.primitives@, *r, k as nat),
                closest == distance(best),
            decreases self.primitives@.len() - k,
        {
            let p: &Primitive = &self.primitives[k];
            let hit: Option<Hit> = match &p.shape {
                Shape::Sphere(s) => s.intersect(r, low, closest),
                Shape::Solid(s) => s.intersect(r, low, closest),
            };
            match hit {
                Some(h) => {
                    closest = h.t;
                    best = Some((h, p.material));
                },
                None => {},
            }
            k = k + 1;
        }
        best
    }
}

/// The two roots of a sphere come in order; a solid has none.
pub open spec fn roots_ordered(p: Primitive, ray: Ray) -> bool {
    match p.shape {
        Shape::Sphere(s) => s.quadratic(ray).smaller_root().at_most(
            s.quadratic(ray).larger_root(),
        ),
        Shape::Solid(_) => true,
    }
}

/// A bound on the parameter only removes a hit that lies past it.
proof fn lemma_bounded_hit(p: Primitive, ray: Ray, t_max: Scalar)
    requires
        roots_ordered(p, ray),
        !t_max.nan(),
    ensures
        ({
            let low = Scalar { bits: NEAREST_BITS };
            let alone = p.hit(ray, low, Scalar { bits: INFINITY_BITS });
            &&& alone matches Some(h) ==> !h.t.nan()
            &&& p.hit(ray, low, t_max) == match alone {
                Some(h) => if t_max.below(h.t) {
                    None
                } else {
                    alone
                },
                None => None,
            }
        }),
{
    let low = Scalar { bits: NEAREST_BITS };
    let inf = Scalar { bits: INFINITY_BITS };
    match p.shape {
        Shape::Sphere(s) => {
            lemma_infinities_bound(s.quadratic(ray).smaller_root());
            lemma_infinities_bound(s.quadratic(ray).larger_root());
        },
        Shape::Solid(solid) => {
            let cs = crossings(solid.planes@, ray);
            lemma_solid_hit_ahead(solid.planes@, ray, low, inf);
            lemma_infinities_bound(entry_t(cs));
            lemma_infinities_bound(exit_t(cs));
        },
    }
}

/// The hit on primitive `i` when nothing else is in the scene.
pub open spec fn hit_alone(primitives: Seq<Primitive>, ray: Ray, i: int) -> Option<Hit> {
    primitives[i].hit(ray, Scalar { bits: NEAREST_BITS }, Scalar { bits: INFINITY_BITS })
}

/// The scene's hit is a hit of one of its primitives taken alone, and no
/// primitive taken alone is hit nearer. There is a hit if any primitive has
/// one.
pub proof fn lemma_nearest(primitives: Seq<Primitive>, ray: Ray, n: nat)
    requires
        n <= primitives.len(),
        forall|i: int| 0 <= i < n ==> roots_ordered(#[trigger] primitives[i], ray),
    ensures
        nearest(primitives, ray, n) matches Some((h, m)) ==> !h.t.nan() && (exists|i: int|
            0 <= i < n && hit_alone(primitives, ray, i) == Some(h) && primitives[i].material == m)
            && (forall|i: int|
            0 <= i < n ==> (#[trigger] hit_alone(primitives, ray, i) matches Some(other)
                ==> h.t.at_most(other.t))),
        nearest(primitives, ray, n) is None ==> forall|i: int|
            0 <= i < n ==> (#[trigger] hit_alone(primitives, ray, i)) is None,
    decreases n,
{
    if n > 0 {
        let before = nearest(primitives, ray, (n - 1) as nat);
        lemma_nearest(primitives, ray, (n - 1) as nat);
        let last: int = n - 1;
        lemma_bounded_hit(primitives[last], ray, distance(before));
        lemma_infinities_bound(distance(before));
        if let Some(h) = hit_alone(primitives, ray, last) {
            lemma_infinities_bound(h.t);
        }
    }
}

/// A hit lies ahead of a ray's origin by a thousandth at least, so that a path
/// does not meet the surface that it leaves.
pub proof fn lemma_hit_ahead(primitives: Seq<Primitive>, ray: Ray, n: nat)
    requires
        n <= primitives.len(),
    ensures
        nearest(primitives, ray, n) matches Some((h, _)) ==> (h.t.finite() ==> number(h.t)
            >= 999real / 1000000real),
    decreases n,
{
    if n > 0 {
        lemma_hit_ahead(primitives, ray, (n - 1) as nat);
        let low = Scalar { bits: NEAREST_BITS };
        let before = nearest(primitives, ray, (n - 1) as nat);
        let p = primitives[n - 1];
        lemma2_to64_rest();
        lemma_constant(NEAREST_BITS, 116, 8589935, 8589934592real);
        if let Some(h) = p.hit(ray, low, distance(before)) {
            if h.t.finite() {
                match p.shape {
                    Shape::Sphere(s) => {
                        lemma_sphere_hit_admitted(s, ray, low, distance(before));
                    },
                    Shape::Solid(s) => {
                        lemma_solid_hit_ahead(s.planes@, ray, low, distance(before));
                    },
                }
                if number(h.t) < number(low) {
                    lemma_number_order(h.t, low);
                }
            }
        }
    }
}

} // verus!
