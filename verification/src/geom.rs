//! Rays, intersection records, spheres, half-spaces, and convex solids solved
//! by the slab method.
use crate::arith::from_u64;
use crate::arith::integral;
use crate::exact::number;
use crate::interior::holds;
use crate::interior::is_between;
use crate::interior::is_half_of;
use crate::interior::is_in_prism;
use crate::interior::lemma_box_holds;
use crate::interior::lemma_cap_number;
use crate::interior::lemma_prism_holds;
use crate::scalar::lemma_infinities_bound;
use crate::scalar::Scalar;
use crate::scalar::INFINITY_BITS;
use crate::scalar::NEG_INFINITY_BITS;
use crate::supplied::evaluate;
use crate::supplied::result;
use crate::supplied::single_valued;
use crate::triple::Triple;
use crate::vector::dot;
use crate::vector::vector_difference;
use crate::vector::vector_quotient;
use crate::vector::vector_scaled;
use crate::vector::vector_sum;
use crate::vector::Vector;
use vstd::prelude::*;

verus! {

/// Encoding of pi.
pub const PI_BITS: u32 = 0x4049_0fdb;

/// Encoding of pi / 2.
pub const QUARTER_TURN_BITS: u32 = 0x3fc9_0fdb;

/// Encoding of three.
pub const THREE_BITS: u32 = 0x4040_0000;

/// Encoding of 1e-8: a ray whose direction meets a plane's normal under less
/// than this is parallel to the plane.
pub const PARALLEL_BITS: u32 = 0x322b_cc77;

/// Encoding of two.
pub const TWO_BITS: u32 = 0x4000_0000;

/// A ray from `origin` along the unit vector `dir`.
#[derive(Clone, Copy, Debug, PartialEq, Eq, Structural)]
pub struct Ray {
    pub origin: Vector,
    pub dir: Vector,
}

/// The point of a ray at parameter `t`.
pub open spec fn point_at(ray: Ray, t: Scalar) -> Vector {
    vector_sum(ray.origin, vector_scaled(ray.dir, t))
}

impl Ray {
    pub fn at(&self, t: Scalar) -> (r: Vector)
        ensures
            r == point_at(*self, t),
    {
        self.origin.plus(self.dir.times(t))
    }
}

/// Where a ray meets a surface: the unit normal faces the incoming ray, and
/// `front_face` says whether the ray came from outside.
#[derive(Clone, Copy, Debug, PartialEq, Eq, Structural)]
pub struct Hit {
    pub t: Scalar,
    pub point: Vector,
    pub normal: Vector,
    pub front_face: bool,
}

/// The outward normal points along the ray, so that it must turn.
pub open spec fn turns(ray: Ray, outward: Vector) -> bool {
    (Scalar { bits: 0 }).below(dot(outward, ray.dir))
}

/// The hit at parameter `t` on a surface with the given outward normal.
pub open spec fn oriented(ray: Ray, t: Scalar, outward: Vector) -> Hit {
    Hit {
        t,
        point: point_at(ray, t),
        normal: if turns(ray, outward) {
            outward.negated()
        } else {
            outward
        },
        front_face: dot(outward, ray.dir).below(Scalar { bits: 0 }),
    }
}

fn orient(ray: &Ray, t: Scalar, outward: Vector) -> (r: Hit)
    ensures
        r == oriented(*ray, t, outward),
{
    let zero: Scalar = Scalar { bits: 0 };
    let facing: Scalar = outward.dot(ray.dir);
    let normal: Vector = if facing.gt(zero) {
        outward.neg()
    } else {
        outward
    };
    Hit { t, point: ray.at(t), normal, front_face: facing.lt(zero) }
}

/// The parameter is not known to lie outside `[t_min, t_max]`.
pub open spec fn admitted(t: Scalar, t_min: Scalar, t_max: Scalar) -> bool {
    !t.below(t_min) && !t_max.below(t)
}

#[derive(Clone, Copy, Debug, PartialEq, Eq, Structural)]
pub struct Sphere {
    pub center: Vector,
    pub radius: Scalar,
}

/// The quadratic `a t^2 + 2 half_b t + c = 0` of the ray's crossings.
pub struct Quadratic {
    pub a: Scalar,
    pub half_b: Scalar,
    pub c: Scalar,
}

impl Quadratic {
    pub open spec fn discriminant(self) -> Scalar {
        self.half_b.product(self.half_b).difference(self.a.product(self.c))
    }

    pub open spec fn smaller_root(self) -> Scalar {
        self.half_b.negated().difference(self.discriminant().square_root()).quotient(self.a)
    }

    pub open spec fn larger_root(self) -> Scalar {
        self.half_b.negated().sum(self.discriminant().square_root()).quotient(self.a)
    }
}

impl Sphere {
    pub open spec fn quadratic(self, ray: Ray) -> Quadratic {
        let oc = vector_difference(ray.origin, self.center);
        Quadratic {
            a: dot(ray.dir, ray.dir),
            half_b: dot(oc, ray.dir),
            c: dot(oc, oc).difference(self.radius.product(self.radius)),
        }
    }

    /// The outward normal where the ray is at parameter `t`.
    pub open spec fn outward(self, ray: Ray, t: Scalar) -> Vector {
        vector_quotient(vector_difference(point_at(ray, t), self.center), self.radius)
    }

    /// The hit: nothing for a negative discriminant, else the smaller root if
    /// it is admitted, else the larger if that is.
    pub open spec fn hit(self, ray: Ray, t_min: Scalar, t_max: Scalar) -> Option<Hit> {
        let q = self.quadratic(ray);
        if q.discriminant().below(Scalar { bits: 0 }) {
            None
        } else if admitted(q.smaller_root(), t_min, t_max) {
            Some(oriented(ray, q.smaller_root(), self.outward(ray, q.smaller_root())))
        } else if admitted(q.larger_root(), t_min, t_max) {
            Some(oriented(ray, q.larger_root(), self.outward(ray, q.larger_root())))
        } else {
            None
        }
    }

    /// The first crossing of the sphere between `t_min` and `t_max`.
    #[must_use]
    pub fn intersect(&self, r: &Ray, t_min: Scalar, t_max: Scalar) -> (h: Option<Hit>)
        ensures
            h == self.hit(*r, t_min, t_max),
    {
        let oc: Vector = r.origin.minus(self.center);
        let a: Scalar = r.dir.dot(r.dir);
        let half_b: Scalar = oc.dot(r.dir);
        let c: Scalar = oc.dot(oc).minus(self.radius.times(self.radius));
        let disc: Scalar = half_b.times(half_b).minus(a.times(c));
        if disc.lt(Scalar { bits: 0 }) {
            return None;
        }
        let sq: Scalar = disc.sqrt();
        let mut t: Scalar = half_b.neg().minus(sq).over(a);
        if t.lt(t_min) || t.gt(t_max) {
            t = half_b.neg().plus(sq).over(a);
            if t.lt(t_min) || t.gt(t_max) {
                return None;
            }
        }
        let outward: Vector = r.at(t).minus(self.center).over(self.radius);
        Some(orient(r, t, outward))
    }
}

/// The half-space of the points `x` with `normal . x + d <= 0`: the normal
/// points out of the solid.
#[derive(Clone, Copy, Debug, PartialEq, Eq, Structural)]
pub struct Plane {
    pub normal: Vector,
    pub d: Scalar,
}

/// A convex solid: the intersection of half-spaces.
#[derive(Debug)]
pub struct ConvexSolid {
    pub planes: Vec<Plane>,
}

/// A ray against one plane: the normal's product with the direction, the
/// signed distance of the origin, and the parameter at which they meet.
#[derive(Clone, Copy, Debug, PartialEq, Eq, Structural)]
pub struct Crossing {
    pub denom: Scalar,
    pub dist: Scalar,
    pub t: Scalar,
}

pub open spec fn crossing(plane: Plane, ray: Ray) -> Crossing {
    let denom = dot(plane.normal, ray.dir);
    let dist = dot(plane.normal, ray.origin).sum(plane.d);
    Crossing { denom, dist, t: dist.negated().quotient(denom) }
}

/// The ray against every plane, in their order.
pub open spec fn crossings(planes: Seq<Plane>, ray: Ray) -> Seq<Crossing> {
    planes.map_values(|p: Plane| crossing(p, ray))
}

impl Crossing {
    pub open spec fn parallel(self) -> bool {
        self.denom.unsigned().below(Scalar { bits: PARALLEL_BITS })
    }

    /// The ray runs along the plane, on its outer side.
    pub open spec fn outside(self) -> bool {
        self.parallel() && (Scalar { bits: 0 }).below(self.dist)
    }

    /// The ray crosses into the half-space.
    pub open spec fn enters(self) -> bool {
        !self.parallel() && self.denom.below(Scalar { bits: 0 })
    }

    /// The ray crosses out of the half-space.
    pub open spec fn leaves(self) -> bool {
        !self.parallel() && !self.denom.below(Scalar { bits: 0 })
    }
}

/// Crossing `i` is the first of those that enter last.
pub open spec fn is_entry(cs: Seq<Crossing>, i: int) -> bool {
    &&& 0 <= i < cs.len()
    &&& cs[i].enters()
    &&& (Scalar { bits: NEG_INFINITY_BITS }).below(cs[i].t)
    &&& forall|j: int| 0 <= j < cs.len() && (#[trigger] cs[j]).enters() ==> !cs[i].t.below(cs[j].t)
    &&& forall|j: int|
        0 <= j < i && (#[trigger] cs[j]).enters() ==> cs[j].t.nan() || cs[j].t.below(cs[i].t)
}

/// Crossing `i` is the first of those that leave first.
pub open spec fn is_exit(cs: Seq<Crossing>, i: int) -> bool {
    &&& 0 <= i < cs.len()
    &&& cs[i].leaves()
    &&& cs[i].t.below(Scalar { bits: INFINITY_BITS })
    &&& forall|j: int| 0 <= j < cs.len() && (#[trigger] cs[j]).leaves() ==> !cs[j].t.below(cs[i].t)
    &&& forall|j: int|
        0 <= j < i && (#[trigger] cs[j]).leaves() ==> cs[j].t.nan() || cs[i].t.below(cs[j].t)
}

/// The crossing at which the ray has entered every half-space.
pub open spec fn entry(cs: Seq<Crossing>) -> Option<int> {
    if exists|i: int| is_entry(cs, i) {
        Some(choose|i: int| is_entry(cs, i))
    } else {
        None
    }
}

/// The crossing at which the ray leaves a half-space for the first time.
pub open spec fn exit(cs: Seq<Crossing>) -> Option<int> {
    if exists|i: int| is_exit(cs, i) {
        Some(choose|i: int| is_exit(cs, i))
    } else {
        None
    }
}

pub open spec fn entry_t(cs: Seq<Crossing>) -> Scalar {
    match entry(cs) {
        Some(i) => cs[i].t,
        None => Scalar { bits: NEG_INFINITY_BITS },
    }
}

pub open spec fn exit_t(cs: Seq<Crossing>) -> Scalar {
    match exit(cs) {
        Some(i) => cs[i].t,
        None => Scalar { bits: INFINITY_BITS },
    }
}

/// The outward normal of a face; zero where there is none.
pub open spec fn face_normal(planes: Seq<Plane>, face: Option<int>) -> Vector {
    match face {
        Some(i) => planes[i].normal,
        None => Vector::zeros(),
    }
}

/// The direction of side `k` of an equilateral prism: a quarter turn, and `k`
/// thirds of a turn more.
pub open spec fn side_angle(k: int) -> Scalar {
    (Scalar { bits: QUARTER_TURN_BITS }).sum(
        integral(k).product(Scalar { bits: TWO_BITS }).product(Scalar { bits: PI_BITS }).quotient(
            Scalar { bits: THREE_BITS },
        ),
    )
}

/// The outward normal of side `k`.
pub open spec fn side_normal<F: Fn(Scalar) -> (Scalar, Scalar)>(k: int, turn: F) -> Vector {
    let (cos, sin) = result(turn, side_angle(k));
    Vector { x: cos, y: sin, z: Scalar { bits: 0 } }
}

fn side_of_prism<F: Fn(Scalar) -> (Scalar, Scalar)>(k: u64, turn: &F) -> (r: Vector)
    requires
        single_valued(*turn),
    ensures
        r == side_normal(k as int, *turn),
{
    let angle: Scalar = (Scalar { bits: QUARTER_TURN_BITS }).plus(
        from_u64(k).times(Scalar { bits: TWO_BITS }).times(Scalar { bits: PI_BITS }).over(
            Scalar { bits: THREE_BITS },
        ),
    );
    let (cos, sin): (Scalar, Scalar) = evaluate(turn, angle);
    Vector { x: cos, y: sin, z: Scalar { bits: 0 } }
}

impl ConvexSolid {
    /// The hit. A ray outside a plane that it runs along, or one that leaves
    /// before it has entered, misses. Else the entry is the hit where it lies
    /// ahead of `t_min`; where it does not, the origin is inside or past it,
    /// and the exit is the hit if that lies ahead.
    pub open spec fn hit(self, ray: Ray, t_min: Scalar, t_max: Scalar) -> Option<Hit> {
        solid_hit(self.planes@, ray, t_min, t_max)
    }
}

/// The hit on the solid bounded by the planes.
pub open spec fn solid_hit(
    planes: Seq<Plane>,
    ray: Ray,
    t_min: Scalar,
    t_max: Scalar,
) -> Option<Hit> {
    let cs = crossings(planes, ray);
    if exists|i: int| 0 <= i < cs.len() && (#[trigger] cs[i]).outside() {
        None
    } else if exit_t(cs).below(entry_t(cs)) {
        None
    } else if t_min.below(entry_t(cs)) {
        if t_max.below(entry_t(cs)) {
            None
        } else {
            Some(oriented(ray, entry_t(cs), face_normal(planes, entry(cs))))
        }
    } else if t_min.below(exit_t(cs)) && !t_max.below(exit_t(cs)) {
        Some(oriented(ray, exit_t(cs), face_normal(planes, exit(cs))))
    } else {
        None
    }
}

impl ConvexSolid {
    /// The box between two corners: its six faces, outward.
    pub fn axis_box(min: Vector, max: Vector) -> (r: Self)
        ensures
            r.planes@ == seq![
                Plane { normal: Vector::unit_x(), d: max.x.negated() },
                Plane { normal: Vector::unit_x().negated(), d: min.x },
                Plane { normal: Vector::unit_y(), d: max.y.negated() },
                Plane { normal: Vector::unit_y().negated(), d: min.y },
                Plane { normal: Vector::unit_z(), d: max.z.negated() },
                Plane { normal: Vector::unit_z().negated(), d: min.z },
            ],
            forall|p: Triple| #[trigger] holds(r.planes@, p) <==> is_between(min, max, p),
    {
        let solid: ConvexSolid = ConvexSolid {
            planes: vec![
                Plane { normal: Vector::x_axis(), d: max.x.neg() },
                Plane { normal: Vector::x_axis().neg(), d: min.x },
                Plane { normal: Vector::y_axis(), d: max.y.neg() },
                Plane { normal: Vector::y_axis().neg(), d: min.y },
                Plane { normal: Vector::z_axis(), d: max.z.neg() },
                Plane { normal: Vector::z_axis().neg(), d: min.z },
            ],
        };
        proof {
            assert forall|p: Triple| #[trigger]
                holds(solid.planes@, p) <==> is_between(min, max, p) by {
                lemma_box_holds(solid.planes@, min, max, p);
            }
        }
        solid
    }

    /// A triangular prism: a triangle with inradius `size` in the plane of x
    /// and y, extruded along z by `depth`. The three sides have the given
    /// outward normals, a third of a turn apart; the two caps lie at half the
    /// depth.
    pub fn triangular_prism(sides: [Vector; 3], size: Scalar, depth: Scalar) -> (r: Self)
        ensures
            ({
                let cap = depth.negated().quotient(Scalar { bits: TWO_BITS });
                r.planes@ == seq![
                    Plane { normal: sides[0], d: size.negated() },
                    Plane { normal: sides[1], d: size.negated() },
                    Plane { normal: sides[2], d: size.negated() },
                    Plane { normal: Vector::unit_z(), d: cap },
                    Plane { normal: Vector::unit_z().negated(), d: cap },
                ]
            }),
            exists|half: real|
                is_half_of(half, depth) && forall|p: Triple| #[trigger]
                    holds(r.planes@, p) <==> is_in_prism(sides@, number(size), half, p),
    {
        let cap: Scalar = depth.neg().over(Scalar { bits: TWO_BITS });
        let solid: ConvexSolid = ConvexSolid {
            planes: vec![
                Plane { normal: sides[0], d: size.neg() },
                Plane { normal: sides[1], d: size.neg() },
                Plane { normal: sides[2], d: size.neg() },
                Plane { normal: Vector::z_axis(), d: cap },
                Plane { normal: Vector::z_axis().neg(), d: cap },
            ],
        };
        proof {
            let half = -number(cap);
            lemma_cap_number(depth);
            assert(is_half_of(half, depth));
            assert forall|p: Triple| #[trigger]
                holds(solid.planes@, p) <==> is_in_prism(sides@, number(size), half, p) by {
                lemma_prism_holds(solid.planes@, sides@, size, cap, p);
            }
        }
        solid
    }

    /// The same with the first side up. `turn` gives the cosine and the sine.
    pub fn equilateral_prism<F: Fn(Scalar) -> (Scalar, Scalar)>(
        size: Scalar,
        depth: Scalar,
        turn: &F,
    ) -> (r: Self)
        requires
            single_valued(*turn),
        ensures
            ({
                let cap = depth.negated().quotient(Scalar { bits: TWO_BITS });
                r.planes@ == seq![
                    Plane { normal: side_normal(0, *turn), d: size.negated() },
                    Plane { normal: side_normal(1, *turn), d: size.negated() },
                    Plane { normal: side_normal(2, *turn), d: size.negated() },
                    Plane { normal: Vector::unit_z(), d: cap },
                    Plane { normal: Vector::unit_z().negated(), d: cap },
                ]
            }),
    {
        ConvexSolid::triangular_prism(
            [side_of_prism(0, turn), side_of_prism(1, turn), side_of_prism(2, turn)],
            size,
            depth,
        )
    }

    /// The first surface crossing strictly ahead of `t_min`. A ray that starts
    /// inside finds its exit face, as one refracted through glass must.
    #[must_use]
    pub fn intersect(&self, r: &Ray, t_min: Scalar, t_max: Scalar) -> (h: Option<Hit>)
        ensures
            h == self.hit(*r, t_min, t_max),
    {
        let ghost cs = crossings(self.planes@, *r);
        let zero: Scalar = Scalar { bits: 0 };
        let mut t_enter: Scalar = Scalar { bits: NEG_INFINITY_BITS };
        let mut t_exit: Scalar = Scalar { bits: INFINITY_BITS };
        let mut enter_normal: Vector = Vector::zero();
        let mut exit_normal: Vector = Vector::zero();
        let ghost mut enter_face: Option<int> = None;
        let ghost mut exit_face: Option<int> = None;
        let mut k: usize = 0;
        while k < self.planes.len()
            invariant
                k <= self.planes@.len() == cs.len(),
                cs == crossings(self.planes@, *r),
                zero == (Scalar { bits: 0 }),
                forall|j: int| 0 <= j < k ==> !(#[trigger] cs[j]).outside(),
                entry_so_far(cs, k as int, enter_face, t_enter),
                exit_so_far(cs, k as int, exit_face, t_exit),
                enter_normal == face_normal(self.planes@, enter_face),
                exit_normal == face_normal(self.planes@, exit_face),
            decreases self.planes@.len() - k,
        {
            let p: Plane = self.planes[k];
            let denom: Scalar = p.normal.dot(r.dir);
            let dist: Scalar = p.normal.dot(r.origin).plus(p.d);
            let ghost c = cs[k as int];
            assert(c == crossing(p, *r));
            if denom.abs().lt(Scalar { bits: PARALLEL_BITS }) {
                if dist.gt(zero) {
                    assert(cs[k as int].outside());
                    return None;
                }
            } else {
                let t: Scalar = dist.neg().over(denom);
                if denom.lt(zero) {
                    if t.gt(t_enter) {
                        t_enter = t;
                        enter_normal = p.normal;
                        proof {
                            enter_face = Some(k as int);
                        }
                    }
                } else {
                    if t.lt(t_exit) {
                        t_exit = t;
                        exit_normal = p.normal;
                        proof {
                            exit_face = Some(k as int);
                        }
                    }
                }
            }
            k = k + 1;
        }
        proof {
            lemma_entry_found(cs, enter_face, t_enter);
            lemma_exit_found(cs, exit_face, t_exit);
        }
        if t_enter.gt(t_exit) {
            return None;
        }
        let (t_hit, outward): (Scalar, Vector) = if t_enter.gt(t_min) {
            (t_enter, enter_normal)
        } else if t_exit.gt(t_min) {
            (t_exit, exit_normal)
        } else {
            return None;
        };
        if t_hit.gt(t_max) {
            return None;
        }
        Some(orient(r, t_hit, outward))
    }
}

/// What the first `k` crossings give for the entry.
spec fn entry_so_far(cs: Seq<Crossing>, k: int, face: Option<int>, t: Scalar) -> bool {
    match face {
        Some(i) => i < k && is_entry(cs.take(k), i) && t == cs[i].t,
        None => t == (Scalar { bits: NEG_INFINITY_BITS }) && forall|j: int|
            0 <= j < k && (#[trigger] cs[j]).enters() ==> !t.below(cs[j].t),
    }
}

/// What the first `k` crossings give for the exit.
spec fn exit_so_far(cs: Seq<Crossing>, k: int, face: Option<int>, t: Scalar) -> bool {
    match face {
        Some(i) => i < k && is_exit(cs.take(k), i) && t == cs[i].t,
        None => t == (Scalar { bits: INFINITY_BITS }) && forall|j: int|
            0 <= j < k && (#[trigger] cs[j]).leaves() ==> !cs[j].t.below(t),
    }
}

/// There is one entry at most.
pub proof fn lemma_entry_unique(cs: Seq<Crossing>, i: int, j: int)
    requires
        is_entry(cs, i),
        is_entry(cs, j),
    ensures
        i == j,
{
}

/// There is one exit at most.
pub proof fn lemma_exit_unique(cs: Seq<Crossing>, i: int, j: int)
    requires
        is_exit(cs, i),
        is_exit(cs, j),
    ensures
        i == j,
{
}

proof fn lemma_entry_found(cs: Seq<Crossing>, face: Option<int>, t: Scalar)
    requires
        entry_so_far(cs, cs.len() as int, face, t),
    ensures
        entry_t(cs) == t,
        entry(cs) == face,
{
    assert(cs.take(cs.len() as int) =~= cs);
    match face {
        Some(i) => {
            lemma_entry_unique(cs, choose|k: int| is_entry(cs, k), i);
        },
        None => {},
    }
}

proof fn lemma_exit_found(cs: Seq<Crossing>, face: Option<int>, t: Scalar)
    requires
        exit_so_far(cs, cs.len() as int, face, t),
    ensures
        exit_t(cs) == t,
        exit(cs) == face,
{
    assert(cs.take(cs.len() as int) =~= cs);
    match face {
        Some(i) => {
            lemma_exit_unique(cs, choose|k: int| is_exit(cs, k), i);
        },
        None => {},
    }
}

/// Every hit on a sphere is admitted.
pub proof fn lemma_sphere_hit_admitted(sphere: Sphere, ray: Ray, t_min: Scalar, t_max: Scalar)
    ensures
        sphere.hit(ray, t_min, t_max) matches Some(h) ==> admitted(h.t, t_min, t_max),
{
}

/// Every hit on a solid lies strictly ahead of `t_min` and not past `t_max`.
pub proof fn lemma_solid_hit_ahead(planes: Seq<Plane>, ray: Ray, t_min: Scalar, t_max: Scalar)
    ensures
        solid_hit(planes, ray, t_min, t_max) matches Some(h) ==> t_min.below(h.t) && !t_max.below(
            h.t,
        ),
{
    lemma_infinities_bound(t_min);
}

/// A ray that starts inside the solid, where the entry is not ahead and the
/// exit is, hits the exit face.
pub proof fn lemma_inside_hits_exit(planes: Seq<Plane>, ray: Ray, t_min: Scalar, t_max: Scalar)
    requires
        forall|i: int|
            0 <= i < planes.len() ==> !(#[trigger] crossings(planes, ray)[i]).outside(),
        !t_min.below(entry_t(crossings(planes, ray))),
        t_min.below(exit_t(crossings(planes, ray))),
        !t_max.below(exit_t(crossings(planes, ray))),
    ensures
        solid_hit(planes, ray, t_min, t_max) == Some(
            oriented(
                ray,
                exit_t(crossings(planes, ray)),
                face_normal(planes, exit(crossings(planes, ray))),
            ),
        ),
{
}

} // verus!
