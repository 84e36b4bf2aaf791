//! Pinhole camera generating primary rays.
use crate::geom::Ray;
use crate::geom::TWO_BITS;
use crate::optics::HALF_BITS;
use crate::order::lemma_product_operands;
use crate::order::lemma_sum_operands;
use crate::scalar::lemma_magnitude_increases;
use crate::scalar::lemma_magnitude_sign;
use crate::scalar::lemma_negated;
use crate::scalar::Scalar;
use crate::scalar::ONE_BITS;
use crate::supplied::evaluate;
use crate::supplied::result;
use crate::supplied::single_valued;
use crate::vector::cross;
use crate::vector::dot;
use crate::vector::length;
use crate::vector::unit;
use crate::vector::vector_difference;
use crate::vector::vector_quotient;
use crate::vector::vector_scaled;
use crate::vector::vector_sum;
use crate::vector::Vector;
use vstd::prelude::*;

verus! {

/// Encoding of -1e-6: a point whose product with the backward axis is not less
/// than this is not in front of the camera.
pub const BEHIND_BITS: u32 = 0xb586_37bd;

/// Encoding of pi / 180: radians in a degree.
pub const RADIAN_BITS: u32 = 0x3c8e_fa35;

/// Half a field of view in degrees, in radians.
pub open spec fn half_angle(vfov_deg: Scalar) -> Scalar {
    vfov_deg.product(Scalar { bits: RADIAN_BITS }).quotient(Scalar { bits: TWO_BITS })
}

/// A camera: its eye, the lower left corner of its viewport at unit distance,
/// and the viewport's two edges.
#[derive(Clone, Copy, Debug)]
pub struct Camera {
    origin: Vector,
    lower_left: Vector,
    horizontal: Vector,
    vertical: Vector,
}

/// The eye, the lower left corner, and the horizontal and vertical edge.
pub struct ViewBasis {
    pub origin: Vector,
    pub lower_left: Vector,
    pub horizontal: Vector,
    pub vertical: Vector,
}

/// The basis of a camera at `origin` that looks at `target`: the viewport is
/// twice `half_tan` high, and wider by the aspect ratio.
pub open spec fn looking_at(
    origin: Vector,
    target: Vector,
    up: Vector,
    half_tan: Scalar,
    aspect: Scalar,
) -> ViewBasis {
    let two = Scalar { bits: TWO_BITS };
    let viewport_h = two.product(half_tan);
    let viewport_w = aspect.product(viewport_h);
    let w = unit(vector_difference(origin, target));
    let u = unit(cross(up, w));
    let v = cross(w, u);
    let horizontal = vector_scaled(u, viewport_w);
    let vertical = vector_scaled(v, viewport_h);
    ViewBasis {
        origin,
        lower_left: vector_difference(
            vector_difference(
                vector_difference(origin, vector_quotient(horizontal, two)),
                vector_quotient(vertical, two),
            ),
            w,
        ),
        horizontal,
        vertical,
    }
}

/// Half a field of view in degrees, in radians.
pub fn half_field_of_view(vfov_deg: Scalar) -> (r: Scalar)
    ensures
        r == half_angle(vfov_deg),
{
    vfov_deg.times(Scalar { bits: RADIAN_BITS }).over(Scalar { bits: TWO_BITS })
}

impl ViewBasis {
    /// The direction through the viewport at `s` across and `t` up.
    pub open spec fn direction(self, s: Scalar, t: Scalar) -> Vector {
        unit(
            vector_difference(
                vector_sum(
                    vector_sum(self.lower_left, vector_scaled(self.horizontal, s)),
                    vector_scaled(self.vertical, t),
                ),
                self.origin,
            ),
        )
    }

    /// The axis from the viewport's centre back to the eye.
    pub open spec fn backward(self) -> Vector {
        let half = Scalar { bits: HALF_BITS };
        vector_difference(
            vector_difference(
                vector_difference(self.origin, vector_scaled(self.horizontal, half)),
                vector_scaled(self.vertical, half),
            ),
            self.lower_left,
        )
    }

    /// The product of the direction to `p` with the backward axis.
    pub open spec fn behind(self, p: Vector) -> Scalar {
        dot(vector_difference(p, self.origin), self.backward())
    }

    /// The place of `p` across and up the image.
    pub open spec fn image_place(self, p: Vector) -> (Scalar, Scalar) {
        let half = Scalar { bits: HALF_BITS };
        let dir = vector_difference(p, self.origin);
        let depth = self.behind(p).negated();
        (
            half.sum(
                dot(dir, unit(self.horizontal)).quotient(depth.product(length(self.horizontal))),
            ),
            half.sum(dot(dir, unit(self.vertical)).quotient(depth.product(length(self.vertical)))),
        )
    }

    /// The place of `p` and its depth; none for a point that is not in front
    /// of the camera or not in the frame.
    pub open spec fn projected(self, p: Vector) -> Option<(Scalar, Scalar, Scalar)> {
        let (s, t) = self.image_place(p);
        if (Scalar { bits: BEHIND_BITS }).at_most(self.behind(p)) {
            None
        } else if in_frame(s) && in_frame(t) {
            Some((s, t, self.behind(p).negated()))
        } else {
            None
        }
    }
}

/// Whatever is projected lies in the frame and in front of the camera: its depth
/// is positive.
pub proof fn lemma_projected_in_front(basis: ViewBasis, p: Vector)
    ensures
        basis.projected(p) matches Some((s, t, depth)) ==> in_frame(s) && in_frame(t) && (Scalar {
            bits: 0,
        }).below(depth),
        basis.behind(p).value() >= 0 ==> basis.projected(p) is None,
{
    let behind = basis.behind(p);
    let bound = Scalar { bits: BEHIND_BITS };
    lemma_negated(behind);
    lemma_magnitude_sign(0);
    lemma_magnitude_increases(0, bound.unsigned_bits());
    if let Some((s, t, depth)) = basis.projected(p) {
        let half = Scalar { bits: HALF_BITS };
        let n = dot(vector_difference(p, basis.origin), unit(basis.horizontal));
        let m = depth.product(length(basis.horizontal));
        lemma_sum_operands(half, n.quotient(m));
        reveal(Scalar::quotient);
        lemma_product_operands(depth, length(basis.horizontal));
    }
}

/// A coordinate in `[0, 1)`.
pub open spec fn in_frame(s: Scalar) -> bool {
    (Scalar { bits: 0 }).at_most(s) && s.below(Scalar { bits: ONE_BITS })
}

pub fn is_in_frame(s: Scalar) -> (r: bool)
    ensures
        r == in_frame(s),
{
    s.ge(Scalar { bits: 0 }) && s.lt(Scalar { bits: ONE_BITS })
}

impl Camera {
    pub closed spec fn basis(self) -> ViewBasis {
        ViewBasis {
            origin: self.origin,
            lower_left: self.lower_left,
            horizontal: self.horizontal,
            vertical: self.vertical,
        }
    }

    /// A camera at `origin` that looks at `target`. `half_tan` is the tangent
    /// of half the vertical field of view, `aspect` the width over the height.
    pub fn look_at(
        origin: Vector,
        target: Vector,
        up: Vector,
        half_tan: Scalar,
        aspect: Scalar,
    ) -> (r: Self)
        ensures
            r.basis() == looking_at(origin, target, up, half_tan, aspect),
    {
        let two: Scalar = Scalar { bits: TWO_BITS };
        let viewport_h: Scalar = two.times(half_tan);
        let viewport_w: Scalar = aspect.times(viewport_h);
        let w: Vector = origin.minus(target).normalize();
        let u: Vector = up.cross(w).normalize();
        let v: Vector = w.cross(u);
        let horizontal: Vector = u.times(viewport_w);
        let vertical: Vector = v.times(viewport_h);
        let lower_left: Vector = origin.minus(horizontal.over(two)).minus(
            vertical.over(two),
        ).minus(w);
        Camera { origin, lower_left, horizontal, vertical }
    }

    /// The same with the vertical field of view in degrees. `tan` is the tangent.
    pub fn with_field_of_view<T: Fn(Scalar) -> Scalar>(
        origin: Vector,
        target: Vector,
        up: Vector,
        vfov_deg: Scalar,
        aspect: Scalar,
        tan: &T,
    ) -> (r: Self)
        requires
            single_valued(*tan),
        ensures
            r.basis() == looking_at(
                origin,
                target,
                up,
                result(*tan, half_angle(vfov_deg)),
                aspect,
            ),
    {
        let angle: Scalar = half_field_of_view(vfov_deg);
        Camera::look_at(origin, target, up, evaluate(tan, angle), aspect)
    }

    /// The eye position, the same for every pixel.
    pub fn origin(&self) -> (r: Vector)
        ensures
            r == self.basis().origin,
    {
        self.origin
    }

    /// The eye, the lower left corner, and the horizontal and vertical edge.
    pub fn view_basis(&self) -> (r: (Vector, Vector, Vector, Vector))
        ensures
            r.0 == self.basis().origin,
            r.1 == self.basis().lower_left,
            r.2 == self.basis().horizontal,
            r.3 == self.basis().vertical,
    {
        (self.origin, self.lower_left, self.horizontal, self.vertical)
    }

    /// The ray through the image at `s` across and `t` up, both from the
    /// bottom left.
    pub fn primary_ray(&self, s: Scalar, t: Scalar) -> (r: Ray)
        ensures
            r == (Ray { origin: self.basis().origin, dir: self.basis().direction(s, t) }),
    {
        let dir: Vector = self.lower_left.plus(self.horizontal.times(s)).plus(
            self.vertical.times(t),
        ).minus(self.origin).normalize();
        Ray { origin: self.origin, dir }
    }

    /// The camera made ready to project many points.
    pub fn projector(&self) -> (r: Projector)
        ensures
            r.basis() == self.basis(),
            r.ready(),
    {
        let half: Scalar = Scalar { bits: HALF_BITS };
        Projector {
            camera: *self,
            u: self.horizontal.normalize(),
            v: self.vertical.normalize(),
            vw: self.horizontal.length(),
            vh: self.vertical.length(),
            w: self.origin.minus(self.horizontal.times(half)).minus(
                self.vertical.times(half),
            ).minus(self.lower_left),
        }
    }

    /// The place of a point in the image, and its depth in front of the camera.
    pub fn project(&self, p: Vector) -> (r: Option<(Scalar, Scalar, Scalar)>)
        ensures
            r == self.basis().projected(p),
            r matches Some((s, t, depth)) ==> in_frame(s) && in_frame(t) && !(Scalar {
                bits: BEHIND_BITS,
            }).at_most(depth.negated()),
    {
        self.projector().project(p)
    }
}

/// A camera with the directions and lengths of its viewport's edges and its
/// backward axis.
#[derive(Clone, Copy, Debug)]
pub struct Projector {
    camera: Camera,
    u: Vector,
    v: Vector,
    vw: Scalar,
    vh: Scalar,
    w: Vector,
}

impl Projector {
    pub closed spec fn basis(self) -> ViewBasis {
        self.camera.basis()
    }

    /// What is held beside the camera is the camera's.
    pub closed spec fn ready(self) -> bool {
        let b = self.camera.basis();
        &&& self.u == unit(b.horizontal)
        &&& self.v == unit(b.vertical)
        &&& self.vw == length(b.horizontal)
        &&& self.vh == length(b.vertical)
        &&& self.w == b.backward()
    }

    /// The place of a point in the image, and its depth in front of the camera.
    pub fn project(&self, p: Vector) -> (r: Option<(Scalar, Scalar, Scalar)>)
        requires
            self.ready(),
        ensures
            r == self.basis().projected(p),
            r matches Some((s, t, depth)) ==> in_frame(s) && in_frame(t) && !(Scalar {
                bits: BEHIND_BITS,
            }).at_most(depth.negated()),
    {
        let half: Scalar = Scalar { bits: HALF_BITS };
        let dir: Vector = p.minus(self.camera.origin);
        let c: Scalar = dir.dot(self.w);
        if c.ge(Scalar { bits: BEHIND_BITS }) {
            return None;
        }
        let s: Scalar = half.plus(dir.dot(self.u).over(c.neg().times(self.vw)));
        let t: Scalar = half.plus(dir.dot(self.v).over(c.neg().times(self.vh)));
        if is_in_frame(s) && is_in_frame(t) {
            Some((s, t, c.neg()))
        } else {
            None
        }
    }
}

} // verus!
