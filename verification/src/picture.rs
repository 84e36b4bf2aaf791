//! The prism picture: an equilateral prism of dense flint in haze, a thin white
//! beam at minimum deviation, and a camera that faces it.
use crate::camera::looking_at;
use crate::camera::Camera;
use crate::geom::ConvexSolid;
use crate::geom::Plane;
use crate::lighttrace::Beam;
use crate::material::Material;
use crate::optics::HALF_BITS;
use crate::order::lemma_product_one;
use crate::order::lemma_sum_commutes;
use crate::order::lemma_sum_zero;
use crate::order::lemma_zero_factor;
use crate::orbit::is_on_orbit;
use crate::orbit::is_orbit_radius;
use crate::orbit::is_turn;
use crate::orbit::lemma_orbit_place;
use crate::orbit::lemma_orbit_target;
use crate::scalar::Scalar;
use crate::scalar::ONE_BITS;
use crate::scene::Scene;
use crate::scene::Shape;
use crate::sellmeier::Glass;
use crate::vector::unit;
use crate::vector::vector_scaled;
use crate::vector::Vector;
use vstd::prelude::*;

verus! {

/// Encoding of 0.8660254, the sine of 60 degrees.
pub const SLANT_BITS: u32 = 0x3f5d_b3d7;

pub const NEG_SLANT_BITS: u32 = 0xbf5d_b3d7;

/// Encoding of -0.9.
pub const FACE_D_BITS: u32 = 0xbf66_6666;

/// Encoding of -1.
pub const NEG_ONE_BITS: u32 = 0xbf80_0000;

/// Encoding of 0.84.
pub const BEAM_X_BITS: u32 = 0x3f57_0a3d;

/// Encodings of 0.54 and -0.54.
pub const BEAM_Y_BITS: u32 = 0x3f0a_3d71;

pub const NEG_BEAM_Y_BITS: u32 = 0xbf0a_3d71;

/// Encoding of 0.05, the width of the beam.
pub const BEAM_WIDTH_BITS: u32 = 0x3d4c_cccd;

/// Encodings of -2.6, -0.95 and -0.6.
pub const CORNER_X_BITS: u32 = 0xc026_6666;

pub const CORNER_Y_BITS: u32 = 0xbf73_3333;

pub const CORNER_Z_BITS: u32 = 0xbf19_999a;

/// Encoding of 1.2.
pub const SHEET_BITS: u32 = 0x3f99_999a;

/// Encoding of -0.5.
pub const NEG_HALF_BITS: u32 = 0xbf00_0000;

/// Encoding of 12, the distance of the eye.
pub const RADIUS_BITS: u32 = 0x4140_0000;

pub open spec fn vector_of(x: u32, y: u32, z: u32) -> Vector {
    Vector { x: Scalar { bits: x }, y: Scalar { bits: y }, z: Scalar { bits: z } }
}

fn make_vector(x: u32, y: u32, z: u32) -> (r: Vector)
    ensures
        r == vector_of(x, y, z),
{
    Vector { x: Scalar { bits: x }, y: Scalar { bits: y }, z: Scalar { bits: z } }
}

/// The faces of the prism: left, right, base, and the two caps.
pub open spec fn prism_planes() -> Seq<Plane> {
    let face = Scalar { bits: FACE_D_BITS };
    let cap = Scalar { bits: NEG_ONE_BITS };
    seq![
        Plane { normal: vector_of(NEG_SLANT_BITS, HALF_BITS, 0), d: face },
        Plane { normal: vector_of(SLANT_BITS, HALF_BITS, 0), d: face },
        Plane { normal: vector_of(0, NEG_ONE_BITS, 0), d: cap },
        Plane { normal: Vector::unit_z(), d: cap },
        Plane { normal: Vector::unit_z().negated(), d: cap },
    ]
}

/// The beam: a thin sheet that travels up and to the right.
pub open spec fn prism_beam() -> Beam {
    Beam {
        corner: vector_of(CORNER_X_BITS, CORNER_Y_BITS, CORNER_Z_BITS),
        u: vector_of(0, 0, SHEET_BITS),
        v: vector_scaled(
            unit(vector_of(NEG_BEAM_Y_BITS, BEAM_X_BITS, 0)),
            Scalar { bits: BEAM_WIDTH_BITS },
        ),
        dir: unit(vector_of(BEAM_X_BITS, BEAM_Y_BITS, 0)),
    }
}

/// The prism alone before a black background, its beam, and the camera that
/// faces it. `half_tan` is the tangent of 21 degrees, half the vertical field
/// of view.
pub fn dsotm_scene(half_tan: Scalar, aspect: Scalar) -> (r: (Scene, Beam, Camera))
    ensures
        r.0.background == (Scalar { bits: 0 }),
        r.0.horizon is None,
        r.0.primitives@.len() == 1,
        r.0.primitives@[0].material == (Material::Dielectric { glass: Glass::Sf11 }),
        r.0.primitives@[0].shape matches Shape::Solid(solid) && solid.planes@ == prism_planes(),
        r.1 == prism_beam(),
        r.2.basis() == looking_at(
            vector_of(HALF_BITS, NEG_HALF_BITS, RADIUS_BITS),
            vector_of(HALF_BITS, NEG_HALF_BITS, 0),
            Vector::unit_y(),
            half_tan,
            aspect,
        ),
{
    let face: Scalar = Scalar { bits: FACE_D_BITS };
    let cap: Scalar = Scalar { bits: NEG_ONE_BITS };
    let planes: Vec<Plane> = vec![
        Plane { normal: make_vector(NEG_SLANT_BITS, HALF_BITS, 0), d: face },
        Plane { normal: make_vector(SLANT_BITS, HALF_BITS, 0), d: face },
        Plane { normal: make_vector(0, NEG_ONE_BITS, 0), d: cap },
        Plane { normal: Vector::z_axis(), d: cap },
        Plane { normal: Vector::z_axis().neg(), d: cap },
    ];
    assert(planes@ =~= prism_planes());
    let mut scene: Scene = Scene::new();
    scene.background = Scalar { bits: 0 };
    scene.add_solid(ConvexSolid { planes }, Material::Dielectric { glass: Glass::Sf11 });
    let across: Vector = make_vector(NEG_BEAM_Y_BITS, BEAM_X_BITS, 0).normalize();
    let beam: Beam = Beam {
        corner: make_vector(CORNER_X_BITS, CORNER_Y_BITS, CORNER_Z_BITS),
        u: make_vector(0, 0, SHEET_BITS),
        v: across.times(Scalar { bits: BEAM_WIDTH_BITS }),
        dir: make_vector(BEAM_X_BITS, BEAM_Y_BITS, 0).normalize(),
    };
    let camera: Camera = Camera::look_at(
        make_vector(HALF_BITS, NEG_HALF_BITS, RADIUS_BITS),
        make_vector(HALF_BITS, NEG_HALF_BITS, 0),
        Vector::y_axis(),
        half_tan,
        aspect,
    );
    (scene, beam, camera)
}

/// The point that the orbit camera looks at.
pub open spec fn orbit_target() -> Vector {
    vector_of(HALF_BITS, NEG_HALF_BITS, 0)
}

/// A turn: the cosine and the sine of an angle.
#[derive(Clone, Copy, Debug, PartialEq, Eq, Structural)]
pub struct Turn {
    pub cos: Scalar,
    pub sin: Scalar,
}

/// The eye that circles the target at a distance: sideways by the yaw, up by
/// the pitch.
pub open spec fn orbit_eye(yaw: Turn, pitch: Turn, radius: Scalar) -> Vector {
    let t = orbit_target();
    Vector {
        x: t.x.sum(radius.product(pitch.cos).product(yaw.sin)),
        y: t.y.sum(radius.product(pitch.sin)),
        z: t.z.sum(radius.product(pitch.cos).product(yaw.cos)),
    }
}

/// The orbit camera. `half_tan` is the tangent of 21 degrees.
pub fn orbit_camera(
    yaw: Turn,
    pitch: Turn,
    radius: Scalar,
    half_tan: Scalar,
    aspect: Scalar,
) -> (r: Camera)
    ensures
        r.basis() == looking_at(
            orbit_eye(yaw, pitch, radius),
            orbit_target(),
            Vector::unit_y(),
            half_tan,
            aspect,
        ),
        is_turn(yaw) && is_turn(pitch) && is_orbit_radius(radius) ==> is_on_orbit(
            r.basis().origin,
            yaw,
            pitch,
            radius,
        ),
{
    proof {
        if is_turn(yaw) && is_turn(pitch) && is_orbit_radius(radius) {
            lemma_orbit_target();
            lemma_orbit_place(yaw, pitch, radius);
        }
    }
    let target: Vector = make_vector(HALF_BITS, NEG_HALF_BITS, 0);
    let offset: Vector = Vector::new(
        radius.times(pitch.cos).times(yaw.sin),
        radius.times(pitch.sin),
        radius.times(pitch.cos).times(yaw.cos),
    );
    Camera::look_at(target.plus(offset), target, Vector::y_axis(), half_tan, aspect)
}

/// The orbit starts where the picture is taken from: without a turn, and at
/// its first distance, the orbit camera is the picture's, for every field of
/// view and every shape of the image.
pub proof fn lemma_orbit_starts_at_picture(half_tan: Scalar, aspect: Scalar)
    ensures
        ({
            let still = Turn { cos: Scalar { bits: ONE_BITS }, sin: Scalar { bits: 0 } };
            looking_at(
                orbit_eye(still, still, Scalar { bits: RADIUS_BITS }),
                orbit_target(),
                Vector::unit_y(),
                half_tan,
                aspect,
            ) == looking_at(
                vector_of(HALF_BITS, NEG_HALF_BITS, RADIUS_BITS),
                vector_of(HALF_BITS, NEG_HALF_BITS, 0),
                Vector::unit_y(),
                half_tan,
                aspect,
            )
        }),
{
    let radius = Scalar { bits: RADIUS_BITS };
    let zero = Scalar { bits: 0 };
    lemma_product_one(radius);
    lemma_zero_factor(radius);
    lemma_sum_zero(Scalar { bits: HALF_BITS });
    lemma_sum_zero(Scalar { bits: NEG_HALF_BITS });
    lemma_sum_zero(radius);
    lemma_sum_commutes(zero, radius);
}

} // verus!
