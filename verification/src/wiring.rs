//! What the programs on the device read: every parameter at its place in the
//! words, and a projection that is the camera's.
use crate::camera::ViewBasis;
use crate::device::Params;
use crate::film::FilmParams;
use crate::optics::HALF_BITS;
use crate::photons::projection;
use crate::photons::Projection;
use crate::photons::Quad;
use crate::photons::VolParamsGpu;
use crate::scalar::Scalar;
use crate::upload::GpuMaterial;
use crate::upload::GpuPlane;
use crate::upload::GpuPrimitive;
use crate::vector::dot;
use crate::vector::vector_difference;
use crate::vector::Vector;
use crate::viewer::ViewerParams;
use vstd::prelude::*;

verus! {

/// The number at word `k`.
pub open spec fn number_at(words: Seq<u32>, k: int) -> Scalar {
    Scalar { bits: words[k] }
}

/// The vector in the three words from word `k` on.
pub open spec fn vector_at(words: Seq<u32>, k: int) -> Vector {
    Vector { x: number_at(words, k), y: number_at(words, k + 1), z: number_at(words, k + 2) }
}

/// The four numbers from word `k` on.
pub open spec fn quad_at(words: Seq<u32>, k: int) -> Quad {
    Quad {
        x: number_at(words, k),
        y: number_at(words, k + 1),
        z: number_at(words, k + 2),
        w: number_at(words, k + 3),
    }
}

/// Where the path program reads its parameters: the camera in four groups of four
/// words, and then one word for each of the rest.
pub proof fn lemma_path_words(p: Params)
    ensures
        ({
            let w = p.words();
            &&& w.len() == 24
            &&& quad_at(w, 0) == p.cam_origin
            &&& quad_at(w, 4) == p.cam_lower_left
            &&& quad_at(w, 8) == p.cam_horizontal
            &&& quad_at(w, 12) == p.cam_vertical
            &&& w[16] == p.width && w[17] == p.height
            &&& w[18] == p.spp && w[19] == p.seed
            &&& w[20] == p.n_primitives && w[21] == p.illuminant
            &&& number_at(w, 22) == p.background
            &&& w[23] == p.spectral
        }),
{
}

/// Where the photon program reads its parameters.
pub proof fn lemma_photon_words(p: VolParamsGpu)
    ensures
        ({
            let w = p.words();
            &&& w.len() == 48
            &&& w[0] == p.n_primitives && w[1] == p.n_photons && w[2] == p.seed
            &&& number_at(w, 3) == p.max_dist
            &&& w[4] == p.width && w[5] == p.height
            &&& w[6] == p.debug_mode && w[7] == p.debug_count
            &&& quad_at(w, 8) == p.beam_corner
            &&& quad_at(w, 12) == p.beam_u
            &&& quad_at(w, 16) == p.beam_v
            &&& quad_at(w, 20) == p.beam_dir
            &&& quad_at(w, 24) == p.cam_origin
            &&& quad_at(w, 28) == p.cam_u
            &&& quad_at(w, 32) == p.cam_v
            &&& quad_at(w, 36) == p.cam_w
            &&& number_at(w, 40) == p.sigma_s
            &&& number_at(w, 41) == p.sigma_t
            &&& number_at(w, 42) == p.g
            &&& w[43] == p.photon_base
            &&& w[44] == p.spectral
        }),
{
}

/// Where the programs read a primitive, a plane and a material.
pub proof fn lemma_scene_words(primitive: GpuPrimitive, plane: GpuPlane, material: GpuMaterial)
    ensures
        ({
            let w = primitive.words();
            &&& w.len() == 8
            &&& vector_at(w, 0) == primitive.center
            &&& number_at(w, 3) == primitive.radius
            &&& w[4] == primitive.plane_start && w[5] == primitive.plane_count
            &&& w[6] == primitive.kind && w[7] == primitive.material
        }),
        ({
            let w = plane.words();
            w.len() == 4 && vector_at(w, 0) == plane.normal && number_at(w, 3) == plane.d
        }),
        ({
            let w = material.words();
            &&& w.len() == 4
            &&& number_at(w, 0) == material.reflectance
            &&& w[1] == material.glass && w[2] == material.kind
        }),
{
}

/// Where the splat program and the program that shows the picture read theirs.
pub proof fn lemma_film_words(film: FilmParams, viewer: ViewerParams)
    ensures
        ({
            let w = film.words();
            &&& w.len() == 4
            &&& w[0] == film.width && w[1] == film.height
            &&& w[2] == film.n_splats && w[3] == film.seed
        }),
        ({
            let w = viewer.words();
            &&& w.len() == 8
            &&& w[0] == viewer.width && w[1] == viewer.height && w[2] == viewer.total_photons
            &&& number_at(w, 4) == viewer.target_n
            &&& number_at(w, 5) == viewer.exposure
            &&& number_at(w, 6) == viewer.scale
            &&& number_at(w, 7) == viewer.kradius
        }),
{
}

/// The first three of four numbers.
pub open spec fn vector_in(q: Quad) -> Vector {
    Vector { x: q.x, y: q.y, z: q.z }
}

/// How far behind the camera the photon program finds a point.
pub open spec fn device_behind(p: Projection, point: Vector) -> Scalar {
    dot(vector_difference(point, vector_in(p.cam_origin)), vector_in(p.cam_w))
}

/// Where the photon program shows a point: half the image, and the way along an
/// edge over the depth and the length of the edge.
pub open spec fn device_place(p: Projection, point: Vector) -> (Scalar, Scalar) {
    let half = Scalar { bits: HALF_BITS };
    let dir = vector_difference(point, vector_in(p.cam_origin));
    let depth = device_behind(p, point).negated();
    (
        half.sum(dot(dir, vector_in(p.cam_u)).quotient(depth.product(p.cam_u.w))),
        half.sum(dot(dir, vector_in(p.cam_v)).quotient(depth.product(p.cam_v.w))),
    )
}

/// The photon program projects as the camera does, for every camera and every
/// point.
pub proof fn lemma_device_projects(basis: ViewBasis, point: Vector)
    ensures
        device_behind(projection(basis), point) == basis.behind(point),
        device_place(projection(basis), point) == basis.image_place(point),
{
}

} // verus!
