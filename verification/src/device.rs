//! The path tracer on the device: its parameters, and the image that it gives
//! back.
use crate::camera::Camera;
use crate::camera::ViewBasis;
use crate::cie::Illuminant;
use crate::cie::Xyz;
use crate::film::averaged;
use crate::film::averages;
use crate::film::ceil_div;
use crate::film::groups;
use crate::photons::quad;
use crate::photons::to_quad;
use crate::photons::Quad;
use crate::photons::TILE;
use crate::scalar::Scalar;
use crate::scene::Scene;
use vstd::prelude::*;

verus! {

/// The parameters of the path tracing program.
#[derive(Clone, Copy, Debug, PartialEq, Eq, Structural)]
pub struct Params {
    pub cam_origin: Quad,
    pub cam_lower_left: Quad,
    pub cam_horizontal: Quad,
    pub cam_vertical: Quad,
    pub width: u32,
    pub height: u32,
    pub spp: u32,
    pub seed: u32,
    pub n_primitives: u32,
    pub illuminant: u32,
    pub background: Scalar,
    /// 1 refracts every wavelength by its own index, 0 all by that of 550 nm.
    pub spectral: u32,
}

impl Params {
    pub open spec fn words(self) -> Seq<u32> {
        self.cam_origin.words() + self.cam_lower_left.words() + self.cam_horizontal.words()
            + self.cam_vertical.words() + seq![
            self.width,
            self.height,
            self.spp,
            self.seed,
            self.n_primitives,
            self.illuminant,
            self.background.bits,
            self.spectral,
        ]
    }

    /// The words of the uniform buffer.
    pub fn to_words(&self) -> (r: Vec<u32>)
        ensures
            r@ == self.words(),
            r@.len() == 24,
    {
        let mut out: Vec<u32> = Vec::new();
        self.cam_origin.push_words(&mut out);
        assert(out@ =~= self.cam_origin.words());
        self.cam_lower_left.push_words(&mut out);
        self.cam_horizontal.push_words(&mut out);
        self.cam_vertical.push_words(&mut out);
        let ghost before = out@;
        out.push(self.width);
        out.push(self.height);
        out.push(self.spp);
        out.push(self.seed);
        out.push(self.n_primitives);
        out.push(self.illuminant);
        out.push(self.background.bits);
        out.push(self.spectral);
        assert(out@ =~= before + seq![
            self.width,
            self.height,
            self.spp,
            self.seed,
            self.n_primitives,
            self.illuminant,
            self.background.bits,
            self.spectral,
        ]);
        out
    }

    /// The parameters with the basis of a camera.
    pub open spec fn seen_from(self, basis: ViewBasis) -> Params {
        let zero = Scalar { bits: 0 };
        Params {
            cam_origin: quad(basis.origin, zero),
            cam_lower_left: quad(basis.lower_left, zero),
            cam_horizontal: quad(basis.horizontal, zero),
            cam_vertical: quad(basis.vertical, zero),
            ..self
        }
    }
}

/// The host's half of the path tracer on the device.
pub struct GpuTracer {
    pub params: Params,
    pub width: usize,
    pub height: usize,
}

impl GpuTracer {
    pub fn new(
        scene: &Scene,
        camera: &Camera,
        width: usize,
        height: usize,
        illuminant: Illuminant,
        seed: u32,
    ) -> (r: Self)
        ensures
            r.width == width,
            r.height == height,
            r.params == r.params.seen_from(camera.basis()),
            r.params.width == width as u32,
            r.params.height == height as u32,
            r.params.spp == 0,
            r.params.seed == seed,
            r.params.n_primitives == scene.primitives@.len() as u32,
            r.params.illuminant == illuminant.code_spec(),
            r.params.background == scene.background,
            r.params.spectral == 1,
    {
        let zero: Scalar = Scalar { bits: 0 };
        let (o, ll, h, v) = camera.view_basis();
        let params: Params = Params {
            cam_origin: to_quad(o, zero),
            cam_lower_left: to_quad(ll, zero),
            cam_horizontal: to_quad(h, zero),
            cam_vertical: to_quad(v, zero),
            width: width as u32,
            height: height as u32,
            spp: 0,
            seed,
            n_primitives: scene.primitives.len() as u32,
            illuminant: illuminant.code(),
            background: scene.background,
            spectral: 1,
        };
        GpuTracer { params, width, height }
    }

    /// The bytes of the accumulation buffer: four numbers for each pixel.
    pub fn accum_bytes(&self) -> (r: u64)
        requires
            16 * (self.width * self.height) <= u64::MAX,
        ensures
            r == 16 * (self.width * self.height),
    {
        proof {
            vstd::arithmetic::mul::lemma_mul_nonnegative(self.width as int, self.height as int);
        }
        16 * (self.width as u64 * self.height as u64)
    }

    /// Sets the samples of the next run, and returns its groups.
    pub fn accumulate(&mut self, spp: u32) -> (r: (u32, u32))
        ensures
            final(self).params == (Params { spp, ..old(self).params }),
            final(self).width == old(self).width,
            final(self).height == old(self).height,
            r.0 == ceil_div(old(self).width as u32 as int, TILE as int),
            r.1 == ceil_div(old(self).height as u32 as int, TILE as int),
    {
        self.params.spp = spp;
        (groups(self.width as u32, TILE), groups(self.height as u32, TILE))
    }

    /// The image in the words of the accumulation buffer: for each pixel its
    /// sums over its sample count.
    pub fn read_xyz(&self, words: &Vec<u32>) -> (r: Vec<Xyz>)
        ensures
            r@ == Seq::new(
                (words@.len() / 4) as nat,
                |i: int|
                    averaged(
                        Scalar { bits: words@[4 * i] },
                        Scalar { bits: words@[4 * i + 1] },
                        Scalar { bits: words@[4 * i + 2] },
                        Scalar { bits: words@[4 * i + 3] },
                    ),
            ),
    {
        averages(words)
    }

    /// The width and the height.
    pub fn dims(&self) -> (r: (usize, usize))
        ensures
            r == (self.width, self.height),
    {
        (self.width, self.height)
    }

    /// Switches dispersion.
    pub fn set_spectral(&mut self, on: bool)
        ensures
            final(self).params == (Params {
                spectral: if on {
                    1u32
                } else {
                    0u32
                },
                ..old(self).params
            }),
            final(self).width == old(self).width,
            final(self).height == old(self).height,
    {
        self.params.spectral = if on {
            1
        } else {
            0
        };
    }

    /// Moves the camera.
    pub fn set_camera(&mut self, camera: &Camera)
        ensures
            final(self).params == old(self).params.seen_from(camera.basis()),
            final(self).width == old(self).width,
            final(self).height == old(self).height,
    {
        let zero: Scalar = Scalar { bits: 0 };
        let (o, ll, h, v) = camera.view_basis();
        self.params.cam_origin = to_quad(o, zero);
        self.params.cam_lower_left = to_quad(ll, zero);
        self.params.cam_horizontal = to_quad(h, zero);
        self.params.cam_vertical = to_quad(v, zero);
    }
}

} // verus!
