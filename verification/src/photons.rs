//! The forward photon film: what the host tells the photon program, and what
//! it makes of the films that come back.
use crate::camera::Camera;
use crate::camera::ViewBasis;
use crate::cie::Xyz;
use crate::film::blank_channels;
use crate::film::ceil_div;
use crate::film::channels;
use crate::film::composite;
use crate::film::composited;
use crate::film::dark_channels;
use crate::film::drained;
use crate::film::expose_peak;
use crate::film::filled_channels;
use crate::film::groups;
use crate::film::is_percentile_exposure;
use crate::film::is_rgb8;
use crate::film::luminances;
use crate::film::overwritten;
use crate::film::peak;
use crate::film::peak_exposure;
use crate::film::percentile_exposure;
use crate::film::resolve;
use crate::film::resolve_over;
use crate::film::to_rgb8;
use crate::film::GROUP_LANES;
use crate::lighttrace::Beam;
use crate::optics::HALF_BITS;
use crate::scalar::Scalar;
use crate::scalar::INFINITY_BITS;
use crate::scene::Scene;
use crate::sorting::orderable;
use crate::supplied::single_valued;
use crate::vector::length;
use crate::vector::unit;
use crate::vector::vector_difference;
use crate::vector::vector_scaled;
use crate::vector::Vector;
use crate::volume::phase;
use crate::volume::phase_hg;
use vstd::prelude::*;

verus! {

/// Encoding of 2^23, the fixed-point scale of the photon film. Weighted
/// deposits are of the order of 1e-6, and a smaller scale would lose them.
pub const PHOTON_SCALE_BITS: u32 = 0x4b00_0000;

/// The greatest number of photons of one dispatch.
pub const MAX_PER_DISPATCH: u32 = 4_000_000;

/// The greatest number of recorded states of a debug photon.
pub const DEBUG_MAX_PAIRS: usize = 9;

/// The photons that the debug buffer holds.
pub const DEBUG_CAPACITY: u32 = 2048;

/// The words of one debug record.
pub const DEBUG_WORDS: usize = 76;

/// The bytes of one debug record.
pub const DEBUG_BYTES: u64 = 304;

/// The side of a group of a program that runs over the image.
pub const TILE: u32 = 8;

/// Henyey-Greenstein phase function as the photon program computes it: the same
/// operations in the same order as on the host. `power` raises a number to the
/// power of 3 / 2.
pub fn phase_hg_wgsl_mirror<P: Fn(Scalar) -> Scalar>(
    g: Scalar,
    cos_theta: Scalar,
    power: &P,
) -> (r: Scalar)
    requires
        single_valued(*power),
    ensures
        r == phase(g, cos_theta, *power),
{
    phase_hg(g, cos_theta, power)
}

/// Four numbers, as the programs align them.
#[derive(Clone, Copy, Debug, PartialEq, Eq, Structural)]
pub struct Quad {
    pub x: Scalar,
    pub y: Scalar,
    pub z: Scalar,
    pub w: Scalar,
}

/// A vector with a fourth number after it.
pub open spec fn quad(v: Vector, w: Scalar) -> Quad {
    Quad { x: v.x, y: v.y, z: v.z, w }
}

pub fn to_quad(v: Vector, w: Scalar) -> (r: Quad)
    ensures
        r == quad(v, w),
{
    Quad { x: v.x, y: v.y, z: v.z, w }
}

impl Quad {
    pub open spec fn words(self) -> Seq<u32> {
        seq![self.x.bits, self.y.bits, self.z.bits, self.w.bits]
    }

    /// Appends the four words.
    pub fn push_words(&self, out: &mut Vec<u32>)
        ensures
            final(out)@ == old(out)@ + self.words(),
    {
        out.push(self.x.bits);
        out.push(self.y.bits);
        out.push(self.z.bits);
        out.push(self.w.bits);
        assert(out@ =~= old(out)@ + self.words());
    }
}

/// The camera as the photon program projects with it: the eye; the direction
/// and length of the horizontal and of the vertical edge; the backward axis.
pub struct Projection {
    pub cam_origin: Quad,
    pub cam_u: Quad,
    pub cam_v: Quad,
    pub cam_w: Quad,
}

/// The projection of a camera. A point is in front of it if its product with
/// the backward axis is negative.
pub open spec fn projection(basis: ViewBasis) -> Projection {
    let zero = Scalar { bits: 0 };
    let half = Scalar { bits: HALF_BITS };
    Projection {
        cam_origin: quad(basis.origin, zero),
        cam_u: quad(unit(basis.horizontal), length(basis.horizontal)),
        cam_v: quad(unit(basis.vertical), length(basis.vertical)),
        cam_w: quad(
            vector_difference(
                vector_difference(
                    vector_difference(basis.origin, vector_scaled(basis.horizontal, half)),
                    vector_scaled(basis.vertical, half),
                ),
                basis.lower_left,
            ),
            zero,
        ),
    }
}

/// The projection of a camera.
pub fn camera_proj_params(cam: &Camera) -> (r: (Quad, Quad, Quad, Quad))
    ensures
        r.0 == projection(cam.basis()).cam_origin,
        r.1 == projection(cam.basis()).cam_u,
        r.2 == projection(cam.basis()).cam_v,
        r.3 == projection(cam.basis()).cam_w,
{
    let zero: Scalar = Scalar { bits: 0 };
    let half: Scalar = Scalar { bits: HALF_BITS };
    let (origin, lower_left, horizontal, vertical) = cam.view_basis();
    let w: Vector = origin.minus(horizontal.times(half)).minus(vertical.times(half)).minus(
        lower_left,
    );
    (
        to_quad(origin, zero),
        to_quad(horizontal.normalize(), horizontal.length()),
        to_quad(vertical.normalize(), vertical.length()),
        to_quad(w, zero),
    )
}

/// The parameters of the photon program.
#[derive(Clone, Copy, Debug, PartialEq, Eq, Structural)]
pub struct VolParamsGpu {
    pub n_primitives: u32,
    pub n_photons: u32,
    pub seed: u32,
    pub max_dist: Scalar,
    pub width: u32,
    pub height: u32,
    /// 1 records the states of the first `debug_count` photons, 0 does not.
    pub debug_mode: u32,
    pub debug_count: u32,
    pub beam_corner: Quad,
    pub beam_u: Quad,
    pub beam_v: Quad,
    pub beam_dir: Quad,
    pub cam_origin: Quad,
    pub cam_u: Quad,
    pub cam_v: Quad,
    pub cam_w: Quad,
    pub sigma_s: Scalar,
    pub sigma_t: Scalar,
    pub g: Scalar,
    /// The first photon of the dispatch.
    pub photon_base: u32,
    /// 1 refracts every wavelength by its own index, 0 all by that of 550 nm.
    pub spectral: u32,
    pub pad2: u32,
    pub pad3: u32,
    pub pad4: u32,
}

impl VolParamsGpu {
    pub open spec fn words(self) -> Seq<u32> {
        seq![
            self.n_primitives,
            self.n_photons,
            self.seed,
            self.max_dist.bits,
            self.width,
            self.height,
            self.debug_mode,
            self.debug_count,
        ] + self.beam_corner.words() + self.beam_u.words() + self.beam_v.words()
            + self.beam_dir.words() + self.cam_origin.words() + self.cam_u.words()
            + self.cam_v.words() + self.cam_w.words() + seq![
            self.sigma_s.bits,
            self.sigma_t.bits,
            self.g.bits,
            self.photon_base,
            self.spectral,
            self.pad2,
            self.pad3,
            self.pad4,
        ]
    }

    /// The words of the uniform buffer.
    pub fn to_words(&self) -> (r: Vec<u32>)
        ensures
            r@ == self.words(),
            r@.len() == 48,
    {
        let mut out: Vec<u32> = vec![
            self.n_primitives,
            self.n_photons,
            self.seed,
            self.max_dist.bits,
            self.width,
            self.height,
            self.debug_mode,
            self.debug_count,
        ];
        self.beam_corner.push_words(&mut out);
        self.beam_u.push_words(&mut out);
        self.beam_v.push_words(&mut out);
        self.beam_dir.push_words(&mut out);
        self.cam_origin.push_words(&mut out);
        self.cam_u.push_words(&mut out);
        self.cam_v.push_words(&mut out);
        self.cam_w.push_words(&mut out);
        let ghost before = out@;
        out.push(self.sigma_s.bits);
        out.push(self.sigma_t.bits);
        out.push(self.g.bits);
        out.push(self.photon_base);
        out.push(self.spectral);
        out.push(self.pad2);
        out.push(self.pad3);
        out.push(self.pad4);
        assert(out@ =~= before + seq![
            self.sigma_s.bits,
            self.sigma_t.bits,
            self.g.bits,
            self.photon_base,
            self.spectral,
            self.pad2,
            self.pad3,
            self.pad4,
        ]);
        out
    }
}

/// The scattering of the haze.
#[derive(Clone, Copy, Debug, PartialEq, Eq, Structural)]
pub struct VolWeights {
    pub sigma_s: Scalar,
    pub sigma_t: Scalar,
    pub g: Scalar,
}

/// Encoding of 0.06.
pub const EXTINCTION_BITS: u32 = 0x3d75_c28f;

impl Default for VolWeights {
    /// The haze of the prism picture: 0.5, 0.06 and 0.5.
    fn default() -> (r: Self)
        ensures
            r == (VolWeights {
                sigma_s: Scalar { bits: HALF_BITS },
                sigma_t: Scalar { bits: EXTINCTION_BITS },
                g: Scalar { bits: HALF_BITS },
            }),
    {
        VolWeights {
            sigma_s: Scalar { bits: HALF_BITS },
            sigma_t: Scalar { bits: EXTINCTION_BITS },
            g: Scalar { bits: HALF_BITS },
        }
    }
}

/// What a photon film is made for.
#[derive(Clone, Copy)]
pub struct PhotonSetup {
    pub n_primitives: u32,
    pub beam: Beam,
    pub width: u32,
    pub height: u32,
    pub n_photons: u32,
    pub seed: u32,
    pub max_dist: Scalar,
    pub weights: VolWeights,
}

/// The parameters that a film starts with: no debugging, from the first
/// photon, with dispersion.
pub open spec fn starting_params(setup: PhotonSetup, camera: ViewBasis) -> VolParamsGpu {
    let zero = Scalar { bits: 0 };
    let p = projection(camera);
    VolParamsGpu {
        n_primitives: setup.n_primitives,
        n_photons: setup.n_photons,
        seed: setup.seed,
        max_dist: setup.max_dist,
        width: setup.width,
        height: setup.height,
        debug_mode: 0,
        debug_count: 0,
        beam_corner: quad(setup.beam.corner, zero),
        beam_u: quad(setup.beam.u, zero),
        beam_v: quad(setup.beam.v, zero),
        beam_dir: quad(setup.beam.dir, zero),
        cam_origin: p.cam_origin,
        cam_u: p.cam_u,
        cam_v: p.cam_v,
        cam_w: p.cam_w,
        sigma_s: setup.weights.sigma_s,
        sigma_t: setup.weights.sigma_t,
        g: setup.weights.g,
        photon_base: 0,
        spectral: 1,
        pad2: 0,
        pad3: 0,
        pad4: 0,
    }
}

fn params_of(setup: PhotonSetup, camera: &Camera) -> (r: VolParamsGpu)
    ensures
        r == starting_params(setup, camera.basis()),
{
    let zero: Scalar = Scalar { bits: 0 };
    let (cam_origin, cam_u, cam_v, cam_w) = camera_proj_params(camera);
    VolParamsGpu {
        n_primitives: setup.n_primitives,
        n_photons: setup.n_photons,
        seed: setup.seed,
        max_dist: setup.max_dist,
        width: setup.width,
        height: setup.height,
        debug_mode: 0,
        debug_count: 0,
        beam_corner: to_quad(setup.beam.corner, zero),
        beam_u: to_quad(setup.beam.u, zero),
        beam_v: to_quad(setup.beam.v, zero),
        beam_dir: to_quad(setup.beam.dir, zero),
        cam_origin,
        cam_u,
        cam_v,
        cam_w,
        sigma_s: setup.weights.sigma_s,
        sigma_t: setup.weights.sigma_t,
        g: setup.weights.g,
        photon_base: 0,
        spectral: 1,
        pad2: 0,
        pad3: 0,
        pad4: 0,
    }
}

/// The depths that occlude the haze: those given, or none at any pixel.
pub fn depth_buffer(zbuffer: Option<&Vec<Scalar>>, n: usize) -> (r: Vec<Scalar>)
    requires
        zbuffer matches Some(z) ==> z@.len() == n,
    ensures
        r@ == match zbuffer {
            Some(z) => z@,
            None => Seq::new(n as nat, |i: int| Scalar { bits: INFINITY_BITS }),
        },
{
    match zbuffer {
        Some(z) => {
            let mut out: Vec<Scalar> = Vec::new();
            let mut k: usize = 0;
            while k < z.len()
                invariant
                    k <= z@.len(),
                    out@ == z@.take(k as int),
                decreases z@.len() - k,
            {
                out.push(z[k]);
                k = k + 1;
                assert(out@ =~= z@.take(k as int));
            }
            assert(out@ =~= z@);
            out
        },
        None => filled_channels(n, Scalar { bits: INFINITY_BITS }),
    }
}

/// The photons of the dispatch that starts at `base`.
pub open spec fn chunk_size(base: int, total: int) -> int {
    if total - base < MAX_PER_DISPATCH {
        total - base
    } else {
        MAX_PER_DISPATCH as int
    }
}

/// The parameters of a dispatch of the photons from `base` on.
pub open spec fn chunk_params(p: VolParamsGpu, base: u32, total: u32, seed: u32) -> VolParamsGpu {
    VolParamsGpu {
        n_photons: total,
        seed,
        debug_mode: 0,
        debug_count: 0,
        photon_base: base,
        ..p
    }
}

/// A debug run: the photons recorded, the groups, and the bytes to read back.
#[derive(Clone, Copy, Debug, PartialEq, Eq, Structural)]
pub struct DebugRun {
    pub count: u32,
    pub groups: u32,
    pub bytes: u64,
}

/// The photons that a debug run records: those asked for, as far as the buffer
/// holds them and the run has them.
pub open spec fn debug_photons(asked: u32, n_photons: u32) -> u32 {
    let held = if asked < DEBUG_CAPACITY {
        asked
    } else {
        DEBUG_CAPACITY
    };
    if held < n_photons {
        held
    } else {
        n_photons
    }
}

/// The host's half of the forward photon film: the parameters on the device,
/// the accumulated haze, and the static surface shown with it.
pub struct GpuPhotonFilm {
    pub params: VolParamsGpu,
    pub accum: Vec<Scalar>,
    pub surface: Vec<Scalar>,
    pub width: usize,
    pub height: usize,
}

impl GpuPhotonFilm {
    pub open spec fn valid(self) -> bool {
        &&& self.accum@.len() == channels(self.width as int, self.height as int)
        &&& self.surface@.len() == self.accum@.len()
        &&& 4 * self.accum@.len() <= usize::MAX
    }

    /// The displayed pixels.
    pub open spec fn image(self) -> Seq<Xyz> {
        Seq::new(
            (self.width * self.height) as nat,
            |i: int| composited(self.accum@, self.surface@, i),
        )
    }

    /// The luminances of the displayed pixels.
    pub open spec fn brightness(self) -> Seq<Scalar> {
        self.image().map_values(|p: Xyz| p.y)
    }

    /// All but the parameters are those of another film.
    pub open spec fn same_light(self, other: GpuPhotonFilm) -> bool {
        &&& self.accum@ == other.accum@
        &&& self.surface@ == other.surface@
        &&& self.width == other.width
        &&& self.height == other.height
    }

    /// A film without light.
    pub fn new(
        scene: &Scene,
        camera: &Camera,
        beam: &Beam,
        width: usize,
        height: usize,
        n_photons: u32,
        seed: u32,
        max_dist: Scalar,
        weights: VolWeights,
    ) -> (r: Self)
        requires
            4 * channels(width as int, height as int) <= usize::MAX,
        ensures
            r.valid(),
            r.width == width,
            r.height == height,
            r.accum@ == dark_channels(channels(width as int, height as int) as nat),
            r.surface@ == r.accum@,
            r.params == starting_params(
                (PhotonSetup {
                    n_primitives: scene.primitives@.len() as u32,
                    beam: *beam,
                    width: width as u32,
                    height: height as u32,
                    n_photons,
                    seed,
                    max_dist,
                    weights,
                }),
                camera.basis(),
            ),
    {
        let setup: PhotonSetup = PhotonSetup {
            n_primitives: scene.primitives.len() as u32,
            beam: *beam,
            width: width as u32,
            height: height as u32,
            n_photons,
            seed,
            max_dist,
            weights,
        };
        proof {
            vstd::arithmetic::mul::lemma_mul_nonnegative(width as int, height as int);
        }
        let n: usize = width * height;
        GpuPhotonFilm {
            params: params_of(setup, camera),
            accum: blank_channels(3 * n),
            surface: blank_channels(3 * n),
            width,
            height,
        }
    }

    /// The bytes of the film on the device: one word for each channel.
    pub fn film_bytes(&self) -> (r: u64)
        requires
            self.valid(),
        ensures
            r == 4 * channels(self.width as int, self.height as int),
    {
        4 * self.accum.len() as u64
    }

    /// Sets the parameters for the photons from `photon_base` on, at most
    /// `MAX_PER_DISPATCH` of them, and returns the groups that it takes.
    pub fn dispatch_photons(&mut self, photon_base: u32, n_photons: u32, seed: u32) -> (r: u32)
        requires
            photon_base <= n_photons,
        ensures
            final(self).same_light(*old(self)),
            final(self).params == chunk_params(old(self).params, photon_base, n_photons, seed),
            r == ceil_div(chunk_size(photon_base as int, n_photons as int), GROUP_LANES as int),
    {
        self.params.n_photons = n_photons;
        self.params.seed = seed;
        self.params.debug_mode = 0;
        self.params.debug_count = 0;
        self.params.photon_base = photon_base;
        let rest: u32 = n_photons - photon_base;
        let count: u32 = if rest < MAX_PER_DISPATCH {
            rest
        } else {
            MAX_PER_DISPATCH
        };
        groups(count, GROUP_LANES)
    }

    /// Switches dispersion.
    pub fn set_spectral(&mut self, on: bool)
        ensures
            final(self).same_light(*old(self)),
            final(self).params == (VolParamsGpu {
                spectral: if on {
                    1u32
                } else {
                    0u32
                },
                ..old(self).params
            }),
            final(self).dispersing() == on,
    {
        self.params.spectral = if on {
            1
        } else {
            0
        };
    }

    pub open spec fn dispersing(self) -> bool {
        self.params.spectral == 1
    }

    /// Whether dispersion is on.
    pub fn spectral(&self) -> (r: bool)
        ensures
            r == self.dispersing(),
    {
        self.params.spectral == 1
    }

    /// Adds a read film to the accumulated haze.
    pub fn resolve(&mut self, raw: &Vec<u32>)
        requires
            old(self).valid(),
            raw@.len() <= old(self).accum@.len(),
        ensures
            final(self).valid(),
            final(self).params == old(self).params,
            final(self).surface@ == old(self).surface@,
            final(self).width == old(self).width,
            final(self).height == old(self).height,
            final(self).accum@ == drained(
                old(self).accum@,
                raw@,
                Scalar { bits: PHOTON_SCALE_BITS },
            ),
    {
        resolve(&mut self.accum, raw, Scalar { bits: PHOTON_SCALE_BITS });
    }

    /// Aims the surface program with a camera, and returns the groups of its
    /// run over the image.
    pub fn recompute_surface(&mut self, camera: &Camera) -> (r: (u32, u32))
        ensures
            final(self).same_light(*old(self)),
            final(self).params == (VolParamsGpu {
                cam_origin: projection(camera.basis()).cam_origin,
                cam_u: projection(camera.basis()).cam_u,
                cam_v: projection(camera.basis()).cam_v,
                cam_w: projection(camera.basis()).cam_w,
                ..old(self).params
            }),
            r.0 == ceil_div(old(self).width as u32 as int, TILE as int),
            r.1 == ceil_div(old(self).height as u32 as int, TILE as int),
    {
        let (cam_origin, cam_u, cam_v, cam_w) = camera_proj_params(camera);
        self.params.cam_origin = cam_origin;
        self.params.cam_u = cam_u;
        self.params.cam_v = cam_v;
        self.params.cam_w = cam_w;
        (groups(self.width as u32, TILE), groups(self.height as u32, TILE))
    }

    /// Overwrites the surface with a read film; the haze stays.
    pub fn resolve_surface(&mut self, raw: &Vec<u32>)
        requires
            old(self).valid(),
            raw@.len() <= old(self).surface@.len(),
        ensures
            final(self).valid(),
            final(self).params == old(self).params,
            final(self).accum@ == old(self).accum@,
            final(self).width == old(self).width,
            final(self).height == old(self).height,
            final(self).surface@ == overwritten(
                old(self).surface@,
                raw@,
                Scalar { bits: PHOTON_SCALE_BITS },
            ),
    {
        resolve_over(&mut self.surface, raw, Scalar { bits: PHOTON_SCALE_BITS });
    }

    /// Sets the parameters for a run that records the first photons.
    pub fn trace_debug(&mut self, n_photons: u32, seed: u32, debug_count: u32) -> (r: DebugRun)
        ensures
            final(self).same_light(*old(self)),
            final(self).params == (VolParamsGpu {
                n_photons,
                seed,
                debug_mode: 1,
                debug_count: debug_photons(debug_count, n_photons),
                photon_base: 0,
                ..old(self).params
            }),
            r == (DebugRun {
                count: debug_photons(debug_count, n_photons),
                groups: ceil_div(n_photons as int, GROUP_LANES as int) as u32,
                bytes: (DEBUG_BYTES * debug_photons(debug_count, n_photons)) as u64,
            }),
    {
        let held: u32 = if debug_count < DEBUG_CAPACITY {
            debug_count
        } else {
            DEBUG_CAPACITY
        };
        let count: u32 = if held < n_photons {
            held
        } else {
            n_photons
        };
        self.params.n_photons = n_photons;
        self.params.seed = seed;
        self.params.debug_mode = 1;
        self.params.debug_count = count;
        self.params.photon_base = 0;
        DebugRun {
            count,
            groups: groups(n_photons, GROUP_LANES),
            bytes: DEBUG_BYTES * count as u64,
        }
    }

    /// Ends a debug run: later runs record nothing.
    pub fn end_debug(&mut self)
        ensures
            final(self).same_light(*old(self)),
            final(self).params == (VolParamsGpu {
                debug_mode: 0,
                debug_count: 0,
                ..old(self).params
            }),
    {
        self.params.debug_mode = 0;
        self.params.debug_count = 0;
    }

    /// The accumulated haze.
    pub fn accum(&self) -> (r: &Vec<Scalar>)
        ensures
            r@ == self.accum@,
    {
        &self.accum
    }

    /// The static surface.
    pub fn surface(&self) -> (r: &Vec<Scalar>)
        ensures
            r@ == self.surface@,
    {
        &self.surface
    }

    fn pixels(&self) -> (r: Vec<Xyz>)
        requires
            self.valid(),
        ensures
            r@ == self.image(),
    {
        proof {
            vstd::arithmetic::mul::lemma_mul_nonnegative(self.width as int, self.height as int);
        }
        composite(&self.accum, &self.surface, self.width * self.height)
    }

    /// The exposure for the brightest displayed pixel: `scale` over its
    /// luminance, and never below one.
    pub fn auto_expose(&self, scale: Scalar) -> (r: Scalar)
        requires
            self.valid(),
        ensures
            r == peak_exposure(peak(self.brightness()), scale),
    {
        let pixels: Vec<Xyz> = self.pixels();
        let lums: Vec<Scalar> = luminances(&pixels);
        expose_peak(&lums, scale)
    }

    /// The exposure for the 99.7th percentile of the displayed luminances.
    /// `None` if there are several and one of them is not a number.
    pub fn auto_expose_p997(&self) -> (r: Option<Scalar>)
        requires
            self.valid(),
            self.accum@.len() > 0,
        ensures
            r is Some <==> orderable(self.brightness()),
            r matches Some(exposure) ==> is_percentile_exposure(self.brightness(), exposure),
    {
        let pixels: Vec<Xyz> = self.pixels();
        let lums: Vec<Scalar> = luminances(&pixels);
        assert(lums@ == self.brightness());
        percentile_exposure(&lums)
    }

    /// The displayed image in bytes, three for each pixel. `root` raises a
    /// number to the power of 1 / 2.4.
    pub fn to_rgb8<F: Fn(Scalar) -> Scalar>(&self, exposure: Scalar, root: &F) -> (r: Vec<u8>)
        requires
            self.valid(),
            single_valued(*root),
        ensures
            is_rgb8(r@, self.image(), exposure, *root),
    {
        let pixels: Vec<Xyz> = self.pixels();
        to_rgb8(&pixels, exposure, root)
    }
}

/// The first photon of every dispatch of a run of `total` photons.
pub open spec fn chunk_bases(total: int) -> Seq<u32> {
    Seq::new(
        ceil_div(total, MAX_PER_DISPATCH as int) as nat,
        |i: int| (i * MAX_PER_DISPATCH) as u32,
    )
}

impl GpuPhotonFilm {
    /// The dispatches of a run of many photons, by their first photon: each takes
    /// at most `MAX_PER_DISPATCH`.
    pub fn trace_chunked(total_photons: u32) -> (r: Vec<u32>)
        ensures
            r@ == chunk_bases(total_photons as int),
    {
        let mut out: Vec<u32> = Vec::new();
        let mut base: u32 = 0;
        while base < total_photons
            invariant
                base <= total_photons,
                base < total_photons ==> base == out@.len() * MAX_PER_DISPATCH,
                base == total_photons ==> out@.len() == ceil_div(
                    total_photons as int,
                    MAX_PER_DISPATCH as int,
                ),
                forall|i: int|
                    0 <= i < out@.len() ==> (#[trigger] out@[i]) == (i * MAX_PER_DISPATCH) as u32 && i
                        * MAX_PER_DISPATCH < total_photons,
            decreases total_photons - base,
        {
            let rest: u32 = total_photons - base;
            let this: u32 = if rest < MAX_PER_DISPATCH {
                rest
            } else {
                MAX_PER_DISPATCH
            };
            out.push(base);
            base = base + this;
        }
        assert(out@ =~= chunk_bases(total_photons as int));
        out
    }
}

/// A lane of a dispatch runs photon `base + lane`, if that is below the total.
pub open spec fn runs(base: u32, total: u32, photon: int) -> bool {
    base <= photon < base + GROUP_LANES * ceil_div(
        chunk_size(base as int, total as int),
        GROUP_LANES as int,
    ) && photon < total
}

/// The dispatches of a run take every photon once: exactly one of them runs
/// it. None has more groups than a device dispatches in one dimension.
pub proof fn lemma_chunks_cover(total: u32, photon: int)
    requires
        0 <= photon < total,
    ensures
        0 <= photon / (MAX_PER_DISPATCH as int) < chunk_bases(total as int).len(),
        forall|i: int|
            0 <= i < chunk_bases(total as int).len() ==> (#[trigger] runs(
                chunk_bases(total as int)[i],
                total,
                photon,
            ) <==> i == photon / (MAX_PER_DISPATCH as int)),
        forall|i: int|
            0 <= i < chunk_bases(total as int).len() ==> ceil_div(
                chunk_size(#[trigger] chunk_bases(total as int)[i] as int, total as int),
                GROUP_LANES as int,
            ) <= 65535,
{
}

/// The record of a debug photon: the number of its states, one more than its
/// scatters; its wavelength; and origin and direction of up to nine states, in
/// turn.
#[derive(Clone, Copy, Debug)]
pub struct DebugPhotonGpu {
    pub num_states: u32,
    pub lambda: Scalar,
    pub pad0: u32,
    pub pad1: u32,
    pub states: [Quad; 18],
}

impl DebugPhotonGpu {
    /// Word `k` of the record.
    pub open spec fn word(self, k: int) -> u32 {
        if k == 0 {
            self.num_states
        } else if k == 1 {
            self.lambda.bits
        } else if k == 2 {
            self.pad0
        } else if k == 3 {
            self.pad1
        } else {
            self.states@[(k - 4) / 4].words()[(k - 4) % 4]
        }
    }

    pub open spec fn words(self) -> Seq<u32> {
        Seq::new(DEBUG_WORDS as nat, |k: int| self.word(k))
    }
}

fn quad_at(words: &Vec<u32>, at: usize) -> (r: Quad)
    requires
        at + 4 <= words@.len(),
    ensures
        r.words() == words@.subrange(at as int, at + 4),
{
    let total: usize = words.len();
    let q: Quad = Quad {
        x: Scalar { bits: words[at] },
        y: Scalar { bits: words[at + 1] },
        z: Scalar { bits: words[at + 2] },
        w: Scalar { bits: words[at + 3] },
    };
    assert(q.words() =~= words@.subrange(at as int, at + 4));
    q
}

fn debug_photon_at(words: &Vec<u32>, at: usize) -> (r: DebugPhotonGpu)
    requires
        at + DEBUG_WORDS <= words@.len(),
    ensures
        r.words() == words@.subrange(at as int, at + DEBUG_WORDS),
{
    let total: usize = words.len();
    let r: DebugPhotonGpu = DebugPhotonGpu {
        num_states: words[at],
        lambda: Scalar { bits: words[at + 1] },
        pad0: words[at + 2],
        pad1: words[at + 3],
        states: [
            quad_at(words, at + 4),
            quad_at(words, at + 8),
            quad_at(words, at + 12),
            quad_at(words, at + 16),
            quad_at(words, at + 20),
            quad_at(words, at + 24),
            quad_at(words, at + 28),
            quad_at(words, at + 32),
            quad_at(words, at + 36),
            quad_at(words, at + 40),
            quad_at(words, at + 44),
            quad_at(words, at + 48),
            quad_at(words, at + 52),
            quad_at(words, at + 56),
            quad_at(words, at + 60),
            quad_at(words, at + 64),
            quad_at(words, at + 68),
            quad_at(words, at + 72),
        ],
    };
    proof {
        assert forall|i: int| 0 <= i < 18 implies (#[trigger] r.states@[i]).words()
            == words@.subrange(at + 4 + 4 * i, at + 8 + 4 * i) by {}
        assert forall|k: int| 0 <= k < DEBUG_WORDS implies r.word(k) == words@[at + k] by {
            if k >= 4 {
                let i: int = (k - 4) / 4;
                assert(r.states@[i].words()[(k - 4) % 4] == words@.subrange(
                    at + 4 + 4 * i,
                    at + 8 + 4 * i,
                )[(k - 4) % 4]);
            }
        }
        assert(r.words() =~= words@.subrange(at as int, at + DEBUG_WORDS));
    }
    r
}

/// The records in the words of a debug buffer.
pub fn read_debug(words: &Vec<u32>) -> (r: Vec<DebugPhotonGpu>)
    requires
        words@.len() % (DEBUG_WORDS as nat) == 0,
    ensures
        r@.len() == words@.len() / (DEBUG_WORDS as nat),
        forall|i: int|
            0 <= i < r@.len() ==> (#[trigger] r@[i]).words() == words@.subrange(
                DEBUG_WORDS * i,
                DEBUG_WORDS * i + DEBUG_WORDS,
            ),
{
    let total: usize = words.len();
    let n: usize = total / DEBUG_WORDS;
    let mut out: Vec<DebugPhotonGpu> = Vec::new();
    let mut k: usize = 0;
    while k < n
        invariant
            k <= n,
            n == total / DEBUG_WORDS,
            total == words@.len(),
            out@.len() == k,
            forall|i: int|
                0 <= i < k ==> (#[trigger] out@[i]).words() == words@.subrange(
                    DEBUG_WORDS * i,
                    DEBUG_WORDS * i + DEBUG_WORDS,
                ),
        decreases n - k,
    {
        out.push(debug_photon_at(words, DEBUG_WORDS * k));
        k = k + 1;
    }
    out
}

} // verus!
