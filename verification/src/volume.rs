//! Volumetric forward light tracing: photons scatter once off a uniform haze,
//! and what is scattered toward the camera is splatted, so that the beam and
//! its dispersed fan show in the air.
use crate::accum::blank_image;
use crate::accum::dark_image;
use crate::arith::absolute;
use crate::arith::from_u64;
use crate::arith::integral;
use crate::arith::lemma_integral_exact;
use crate::arith::nearest;
use crate::camera::Camera;
use crate::camera::Projector;
use crate::camera::ViewBasis;
use crate::cie::Sensor;
use crate::cie::Xyz;
use crate::convert::one;
use crate::error::lemma_nearest_between;
use crate::error::lemma_nearest_error;
use crate::geom::point_at;
use crate::geom::Hit;
use crate::geom::Ray;
use crate::geom::PARALLEL_BITS;
use crate::geom::TWO_BITS;
use crate::haze::is_unlit;
use crate::haze::lemma_clear_haze;
use crate::lighttrace::emission;
use crate::lighttrace::emit;
use crate::lighttrace::pixel_at;
use crate::lighttrace::pixel_index;
use crate::lighttrace::scatter_photon;
use crate::lighttrace::scattered_on;
use crate::lighttrace::splatted;
use crate::lighttrace::Beam;
use crate::lighttrace::PhotonState;
use crate::lighttrace::MAX_SEGMENTS;
use crate::material::Material;
use crate::optics::HALF_BITS;
use crate::rng::advanced;
use crate::rng::lemma_advanced_adds;
use crate::rng::pcg;
use crate::rng::unit_draw;
use crate::rng::PathRng;
use crate::scalar::lemma_magnitude_increases;
use crate::scalar::lemma_magnitude_sign;
use crate::scalar::magnitude;
use crate::scalar::Scalar;
use crate::scalar::ONE_BITS;
use crate::scene::Scene;
use crate::scene::NEAREST_BITS;
use crate::splat::ceiling;
use crate::splat::splat_transverse;
use crate::splat::transverse_splat;
use crate::supplied::evaluate;
use crate::supplied::result;
use crate::supplied::single_valued;
use crate::vector::cross;
use crate::vector::dot;
use crate::vector::length;
use crate::vector::unit;
use crate::vector::vector_difference;
use crate::vector::vector_quotient;
use crate::vector::vector_scaled;
use crate::vector::vector_sum;
use crate::vector::Vector;
use vstd::arithmetic::power2::lemma_pow2_pos;
use vstd::prelude::*;

verus! {

/// Scatter points sampled along a segment.
pub const SEG_SAMPLES: u32 = 4;

/// Encoding of that number.
pub const SEG_SAMPLES_BITS: u32 = 0x4080_0000;

/// Encoding of `4 pi`.
pub const FOUR_PI_BITS: u32 = 0x4149_0fdb;

/// Encoding of `1 / (4 pi)`, the isotropic phase function.
pub const INV_4PI_BITS: u32 = 0x3da2_f983;

/// Adds what a photon leaves on one segment of its way, of the given length and
/// color, to an image. The second result is the counter of the photon's stream
/// afterwards.
pub type Deposit = spec_fn(PhotonState, Xyz, Scalar, Seq<Xyz>) -> (Seq<Xyz>, u32);

/// The length of a segment: to the surface that ends it, or `max_dist` for one
/// that escapes.
pub open spec fn segment_length(hit: Option<(Hit, Material)>, max_dist: Scalar) -> Scalar {
    match hit {
        Some((h, _)) => h.t,
        None => max_dist,
    }
}

/// The image after a photon has gone at most `segments` more segments through
/// the haze.
#[verifier::opaque]
pub open spec fn hazed<F: Fn(Scalar) -> (Scalar, Scalar)>(
    scene: Scene,
    max_dist: Scalar,
    deposit: Deposit,
    photon: PhotonState,
    lambda: Scalar,
    color: Xyz,
    image: Seq<Xyz>,
    turn: F,
    segments: nat,
) -> Seq<Xyz>
    decreases segments,
{
    if segments == 0 {
        image
    } else {
        let hit = scene.hit(photon.ray);
        let (left, counter) = deposit(photon, color, segment_length(hit, max_dist), image);
        match hit {
            None => left,
            Some((h, m)) => hazed(
                scene,
                max_dist,
                deposit,
                scattered_on(PhotonState { counter, ..photon }, h, m, lambda, turn),
                lambda,
                color,
                left,
                turn,
                (segments - 1) as nat,
            ),
        }
    }
}

/// The image after `n` photons of a beam from photon `first` on have been added
/// to it.
pub open spec fn haze_on<F: Fn(Scalar) -> (Scalar, Scalar)>(
    scene: Scene,
    sensor: Sensor,
    beam: Beam,
    max_dist: Scalar,
    deposit: Deposit,
    image: Seq<Xyz>,
    first: int,
    n: nat,
    seed: u32,
    turn: F,
) -> Seq<Xyz>
    decreases n,
{
    if n == 0 {
        image
    } else {
        let e = emission(beam, (first + n - 1) as u32, seed);
        hazed(
            scene,
            max_dist,
            deposit,
            PhotonState { ray: e.ray, counter: e.counter, power: Scalar { bits: ONE_BITS } },
            e.lambda,
            sensor.matching(e.lambda),
            haze_on(
                scene,
                sensor,
                beam,
                max_dist,
                deposit,
                image,
                first,
                (n - 1) as nat,
                seed,
                turn,
            ),
            turn,
            MAX_SEGMENTS as nat,
        )
    }
}

/// The image of the first `n` photons of a beam.
pub open spec fn haze_image<F: Fn(Scalar) -> (Scalar, Scalar)>(
    scene: Scene,
    sensor: Sensor,
    beam: Beam,
    max_dist: Scalar,
    deposit: Deposit,
    pixels: nat,
    n: nat,
    seed: u32,
    turn: F,
) -> Seq<Xyz> {
    haze_on(scene, sensor, beam, max_dist, deposit, dark_image(pixels), 0, n, seed, turn)
}

/// Photons may be added in batches: one batch after the other leaves the image
/// that all of them leave at once.
pub proof fn lemma_batches<F: Fn(Scalar) -> (Scalar, Scalar)>(
    scene: Scene,
    sensor: Sensor,
    beam: Beam,
    max_dist: Scalar,
    deposit: Deposit,
    image: Seq<Xyz>,
    first: int,
    a: nat,
    b: nat,
    seed: u32,
    turn: F,
)
    ensures
        haze_on(scene, sensor, beam, max_dist, deposit, image, first, a + b, seed, turn)
            == haze_on(
            scene,
            sensor,
            beam,
            max_dist,
            deposit,
            haze_on(scene, sensor, beam, max_dist, deposit, image, first, a, seed, turn),
            first + a,
            b,
            seed,
            turn,
        ),
    decreases b,
{
    if b > 0 {
        lemma_batches(
            scene,
            sensor,
            beam,
            max_dist,
            deposit,
            image,
            first,
            a,
            (b - 1) as nat,
            seed,
            turn,
        );
        assert((a + b - 1) as nat == a + (b - 1) as nat);
        assert(first + (a + b) - 1 == (first + a) + b - 1);
    }
}

/// The point of a segment chosen by a draw.
pub open spec fn drawn_point(ray: Ray, seg_len: Scalar, draw: u32) -> Vector {
    point_at(ray, unit_draw(draw).product(seg_len))
}

/// What one isotropic scatter point contributes: the in-scatter estimate
/// `power * sigma_s * seg_len / samples * phase`.
pub open spec fn isotropic_weight(power: Scalar, sigma_s: Scalar, seg_len: Scalar) -> Scalar {
    power.product(sigma_s).product(seg_len).quotient(Scalar { bits: SEG_SAMPLES_BITS }).product(
        Scalar { bits: INV_4PI_BITS },
    )
}

/// The image after `n` scatter points of a segment in an isotropic haze.
pub open spec fn isotropic_points(
    view: ViewBasis,
    width: int,
    height: int,
    sigma_s: Scalar,
    photon: PhotonState,
    color: Xyz,
    seg_len: Scalar,
    image: Seq<Xyz>,
    n: nat,
) -> Seq<Xyz>
    decreases n,
{
    if n == 0 {
        image
    } else {
        let before = isotropic_points(
            view,
            width,
            height,
            sigma_s,
            photon,
            color,
            seg_len,
            image,
            (n - 1) as nat,
        );
        let p = drawn_point(photon.ray, seg_len, pcg(advanced(photon.counter, n)));
        match view.projected(p) {
            None => before,
            Some((s, t, _)) => splatted(
                before,
                pixel_at(s, t, width, height),
                color.weighted(isotropic_weight(photon.power, sigma_s, seg_len)),
            ),
        }
    }
}

/// A segment in an isotropic haze: four scatter points, a draw for each.
pub open spec fn isotropic_deposit(
    view: ViewBasis,
    width: int,
    height: int,
    sigma_s: Scalar,
) -> Deposit {
    |photon: PhotonState, color: Xyz, seg_len: Scalar, image: Seq<Xyz>|
        (
            isotropic_points(
                view,
                width,
                height,
                sigma_s,
                photon,
                color,
                seg_len,
                image,
                SEG_SAMPLES as nat,
            ),
            advanced(photon.counter, SEG_SAMPLES as nat),
        )
}

fn deposit_isotropic(
    camera: &Camera,
    width: usize,
    height: usize,
    sigma_s: Scalar,
    ray: &Ray,
    power: Scalar,
    color: Xyz,
    seg_len: Scalar,
    image: &mut Vec<Xyz>,
    rng: &mut PathRng,
)
    requires
        width > 0,
        height > 0,
        width * height <= usize::MAX,
        old(image)@.len() == width * height,
    ensures
        final(image)@.len() == old(image)@.len(),
        (final(image)@, final(rng).counter()) == isotropic_deposit(
            camera.basis(),
            width as int,
            height as int,
            sigma_s,
        )(
            PhotonState { ray: *ray, counter: old(rng).counter(), power },
            color,
            seg_len,
            old(image)@,
        ),
{
    let ghost photon = PhotonState { ray: *ray, counter: old(rng).counter(), power };
    let mut k: u32 = 0;
    proof {
        assert(advanced(photon.counter, 0) == photon.counter);
    }
    while k < SEG_SAMPLES
        invariant
            k <= SEG_SAMPLES,
            width > 0,
            height > 0,
            width * height <= usize::MAX,
            image@.len() == width * height,
            photon == (PhotonState { ray: *ray, counter: old(rng).counter(), power }),
            rng.counter() == advanced(photon.counter, k as nat),
            image@ == isotropic_points(
                camera.basis(),
                width as int,
                height as int,
                sigma_s,
                photon,
                color,
                seg_len,
                old(image)@,
                k as nat,
            ),
        decreases SEG_SAMPLES - k,
    {
        proof {
            lemma_advanced_adds(photon.counter, k as nat, 1);
        }
        let dist: Scalar = rng.next_f32().times(seg_len);
        let p: Vector = ray.origin.plus(ray.dir.times(dist));
        match camera.project(p) {
            Some((s, t, _depth)) => {
                let i: usize = pixel_index(s, t, width, height);
                let weight: Scalar = power.times(sigma_s).times(seg_len).over(
                    Scalar { bits: SEG_SAMPLES_BITS },
                ).times(Scalar { bits: INV_4PI_BITS });
                let value: Xyz = image[i].plus(color.times(weight));
                image[i] = value;
            },
            None => {},
        }
        k = k + 1;
    }
}

/// Follows a photon through an isotropic haze.
fn haze_isotropic<F: Fn(Scalar) -> (Scalar, Scalar)>(
    scene: &Scene,
    camera: &Camera,
    width: usize,
    height: usize,
    sigma_s: Scalar,
    max_dist: Scalar,
    ray: Ray,
    power: Scalar,
    lambda: Scalar,
    color: Xyz,
    image: &mut Vec<Xyz>,
    rng: &mut PathRng,
    turn: &F,
    segments: u32,
)
    requires
        width > 0,
        height > 0,
        width * height <= usize::MAX,
        old(image)@.len() == width * height,
        single_valued(*turn),
    ensures
        final(image)@.len() == old(image)@.len(),
        final(image)@ == hazed(
            *scene,
            max_dist,
            isotropic_deposit(camera.basis(), width as int, height as int, sigma_s),
            PhotonState { ray, counter: old(rng).counter(), power },
            lambda,
            color,
            old(image)@,
            *turn,
            segments as nat,
        ),
    decreases segments,
{
    reveal(hazed);
    if segments == 0 {
        return ;
    }
    let hit: Option<(Hit, Material)> = scene.intersect(&ray);
    let seg_len: Scalar = match &hit {
        Some((h, _)) => h.t,
        None => max_dist,
    };
    deposit_isotropic(
        camera,
        width,
        height,
        sigma_s,
        &ray,
        power,
        color,
        seg_len,
        image,
        rng,
    );
    match hit {
        Some((h, mat)) => match scatter_photon(
            &ray,
            power,
            &h,
            &mat,
            lambda,
            rng,
            turn,
        ) {
            Some((next, left)) => {
                haze_isotropic(
                    scene,
                    camera,
                    width,
                    height,
                    sigma_s,
                    max_dist,
                    next,
                    left,
                    lambda,
                    color,
                    image,
                    rng,
                    turn,
                    segments - 1,
                );
            },
            None => {},
        },
        None => {},
    }
}

/// The light of `n_photons` of the beam, scattered by an isotropic haze with
/// coefficient `sigma_s` toward the camera. `max_dist` bounds a segment that
/// escapes. The image is `width` by `height`, row by row.
pub fn render_volumetric<F: Fn(Scalar) -> (Scalar, Scalar)>(
    scene: &Scene,
    camera: &Camera,
    beam: &Beam,
    width: usize,
    height: usize,
    n_photons: u32,
    sigma_s: Scalar,
    max_dist: Scalar,
    seed: u32,
    sensor: &Sensor,
    turn: &F,
) -> (image: Vec<Xyz>)
    requires
        n_photons > 0 ==> width > 0 && height > 0,
        width * height <= usize::MAX,
        sensor.loaded(),
        single_valued(*turn),
    ensures
        image@ == haze_image(
            *scene,
            *sensor,
            *beam,
            max_dist,
            isotropic_deposit(camera.basis(), width as int, height as int, sigma_s),
            (width * height) as nat,
            n_photons as nat,
            seed,
            *turn,
        ),
{
    let mut image: Vec<Xyz> = blank_image(width * height);
    let mut i: u32 = 0;
    while i < n_photons
        invariant
            i <= n_photons,
            width > 0 && height > 0 || n_photons == 0,
            width * height <= usize::MAX,
            sensor.loaded(),
            single_valued(*turn),
            image@.len() == width * height,
            image@ == haze_image(
                *scene,
                *sensor,
                *beam,
                max_dist,
                isotropic_deposit(camera.basis(), width as int, height as int, sigma_s),
                (width * height) as nat,
                i as nat,
                seed,
                *turn,
            ),
        decreases n_photons - i,
    {
        let (ray, lambda, rest): (Ray, Scalar, PathRng) = emit(beam, i, seed);
        let mut rng: PathRng = rest;
        let color: Xyz = sensor.cmf(lambda);
        haze_isotropic(
            scene,
            camera,
            width,
            height,
            sigma_s,
            max_dist,
            ray,
            Scalar { bits: ONE_BITS },
            lambda,
            color,
            &mut image,
            &mut rng,
            turn,
            MAX_SEGMENTS,
        );
        i = i + 1;
    }
    image
}

/// Encoding of 1e-6.
pub const PHASE_FLOOR_BITS: u32 = 0x3586_37bd;

/// Encoding of 0.03, the radius of a photon beam's cross-section.
pub const BEAM_RADIUS_BITS: u32 = 0x3cf5_c28f;

/// Encoding of 1.5, the least radius of its footprint in pixels.
pub const LEAST_RADIUS_BITS: u32 = 0x3fc0_0000;

/// Encoding of 24, the greatest.
pub const GREATEST_RADIUS_BITS: u32 = 0x41c0_0000;

/// Encoding of 80, the steps for each unit of a segment that is not seen whole.
pub const BLIND_STEPS_BITS: u32 = 0x42a0_0000;

/// The greatest number of steps along a segment.
pub const MAX_STEPS: u64 = 4096;

/// A haze: its scattering and extinction coefficients, and the anisotropy of
/// its phase function.
#[derive(Clone, Copy, Debug, PartialEq, Eq, Structural)]
pub struct Medium {
    pub sigma_s: Scalar,
    pub sigma_t: Scalar,
    pub g: Scalar,
}

/// The Henyey-Greenstein phase function at the cosine of the scattering angle.
pub open spec fn phase<P: Fn(Scalar) -> Scalar>(g: Scalar, cos_theta: Scalar, power: P) -> Scalar {
    let one = Scalar { bits: ONE_BITS };
    let g2 = g.product(g);
    let base = one.sum(g2).difference(
        (Scalar { bits: TWO_BITS }).product(g).product(cos_theta),
    ).larger(Scalar { bits: PHASE_FLOOR_BITS });
    one.difference(g2).quotient((Scalar { bits: FOUR_PI_BITS }).product(result(power, base)))
}

/// Henyey-Greenstein phase function, forward for positive `g`. `power` raises
/// a number to the power of 3 / 2.
pub fn phase_hg<P: Fn(Scalar) -> Scalar>(g: Scalar, cos_theta: Scalar, power: &P) -> (r: Scalar)
    requires
        single_valued(*power),
    ensures
        r == phase(g, cos_theta, *power),
{
    let one: Scalar = Scalar { bits: ONE_BITS };
    let g2: Scalar = g.times(g);
    let base: Scalar = one.plus(g2).minus(
        (Scalar { bits: TWO_BITS }).times(g).times(cos_theta),
    ).max(Scalar { bits: PHASE_FLOOR_BITS });
    one.minus(g2).over((Scalar { bits: FOUR_PI_BITS }).times(evaluate(power, base)))
}

/// The distance of a point from the eye, never less than 1e-3.
pub open spec fn eye_distance(eye: Vector, p: Vector) -> Scalar {
    length(vector_difference(eye, p)).larger(Scalar { bits: NEAREST_BITS })
}

/// The unit vector from a point toward the eye.
pub open spec fn toward_eye(eye: Vector, p: Vector) -> Vector {
    vector_quotient(vector_difference(eye, p), eye_distance(eye, p))
}

/// What a photon scatters toward the eye for each unit of its way: its power,
/// the scattering coefficient, the phase, the transmittance to the eye, and the
/// inverse square of the distance.
pub open spec fn connection<P: Fn(Scalar) -> Scalar, E: Fn(Scalar) -> Scalar>(
    medium: Medium,
    eye: Vector,
    photon_dir: Vector,
    p: Vector,
    photon_power: Scalar,
    power: P,
    exp: E,
) -> Scalar {
    let d = eye_distance(eye, p);
    let cos_theta = dot(photon_dir, toward_eye(eye, p));
    photon_power.product(medium.sigma_s).product(phase(medium.g, cos_theta, power)).product(
        result(exp, medium.sigma_t.negated().product(d)),
    ).quotient(d.product(d))
}

fn connect<P: Fn(Scalar) -> Scalar, E: Fn(Scalar) -> Scalar>(
    medium: &Medium,
    eye: Vector,
    photon_dir: Vector,
    p: Vector,
    photon_power: Scalar,
    power: &P,
    exp: &E,
) -> (r: Scalar)
    requires
        single_valued(*power),
        single_valued(*exp),
    ensures
        r == connection(*medium, eye, photon_dir, p, photon_power, *power, *exp),
{
    let to: Vector = eye.minus(p);
    let d: Scalar = to.length().max(Scalar { bits: NEAREST_BITS });
    let cos_theta: Scalar = photon_dir.dot(to.over(d));
    let phase: Scalar = phase_hg(medium.g, cos_theta, power);
    let trans: Scalar = evaluate(exp, medium.sigma_t.neg().times(d));
    photon_power.times(medium.sigma_s).times(phase).times(trans).over(d.times(d))
}

/// What a haze is rendered with: the camera's view and image size, the haze,
/// the distance of the nearest solid behind each pixel, and the supplied
/// functions.
pub struct HazeView<P, E> {
    pub view: ViewBasis,
    pub width: int,
    pub height: int,
    pub medium: Medium,
    pub zbuffer: Seq<Scalar>,
    pub power: P,
    pub exp: E,
}

impl<P: Fn(Scalar) -> Scalar, E: Fn(Scalar) -> Scalar> HazeView<P, E> {
    /// Where a point shows in the image: its coordinates, if it is in the frame
    /// and nothing solid stands before it.
    pub open spec fn shown(self, p: Vector) -> Option<(Scalar, Scalar)> {
        match self.view.projected(p) {
            None => None,
            Some((s, t, _)) => if eye_distance(self.view.origin, p).below(
                self.zbuffer[pixel_at(s, t, self.width, self.height)],
            ) {
                Some((s, t))
            } else {
                None
            },
        }
    }

    pub open spec fn connected(self, photon: PhotonState, p: Vector) -> Scalar {
        connection(
            self.medium,
            self.view.origin,
            photon.ray.dir,
            p,
            photon.power,
            self.power,
            self.exp,
        )
    }

    /// The image after `n` random scatter points of a segment.
    pub open spec fn points(
        self,
        photon: PhotonState,
        color: Xyz,
        seg_len: Scalar,
        image: Seq<Xyz>,
        n: nat,
    ) -> Seq<Xyz>
        decreases n,
    {
        if n == 0 {
            image
        } else {
            let before = self.points(photon, color, seg_len, image, (n - 1) as nat);
            let p = drawn_point(photon.ray, seg_len, pcg(advanced(photon.counter, n)));
            match self.shown(p) {
                None => before,
                Some((s, t)) => splatted(
                    before,
                    pixel_at(s, t, self.width, self.height),
                    color.weighted(
                        self.connected(photon, p).product(seg_len).quotient(
                            Scalar { bits: SEG_SAMPLES_BITS },
                        ),
                    ),
                ),
            }
        }
    }

    /// A segment by four random scatter points, a draw for each.
    pub open spec fn point_deposit(self) -> Deposit {
        |photon: PhotonState, color: Xyz, seg_len: Scalar, image: Seq<Xyz>|
            (
                self.points(photon, color, seg_len, image, SEG_SAMPLES as nat),
                advanced(photon.counter, SEG_SAMPLES as nat),
            )
    }

    /// The distance of two places in the image, in pixels.
    pub open spec fn pixel_distance(
        self,
        s0: Scalar,
        t0: Scalar,
        s1: Scalar,
        t1: Scalar,
    ) -> Scalar {
        let dx = s1.difference(s0).product(integral(self.width));
        let dy = t1.difference(t0).product(integral(self.height));
        dx.product(dx).sum(dy.product(dy)).square_root()
    }

    /// The number of steps along a segment: two for each pixel that it crosses
    /// and one more, or in proportion to its length where an end is not in the
    /// frame; at least one, and at most 4096.
    pub open spec fn march(self, ray: Ray, seg_len: Scalar) -> int {
        let end = point_at(ray, seg_len);
        let wanted = match (self.view.projected(ray.origin), self.view.projected(end)) {
            (Some((s0, t0, _)), Some((s1, t1, _))) => not_negative(
                ceiling(
                    self.pixel_distance(s0, t0, s1, t1).product(Scalar { bits: TWO_BITS }),
                ),
            ) + 1,
            _ => not_negative(ceiling(seg_len.product(Scalar { bits: BLIND_STEPS_BITS }))),
        };
        step_count(wanted)
    }

    /// The point in the middle of step `k`.
    pub open spec fn step_point(self, ray: Ray, ds: Scalar, k: int) -> Vector {
        point_at(ray, integral(k).sum(Scalar { bits: HALF_BITS }).product(ds))
    }

    /// The radius of the beam's footprint at a point that shows at `s` and `t`:
    /// its cross-section as the camera sees it, within bounds.
    pub open spec fn footprint_radius(self, p: Vector, s: Scalar, t: Scalar) -> Scalar {
        let side = beam_side(toward_eye(self.view.origin, p));
        match self.view.projected(vector_sum(p, side)) {
            None => Scalar { bits: ONE_BITS },
            Some((s2, t2, _)) => self.pixel_distance(s, t, s2, t2).clamped(
                Scalar { bits: LEAST_RADIUS_BITS },
                Scalar { bits: GREATEST_RADIUS_BITS },
            ),
        }
    }

    /// The image after `n` steps along a segment.
    pub open spec fn steps(
        self,
        photon: PhotonState,
        color: Xyz,
        ds: Scalar,
        image: Seq<Xyz>,
        n: nat,
    ) -> Seq<Xyz>
        decreases n,
    {
        if n == 0 {
            image
        } else {
            let before = self.steps(photon, color, ds, image, (n - 1) as nat);
            let p = self.step_point(photon.ray, ds, n - 1);
            match self.shown(p) {
                None => before,
                Some((s, t)) => transverse_splat(
                    before,
                    self.width,
                    self.height,
                    s,
                    t,
                    color.weighted(self.connected(photon, p).product(ds)),
                    self.footprint_radius(p, s, t),
                ),
            }
        }
    }

    /// A segment as a continuous beam: even steps, and no draws.
    pub open spec fn beam_deposit(self) -> Deposit {
        |photon: PhotonState, color: Xyz, seg_len: Scalar, image: Seq<Xyz>|
            {
                let m = self.march(photon.ray, seg_len);
                let ds = seg_len.quotient(integral(m));
                (self.steps(photon, color, ds, image, m as nat), photon.counter)
            }
    }
}

/// Zero in place of a negative integer.
pub open spec fn not_negative(n: int) -> int {
    if n < 0 {
        0
    } else {
        n
    }
}

/// A wanted number of steps, within bounds.
pub open spec fn step_count(wanted: int) -> int {
    if wanted < 1 {
        1
    } else if wanted > MAX_STEPS {
        MAX_STEPS as int
    } else {
        wanted
    }
}

/// A vector of the beam's radius across the line of sight: square to y, or to
/// x where the sight is along y.
pub open spec fn beam_side(sight: Vector) -> Vector {
    let across = cross(sight, Vector::unit_y());
    let chosen = if dot(across, across).below(Scalar { bits: PARALLEL_BITS }) {
        cross(sight, Vector::unit_x())
    } else {
        across
    };
    vector_scaled(unit(chosen), Scalar { bits: BEAM_RADIUS_BITS })
}

fn side_of_beam(sight: Vector) -> (r: Vector)
    ensures
        r == beam_side(sight),
{
    let mut across: Vector = sight.cross(Vector::y_axis());
    if across.dot(across).lt(Scalar { bits: PARALLEL_BITS }) {
        across = sight.cross(Vector::x_axis());
    }
    across.normalize().times(Scalar { bits: BEAM_RADIUS_BITS })
}

/// A haze as it is rendered: the camera and the size of its image, the medium,
/// the distance of the nearest solid behind each pixel, and the supplied
/// functions.
pub struct Haze<'a, P, E> {
    camera: &'a Camera,
    projector: Projector,
    width: usize,
    height: usize,
    medium: Medium,
    zbuffer: &'a Vec<Scalar>,
    power: &'a P,
    exp: &'a E,
}

impl<'a, P: Fn(Scalar) -> Scalar, E: Fn(Scalar) -> Scalar> Haze<'a, P, E> {
    pub closed spec fn view(self) -> HazeView<P, E> {
        HazeView {
            view: self.camera.basis(),
            width: self.width as int,
            height: self.height as int,
            medium: self.medium,
            zbuffer: self.zbuffer@,
            power: *self.power,
            exp: *self.exp,
        }
    }

    pub closed spec fn well_formed(self) -> bool {
        &&& self.projector.ready()
        &&& self.projector.basis() == self.camera.basis()
        &&& self.width > 0
        &&& self.height > 0
        &&& self.width * self.height <= usize::MAX
        &&& self.zbuffer@.len() >= self.width * self.height
        &&& single_valued(*self.power)
        &&& single_valued(*self.exp)
    }

    /// A haze in an image of some size. `power` raises a number to the power of
    /// 3 / 2, and `exp` is the exponential function.
    pub fn new(
        camera: &'a Camera,
        width: usize,
        height: usize,
        medium: Medium,
        zbuffer: &'a Vec<Scalar>,
        power: &'a P,
        exp: &'a E,
    ) -> (r: Self)
        requires
            width > 0,
            height > 0,
            width * height <= usize::MAX,
            zbuffer@.len() >= width * height,
            single_valued(*power),
            single_valued(*exp),
        ensures
            r.well_formed(),
            r.view() == (HazeView {
                view: camera.basis(),
                width: width as int,
                height: height as int,
                medium,
                zbuffer: zbuffer@,
                power: *power,
                exp: *exp,
            }),
    {
        Haze {
            camera,
            projector: camera.projector(),
            width,
            height,
            medium,
            zbuffer,
            power,
            exp,
        }
    }

    /// Where a point shows in the image.
    fn show(&self, p: Vector) -> (r: Option<(Scalar, Scalar)>)
        requires
            self.well_formed(),
        ensures
            r == self.view().shown(p),
    {
        match self.projector.project(p) {
            None => None,
            Some((s, t, _)) => {
                let i: usize = pixel_index(s, t, self.width, self.height);
                let to: Vector = self.camera.origin().minus(p);
                let d: Scalar = to.length().max(Scalar { bits: NEAREST_BITS });
                if d.lt(self.zbuffer[i]) {
                    Some((s, t))
                } else {
                    None
                }
            },
        }
    }

    fn deposit_points(
        &self,
        ray: &Ray,
        photon_power: Scalar,
        color: Xyz,
        seg_len: Scalar,
        image: &mut Vec<Xyz>,
        rng: &mut PathRng,
    )
        requires
            self.well_formed(),
            old(image)@.len() == self.width * self.height,
        ensures
            final(image)@.len() == old(image)@.len(),
            (final(image)@, final(rng).counter()) == self.view().point_deposit()(
                PhotonState { ray: *ray, counter: old(rng).counter(), power: photon_power },
                color,
                seg_len,
                old(image)@,
            ),
    {
        let ghost photon = PhotonState {
            ray: *ray,
            counter: old(rng).counter(),
            power: photon_power,
        };
        proof {
            assert(advanced(photon.counter, 0) == photon.counter);
        }
        let mut k: u32 = 0;
        while k < SEG_SAMPLES
            invariant
                k <= SEG_SAMPLES,
                self.well_formed(),
                image@.len() == self.width * self.height,
                photon == (PhotonState {
                    ray: *ray,
                    counter: old(rng).counter(),
                    power: photon_power,
                }),
                rng.counter() == advanced(photon.counter, k as nat),
                image@ == self.view().points(photon, color, seg_len, old(image)@, k as nat),
            decreases SEG_SAMPLES - k,
        {
            proof {
                lemma_advanced_adds(photon.counter, k as nat, 1);
            }
            let dist: Scalar = rng.next_f32().times(seg_len);
            let p: Vector = ray.origin.plus(ray.dir.times(dist));
            match self.show(p) {
                Some((s, t)) => {
                    let i: usize = pixel_index(s, t, self.width, self.height);
                    let weight: Scalar = connect(
                        &self.medium,
                        self.camera.origin(),
                        ray.dir,
                        p,
                        photon_power,
                        self.power,
                        self.exp,
                    ).times(seg_len).over(Scalar { bits: SEG_SAMPLES_BITS });
                    let value: Xyz = image[i].plus(color.times(weight));
                    image[i] = value;
                },
                None => {},
            }
            k = k + 1;
        }
    }

    fn distance_in_pixels(&self, s0: Scalar, t0: Scalar, s1: Scalar, t1: Scalar) -> (r: Scalar)
        ensures
            r == self.view().pixel_distance(s0, t0, s1, t1),
    {
        let dx: Scalar = s1.minus(s0).times(from_u64(self.width as u64));
        let dy: Scalar = t1.minus(t0).times(from_u64(self.height as u64));
        dx.times(dx).plus(dy.times(dy)).sqrt()
    }

    fn count_steps(&self, ray: &Ray, seg_len: Scalar) -> (m: u64)
        requires
            self.well_formed(),
        ensures
            m == self.view().march(*ray, seg_len),
            1 <= m <= MAX_STEPS,
    {
        let end: Vector = ray.origin.plus(ray.dir.times(seg_len));
        let wanted: u64 = match (self.projector.project(ray.origin), self.projector.project(end)) {
            (Some((s0, t0, _)), Some((s1, t1, _))) => {
                let n: i64 = self.distance_in_pixels(s0, t0, s1, t1).times(
                    Scalar { bits: TWO_BITS },
                ).ceil_i64();
                if n < 0 {
                    1
                } else {
                    n as u64 + 1
                }
            },
            _ => {
                let n: i64 = seg_len.times(Scalar { bits: BLIND_STEPS_BITS }).ceil_i64();
                if n < 0 {
                    0
                } else {
                    n as u64
                }
            },
        };
        if wanted < 1 {
            1
        } else if wanted > MAX_STEPS {
            MAX_STEPS
        } else {
            wanted
        }
    }

    fn radius_at(&self, p: Vector, s: Scalar, t: Scalar) -> (r: Scalar)
        requires
            self.well_formed(),
        ensures
            r == self.view().footprint_radius(p, s, t),
    {
        let to: Vector = self.camera.origin().minus(p);
        let d: Scalar = to.length().max(Scalar { bits: NEAREST_BITS });
        let side: Vector = side_of_beam(to.over(d));
        match self.projector.project(p.plus(side)) {
            None => Scalar { bits: ONE_BITS },
            Some((s2, t2, _)) => {
                proof {
                    lemma_magnitude_increases(
                        LEAST_RADIUS_BITS as int,
                        GREATEST_RADIUS_BITS as int,
                    );
                }
                self.distance_in_pixels(s, t, s2, t2).clamp(
                    Scalar { bits: LEAST_RADIUS_BITS },
                    Scalar { bits: GREATEST_RADIUS_BITS },
                )
            },
        }
    }

    fn deposit_beam(
        &self,
        ray: &Ray,
        photon_power: Scalar,
        color: Xyz,
        seg_len: Scalar,
        image: &mut Vec<Xyz>,
        Ghost(counter): Ghost<u32>,
    )
        requires
            self.well_formed(),
            old(image)@.len() == self.width * self.height,
        ensures
            final(image)@.len() == old(image)@.len(),
            (final(image)@, counter) == self.view().beam_deposit()(
                PhotonState { ray: *ray, counter, power: photon_power },
                color,
                seg_len,
                old(image)@,
            ),
    {
        let ghost photon = PhotonState { ray: *ray, counter, power: photon_power };
        let m: u64 = self.count_steps(ray, seg_len);
        let ds: Scalar = seg_len.over(from_u64(m));
        let half: Scalar = Scalar { bits: HALF_BITS };
        let mut k: u64 = 0;
        while k < m
            invariant
                k <= m,
                self.well_formed(),
                half == (Scalar { bits: HALF_BITS }),
                image@.len() == self.width * self.height,
                photon == (PhotonState { ray: *ray, counter, power: photon_power }),
                image@ == self.view().steps(photon, color, ds, old(image)@, k as nat),
            decreases m - k,
        {
            let dist: Scalar = from_u64(k).plus(half).times(ds);
            let p: Vector = ray.origin.plus(ray.dir.times(dist));
            match self.show(p) {
                Some((s, t)) => {
                    let weight: Scalar = connect(
                        &self.medium,
                        self.camera.origin(),
                        ray.dir,
                        p,
                        photon_power,
                        self.power,
                        self.exp,
                    ).times(ds);
                    let radius: Scalar = self.radius_at(p, s, t);
                    splat_transverse(
                        image,
                        self.width,
                        self.height,
                        s,
                        t,
                        color.times(weight),
                        radius,
                    );
                },
                None => {},
            }
            k = k + 1;
        }
    }

    /// What a segment leaves, as a beam or by points.
    pub open spec fn deposit_spec(self, as_beam: bool) -> Deposit {
        if as_beam {
            self.view().beam_deposit()
        } else {
            self.view().point_deposit()
        }
    }

    /// Follows a photon through the haze.
    fn follow<F: Fn(Scalar) -> (Scalar, Scalar)>(
        &self,
        as_beam: bool,
        scene: &Scene,
        max_dist: Scalar,
        ray: Ray,
        photon_power: Scalar,
        lambda: Scalar,
        color: Xyz,
        image: &mut Vec<Xyz>,
        rng: &mut PathRng,
        turn: &F,
        segments: u32,
    )
        requires
            self.well_formed(),
            old(image)@.len() == self.width * self.height,
            single_valued(*turn),
        ensures
            final(image)@.len() == old(image)@.len(),
            final(image)@ == hazed(
                *scene,
                max_dist,
                self.deposit_spec(as_beam),
                PhotonState { ray, counter: old(rng).counter(), power: photon_power },
                lambda,
                color,
                old(image)@,
                *turn,
                segments as nat,
            ),
        decreases segments,
    {
        reveal(hazed);
        if segments == 0 {
            return ;
        }
        let hit: Option<(Hit, Material)> = scene.intersect(&ray);
        let seg_len: Scalar = match &hit {
            Some((h, _)) => h.t,
            None => max_dist,
        };
        if as_beam {
            self.deposit_beam(&ray, photon_power, color, seg_len, image, Ghost(rng.counter()));
        } else {
            self.deposit_points(&ray, photon_power, color, seg_len, image, rng);
        }
        match hit {
            Some((h, mat)) => match scatter_photon(
                &ray,
                photon_power,
                &h,
                &mat,
                lambda,
                rng,
                turn,
            ) {
                Some((next, left)) => {
                    self.follow(
                        as_beam,
                        scene,
                        max_dist,
                        next,
                        left,
                        lambda,
                        color,
                        image,
                        rng,
                        turn,
                        segments - 1,
                    );
                },
                None => {},
            },
            None => {},
        }
    }

    /// Adds `n` photons of the beam, from photon `first` on, to an image: their
    /// segments as beams, or by points.
    pub fn add_photons<F: Fn(Scalar) -> (Scalar, Scalar)>(
        &self,
        as_beam: bool,
        image: &mut Vec<Xyz>,
        scene: &Scene,
        beam: &Beam,
        first: u32,
        n: u32,
        max_dist: Scalar,
        seed: u32,
        sensor: &Sensor,
        turn: &F,
    )
        requires
            self.well_formed(),
            old(image)@.len() == self.view().width * self.view().height,
            first + n <= u32::MAX,
            sensor.loaded(),
            single_valued(*turn),
        ensures
            final(image)@.len() == old(image)@.len(),
            final(image)@ == haze_on(
                *scene,
                *sensor,
                *beam,
                max_dist,
                self.deposit_spec(as_beam),
                old(image)@,
                first as int,
                n as nat,
                seed,
                *turn,
            ),
    {
        let mut i: u32 = 0;
        while i < n
            invariant
                i <= n,
                first + n <= u32::MAX,
                self.well_formed(),
                sensor.loaded(),
                single_valued(*turn),
                image@.len() == old(image)@.len() == self.width * self.height,
                image@ == haze_on(
                    *scene,
                    *sensor,
                    *beam,
                    max_dist,
                    self.deposit_spec(as_beam),
                    old(image)@,
                    first as int,
                    i as nat,
                    seed,
                    *turn,
                ),
            decreases n - i,
        {
            let (ray, lambda, rest): (Ray, Scalar, PathRng) = emit(beam, first + i, seed);
            let mut rng: PathRng = rest;
            let color: Xyz = sensor.cmf(lambda);
            self.follow(
                as_beam,
                scene,
                max_dist,
                ray,
                Scalar { bits: ONE_BITS },
                lambda,
                color,
                image,
                &mut rng,
                turn,
                MAX_SEGMENTS,
            );
            i = i + 1;
        }
    }
}

/// Single-scatter volumetric tracing by points: four random scatter points for
/// each segment, each at its pixel. `zbuffer` holds the distance of the nearest
/// solid behind each pixel. `power` raises a number to the power of 3 / 2, and
/// `exp` is the exponential function.
pub fn render_volumetric_scene_point<
    F: Fn(Scalar) -> (Scalar, Scalar),
    P: Fn(Scalar) -> Scalar,
    E: Fn(Scalar) -> Scalar,
>(
    scene: &Scene,
    camera: &Camera,
    beam: &Beam,
    width: usize,
    height: usize,
    n_photons: u32,
    sigma_s: Scalar,
    sigma_t: Scalar,
    g: Scalar,
    max_dist: Scalar,
    zbuffer: &Vec<Scalar>,
    seed: u32,
    sensor: &Sensor,
    turn: &F,
    power: &P,
    exp: &E,
) -> (image: Vec<Xyz>)
    requires
        n_photons > 0 ==> width > 0 && height > 0 && zbuffer@.len() >= width * height,
        width * height <= usize::MAX,
        sensor.loaded(),
        single_valued(*turn),
        single_valued(*power),
        single_valued(*exp),
    ensures
        ({
            let haze = HazeView {
                view: camera.basis(),
                width: width as int,
                height: height as int,
                medium: Medium { sigma_s, sigma_t, g },
                zbuffer: zbuffer@,
                power: *power,
                exp: *exp,
            };
            image@ == haze_image(
                *scene,
                *sensor,
                *beam,
                max_dist,
                haze.point_deposit(),
                (width * height) as nat,
                n_photons as nat,
                seed,
                *turn,
            )
        }),
        sigma_s.value() == 0 && width > 0 && height > 0 ==> is_unlit(image@),
{
    proof {
        if sigma_s.value() == 0 && width > 0 && height > 0 {
            let haze = HazeView {
                view: camera.basis(),
                width: width as int,
                height: height as int,
                medium: Medium { sigma_s, sigma_t, g },
                zbuffer: zbuffer@,
                power: *power,
                exp: *exp,
            };
            lemma_clear_haze(
                *scene,
                *sensor,
                *beam,
                max_dist,
                haze,
                false,
                n_photons as nat,
                seed,
                *turn,
            );
        }
    }
    let mut image: Vec<Xyz> = blank_image(width * height);
    if n_photons > 0 {
        let medium: Medium = Medium { sigma_s, sigma_t, g };
        let haze: Haze<P, E> = Haze::new(camera, width, height, medium, zbuffer, power, exp);
        haze.add_photons(false, &mut image, scene, beam, 0, n_photons, max_dist, seed, sensor, turn);
    }
    image
}

/// Single-scatter volumetric tracing by beams: each segment is splatted as a
/// continuous beam, in even steps about half a pixel apart, each with the
/// footprint of the beam's cross-section. Only scattering at surfaces draws
/// from a photon's stream. The arguments are those of the estimate by points,
/// and so is the expected image.
pub fn render_volumetric_scene<
    F: Fn(Scalar) -> (Scalar, Scalar),
    P: Fn(Scalar) -> Scalar,
    E: Fn(Scalar) -> Scalar,
>(
    scene: &Scene,
    camera: &Camera,
    beam: &Beam,
    width: usize,
    height: usize,
    n_photons: u32,
    sigma_s: Scalar,
    sigma_t: Scalar,
    g: Scalar,
    max_dist: Scalar,
    zbuffer: &Vec<Scalar>,
    seed: u32,
    sensor: &Sensor,
    turn: &F,
    power: &P,
    exp: &E,
) -> (image: Vec<Xyz>)
    requires
        n_photons > 0 ==> width > 0 && height > 0 && zbuffer@.len() >= width * height,
        width * height <= usize::MAX,
        sensor.loaded(),
        single_valued(*turn),
        single_valued(*power),
        single_valued(*exp),
    ensures
        ({
            let haze = HazeView {
                view: camera.basis(),
                width: width as int,
                height: height as int,
                medium: Medium { sigma_s, sigma_t, g },
                zbuffer: zbuffer@,
                power: *power,
                exp: *exp,
            };
            image@ == haze_image(
                *scene,
                *sensor,
                *beam,
                max_dist,
                haze.beam_deposit(),
                (width * height) as nat,
                n_photons as nat,
                seed,
                *turn,
            )
        }),
        sigma_s.value() == 0 && width > 0 && height > 0 ==> is_unlit(image@),
{
    proof {
        if sigma_s.value() == 0 && width > 0 && height > 0 {
            let haze = HazeView {
                view: camera.basis(),
                width: width as int,
                height: height as int,
                medium: Medium { sigma_s, sigma_t, g },
                zbuffer: zbuffer@,
                power: *power,
                exp: *exp,
            };
            lemma_clear_haze(
                *scene,
                *sensor,
                *beam,
                max_dist,
                haze,
                true,
                n_photons as nat,
                seed,
                *turn,
            );
        }
    }
    let mut image: Vec<Xyz> = blank_image(width * height);
    if n_photons > 0 {
        let medium: Medium = Medium { sigma_s, sigma_t, g };
        let haze: Haze<P, E> = Haze::new(camera, width, height, medium, zbuffer, power, exp);
        haze.add_photons(true, &mut image, scene, beam, 0, n_photons, max_dist, seed, sensor, turn);
    }
    image
}

/// A segment takes at least one step, and never more than the bound.
pub proof fn lemma_step_count_bounds(wanted: int)
    ensures
        1 <= step_count(wanted) <= MAX_STEPS,
        1 <= wanted <= MAX_STEPS ==> step_count(wanted) == wanted,
{
}

/// Even steps cover a segment, without a gap and without counting any of it
/// twice: `m` of them make up its length, to within one part in 2^24.
pub proof fn lemma_steps_cover(seg_len: Scalar, m: int)
    requires
        1 <= m <= MAX_STEPS,
        seg_len.finite(),
        0x100_0000 * m <= seg_len.value(),
    ensures
        0x100_0000 * absolute(m * seg_len.quotient(integral(m)).value() - seg_len.value())
            <= seg_len.value(),
{
    let o: int = one();
    let v: int = seg_len.value();
    let num: int = v * o;
    let den: int = m * o;
    let k: int = nearest(num, den);
    reveal(Scalar::quotient);
    lemma_pow2_pos(149);
    lemma_magnitude_sign(0);
    lemma_magnitude_sign(seg_len.unsigned_bits());
    lemma_integral_exact(m);
    assert(den > 0 && 0 <= num <= v * den && num >= 0x100_0000 * den) by (nonlinear_arith)
        requires
            num == v * o,
            den == m * o,
            1 <= m,
            o > 0,
            v >= 0x100_0000 * m,
    ;
    assert(magnitude(0) * den == 0);
    lemma_nearest_between(num, den, 0, seg_len.unsigned_bits());
    lemma_nearest_error(num, den);
    let q: int = magnitude(k);
    assert(seg_len.quotient(integral(m)).value() == q);
    assert(0x100_0000 * (m * q - v) <= v && 0x100_0000 * (v - m * q) <= v) by (nonlinear_arith)
        requires
            0x100_0000 * (q * den - num) <= num,
            0x100_0000 * (num - q * den) <= num,
            num == v * o,
            den == m * o,
            o > 0,
    ;
}

} // verus!
