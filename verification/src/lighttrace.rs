//! Forward light tracing: photons leave a collimated source, go through the
//! scene, and land on a screen. This shows caustics, such as a prism's
//! spectrum, that tracing from the camera cannot find.
use crate::accum::blank_image;
use crate::accum::dark_image;
use crate::aperture::lemma_emitted_wavelength;
use crate::aperture::share;
use crate::arith::from_u64;
use crate::arith::integral;
use crate::camera::in_frame;
use crate::camera::is_in_frame;
use crate::cie::whole_part;
use crate::cie::Sensor;
use crate::cie::Xyz;
use crate::exact::number;
use crate::exact::size;
use crate::geom::point_at;
use crate::geom::Hit;
use crate::geom::Ray;
use crate::geom::PARALLEL_BITS;
use crate::material::Material;
use crate::order::lemma_product_one;
use crate::rng::advanced;
use crate::rng::lemma_advanced_adds;
use crate::rng::pcg;
use crate::rng::stream;
use crate::rng::unit_draw;
use crate::rng::PathRng;
use crate::scalar::Scalar;
use crate::scalar::INFINITY_BITS;
use crate::scalar::ONE_BITS;
use crate::scene::distance;
use crate::scene::Scene;
use crate::spectrum::LAMBDA_MIN_BITS;
use crate::spectrum::LAMBDA_RANGE_BITS;
use crate::supplied::single_valued;
use crate::tracer::index_at;
use crate::tracer::lemma_hit_material;
use crate::tracer::path_index;
use crate::vector::cross;
use crate::vector::dot;
use crate::vector::unit;
use crate::vector::vector_difference;
use crate::vector::vector_scaled;
use crate::vector::vector_sum;
use crate::vector::Vector;
use vstd::prelude::*;

verus! {

/// Encoding of 1e-4: a screen nearer than this is behind the photon.
pub const SCREEN_NEAR_BITS: u32 = 0x38d1_b717;

/// The greatest number of segments of a photon's path.
pub const MAX_SEGMENTS: u32 = 8;

/// A collimated source: photons start uniformly over the rectangle from
/// `corner` along `u` and `v`, and all travel along the unit vector `dir`.
#[derive(Clone, Copy, Debug, PartialEq, Eq, Structural)]
pub struct Beam {
    pub corner: Vector,
    pub u: Vector,
    pub v: Vector,
    pub dir: Vector,
}

/// A photon as it leaves the source, and the counter of its stream.
pub struct Emission {
    pub ray: Ray,
    pub lambda: Scalar,
    pub counter: u32,
}

/// Photon `key` of the beam: two draws place it on the aperture, a third
/// chooses its wavelength.
#[verifier::opaque]
pub open spec fn emission(beam: Beam, key: u32, seed: u32) -> Emission {
    let start = pcg(key ^ pcg(seed));
    let u1 = unit_draw(pcg(advanced(start, 1)));
    let u2 = unit_draw(pcg(advanced(start, 2)));
    let u3 = unit_draw(pcg(advanced(start, 3)));
    Emission {
        ray: Ray {
            origin: vector_sum(
                vector_sum(beam.corner, vector_scaled(beam.u, u1)),
                vector_scaled(beam.v, u2),
            ),
            dir: beam.dir,
        },
        lambda: (Scalar { bits: LAMBDA_MIN_BITS }).sum(
            (Scalar { bits: LAMBDA_RANGE_BITS }).product(u3),
        ),
        counter: advanced(start, 3),
    }
}

/// Emits a photon: its ray, its wavelength, and the stream for the rest of its
/// way.
pub fn emit(beam: &Beam, key: u32, seed: u32) -> (r: (Ray, Scalar, PathRng))
    ensures
        r.0 == emission(*beam, key, seed).ray,
        r.1 == emission(*beam, key, seed).lambda,
        r.2.counter() == emission(*beam, key, seed).counter,
        r.1.finite(),
        size(number(r.1) - (380real + 350real * share(stream(key, seed, 2)))) <= 1real / 10000real,
{
    proof {
        lemma_emitted_wavelength(*beam, key, seed);
    }
    reveal(emission);
    let mut rng: PathRng = PathRng::new(key, seed);
    let ghost start = rng.counter();
    let u1: Scalar = rng.next_f32();
    let u2: Scalar = rng.next_f32();
    let u3: Scalar = rng.next_f32();
    proof {
        lemma_advanced_adds(start, 1, 1);
        lemma_advanced_adds(start, 2, 1);
    }
    let origin: Vector = beam.corner.plus(beam.u.times(u1)).plus(beam.v.times(u2));
    let lambda: Scalar = (Scalar { bits: LAMBDA_MIN_BITS }).plus(
        (Scalar { bits: LAMBDA_RANGE_BITS }).times(u3),
    );
    (Ray { origin, dir: beam.dir }, lambda, rng)
}

/// The column for a coordinate in `[0, 1)` across an image of `n` columns.
pub open spec fn cell(coordinate: Scalar, n: int) -> int {
    let i = whole_part(coordinate.product(integral(n)));
    if i < n {
        i
    } else {
        n - 1
    }
}

pub fn cell_of(coordinate: Scalar, n: usize) -> (r: usize)
    requires
        n > 0,
    ensures
        r == cell(coordinate, n as int),
        r < n,
{
    let i: u64 = coordinate.times(from_u64(n as u64)).to_index();
    if i < n as u64 {
        i as usize
    } else {
        n - 1
    }
}

/// The pixel, counted row by row from the top, at `s` across and `t` up.
pub open spec fn pixel_at(s: Scalar, t: Scalar, width: int, height: int) -> int {
    cell((Scalar { bits: ONE_BITS }).difference(t), height) * width + cell(s, width)
}

/// The pixel is one of the image.
pub proof fn lemma_pixel_in_image(s: Scalar, t: Scalar, width: int, height: int)
    requires
        width > 0,
        height > 0,
    ensures
        0 <= cell(s, width) < width,
        0 <= cell((Scalar { bits: ONE_BITS }).difference(t), height) < height,
        0 <= pixel_at(s, t, width, height) < width * height,
{
    let x: int = cell(s, width);
    let y: int = cell((Scalar { bits: ONE_BITS }).difference(t), height);
    lemma_whole_part_sign(s.product(integral(width)));
    lemma_whole_part_sign((Scalar { bits: ONE_BITS }).difference(t).product(integral(height)));
    assert(0 <= y * width + x < width * height) by (nonlinear_arith)
        requires
            0 <= x < width,
            0 <= y,
            y + 1 <= height,
    ;
}

proof fn lemma_whole_part_sign(f: Scalar)
    ensures
        whole_part(f) >= 0,
{
    crate::convert::lemma_floor_sign(f.value());
}

pub fn pixel_index(s: Scalar, t: Scalar, width: usize, height: usize) -> (r: usize)
    requires
        width > 0,
        height > 0,
        width * height <= usize::MAX,
    ensures
        r == pixel_at(s, t, width as int, height as int),
        r < width * height,
{
    proof {
        lemma_pixel_in_image(s, t, width as int, height as int);
    }
    let px: usize = cell_of(s, width);
    let py: usize = cell_of((Scalar { bits: ONE_BITS }).minus(t), height);
    assert(0 <= py * width <= py * width + px) by (nonlinear_arith)
        requires
            py >= 0,
            width >= 0,
            px >= 0,
    ;
    py * width + px
}

/// Where a screen stands: a corner, its two edges and its normal, and the size
/// of its image.
pub struct ScreenFrame {
    pub corner: Vector,
    pub u: Vector,
    pub v: Vector,
    pub normal: Vector,
    pub width: int,
    pub height: int,
}

impl ScreenFrame {
    /// Where a ray meets the screen: the coordinates along both edges, and the
    /// parameter. None for a ray along the screen, for a screen behind the
    /// origin, and outside the rectangle.
    pub open spec fn met(self, ray: Ray) -> Option<(Scalar, Scalar, Scalar)> {
        let denom = dot(ray.dir, self.normal);
        let t = dot(vector_difference(self.corner, ray.origin), self.normal).quotient(denom);
        let rel = vector_difference(point_at(ray, t), self.corner);
        let s = dot(rel, self.u).quotient(dot(self.u, self.u));
        let r = dot(rel, self.v).quotient(dot(self.v, self.v));
        if denom.unsigned().below(Scalar { bits: PARALLEL_BITS }) {
            None
        } else if t.at_most(Scalar { bits: SCREEN_NEAR_BITS }) {
            None
        } else if in_frame(s) && in_frame(r) {
            Some((s, r, t))
        } else {
            None
        }
    }
}

/// A rectangular screen that catches photons and accumulates their color.
pub struct Screen {
    corner: Vector,
    u: Vector,
    v: Vector,
    normal: Vector,
    width: usize,
    height: usize,
    pub sum: Vec<Xyz>,
    sensor: Sensor,
}

impl Screen {
    pub closed spec fn frame(self) -> ScreenFrame {
        ScreenFrame {
            corner: self.corner,
            u: self.u,
            v: self.v,
            normal: self.normal,
            width: self.width as int,
            height: self.height as int,
        }
    }

    pub closed spec fn sensor_spec(self) -> Sensor {
        self.sensor
    }

    /// The accumulated image.
    pub closed spec fn image(self) -> Seq<Xyz> {
        self.sum@
    }

    /// The image has a sum for each pixel, and the sensor its tables.
    pub open spec fn well_formed(self) -> bool {
        &&& self.frame().width * self.frame().height <= usize::MAX
        &&& self.image().len() == self.frame().width * self.frame().height
        &&& self.sensor_spec().loaded()
    }

    /// The image has a pixel.
    pub open spec fn has_pixels(self) -> bool {
        self.frame().width > 0 && self.frame().height > 0
    }

    pub fn new(
        corner: Vector,
        u: Vector,
        v: Vector,
        width: usize,
        height: usize,
        sensor: Sensor,
    ) -> (r: Self)
        requires
            width * height <= usize::MAX,
            sensor.loaded(),
        ensures
            r.well_formed(),
            r.frame() == (ScreenFrame {
                corner,
                u,
                v,
                normal: unit(cross(u, v)),
                width: width as int,
                height: height as int,
            }),
            r.sensor_spec() == sensor,
            r.image() == dark_image((width * height) as nat),
    {
        let normal: Vector = u.cross(v).normalize();
        let sum: Vec<Xyz> = blank_image(width * height);
        Screen { corner, u, v, normal, width, height, sum, sensor }
    }

    pub fn width(&self) -> (r: usize)
        ensures
            r == self.frame().width,
    {
        self.width
    }

    pub fn height(&self) -> (r: usize)
        ensures
            r == self.frame().height,
    {
        self.height
    }

    /// Where a ray meets the screen.
    pub fn screen_coords(&self, ray: &Ray) -> (found: Option<(Scalar, Scalar, Scalar)>)
        ensures
            found == self.frame().met(*ray),
    {
        let denom: Scalar = ray.dir.dot(self.normal);
        if denom.abs().lt(Scalar { bits: PARALLEL_BITS }) {
            return None;
        }
        let t: Scalar = self.corner.minus(ray.origin).dot(self.normal).over(denom);
        if t.le(Scalar { bits: SCREEN_NEAR_BITS }) {
            return None;
        }
        let p: Vector = ray.origin.plus(ray.dir.times(t));
        let rel: Vector = p.minus(self.corner);
        let s: Scalar = rel.dot(self.u).over(self.u.dot(self.u));
        let r: Scalar = rel.dot(self.v).over(self.v.dot(self.v));
        if is_in_frame(s) && is_in_frame(r) {
            Some((s, r, t))
        } else {
            None
        }
    }

    /// Adds a photon's color where it landed; row zero of the image is at the
    /// top, the second edge points up.
    pub fn splat(&mut self, s: Scalar, r: Scalar, lambda: Scalar, power: Scalar)
        requires
            old(self).well_formed(),
            old(self).has_pixels(),
        ensures
            final(self).well_formed(),
            final(self).frame() == old(self).frame(),
            final(self).sensor_spec() == old(self).sensor_spec(),
            final(self).image() == splatted(
                old(self).image(),
                pixel_at(s, r, old(self).frame().width, old(self).frame().height),
                old(self).sensor_spec().matching(lambda).weighted(power),
            ),
    {
        let i: usize = pixel_index(s, r, self.width, self.height);
        let m: Xyz = self.sensor.cmf(lambda);
        let value: Xyz = self.sum[i].plus(m.times(power));
        self.sum[i] = value;
    }

    /// The image with every channel scaled.
    pub fn scaled(&self, scale: Scalar) -> (r: Vec<Xyz>)
        ensures
            r@ == self.image().map_values(|p: Xyz| p.weighted(scale)),
    {
        let mut out: Vec<Xyz> = Vec::new();
        let mut k: usize = 0;
        while k < self.sum.len()
            invariant
                k <= self.sum@.len(),
                out@ == self.sum@.take(k as int).map_values(|p: Xyz| p.weighted(scale)),
            decreases self.sum@.len() - k,
        {
            out.push(self.sum[k].times(scale));
            k = k + 1;
            assert(out@ =~= self.sum@.take(k as int).map_values(|p: Xyz| p.weighted(scale)));
        }
        assert(self.sum@.take(k as int) =~= self.sum@);
        out
    }
}

/// An image with a color added to one pixel.
pub open spec fn splatted(image: Seq<Xyz>, i: int, color: Xyz) -> Seq<Xyz> {
    image.update(i, image[i].total(color))
}

/// A photon under way.
pub struct PhotonState {
    pub ray: Ray,
    pub counter: u32,
    pub power: Scalar,
}

/// The photon after scattering at a hit.
pub open spec fn scattered_on<
    F: Fn(Scalar) -> (Scalar, Scalar),
>(
    photon: PhotonState,
    hit: Hit,
    material: Material,
    lambda: Scalar,
    turn: F,
) -> PhotonState {
    let n_hero = index_at(material, lambda);
    let sc = material.scattered(photon.ray.dir, hit, n_hero, photon.counter, turn);
    PhotonState {
        ray: Ray { origin: hit.point, dir: sc.dir },
        counter: advanced(photon.counter, material.draws()),
        power: photon.power.product(sc.weight),
    }
}

/// Scatters a photon at a hit: its new ray and power.
pub fn scatter_photon<F: Fn(Scalar) -> (Scalar, Scalar)>(
    ray: &Ray,
    power: Scalar,
    hit: &Hit,
    material: &Material,
    lambda: Scalar,
    rng: &mut PathRng,
    turn: &F,
) -> (r: Option<(Ray, Scalar)>)
    requires
        single_valued(*turn),
    ensures
        ({
            let next = scattered_on(
                PhotonState { ray: *ray, counter: old(rng).counter(), power },
                *hit,
                *material,
                lambda,
                *turn,
            );
            r == Some((next.ray, next.power)) && final(rng).counter() == next.counter
        }),
{
    let n_hero: Scalar = path_index(material, lambda);
    match material.scatter(ray.dir, hit, lambda, n_hero, rng, turn) {
        Some(sc) => Some((Ray { origin: hit.point, dir: sc.dir }, power.times(sc.weight))),
        None => None,
    }
}

/// Where a photon ends: its place on the screen and its power there, if it
/// lands, and the counter of its stream.
pub struct Landing {
    pub found: Option<(Scalar, Scalar, Scalar)>,
    pub counter: u32,
}

/// Where a photon lands within `segments` more segments, with its power: on
/// the screen as soon as that is nearer than the scene. Its stream has then
/// given the draws of the surfaces that it has met, and no others.
#[verifier::opaque]
pub open spec fn landing<F: Fn(Scalar) -> (Scalar, Scalar)>(
    scene: Scene,
    frame: ScreenFrame,
    photon: PhotonState,
    lambda: Scalar,
    turn: F,
    segments: nat,
) -> Landing
    decreases segments,
{
    let lost = Landing { found: None, counter: photon.counter };
    if segments == 0 {
        lost
    } else {
        let hit = scene.hit(photon.ray);
        match frame.met(photon.ray) {
            Some((s, r, t)) if t.below(distance(hit)) => Landing {
                found: Some((s, r, photon.power)),
                counter: photon.counter,
            },
            _ => match hit {
                None => lost,
                Some((h, m)) => landing(
                    scene,
                    frame,
                    scattered_on(photon, h, m, lambda, turn),
                    lambda,
                    turn,
                    (segments - 1) as nat,
                ),
            },
        }
    }
}

/// Follows a photon for at most `segments` segments.
fn follow<F: Fn(Scalar) -> (Scalar, Scalar)>(
    scene: &Scene,
    screen: &Screen,
    ray: Ray,
    power: Scalar,
    lambda: Scalar,
    rng: &mut PathRng,
    turn: &F,
    segments: u32,
) -> (found: Option<(Scalar, Scalar, Scalar)>)
    requires
        single_valued(*turn),
    ensures
        (Landing { found, counter: final(rng).counter() }) == landing(
            *scene,
            screen.frame(),
            PhotonState { ray, counter: old(rng).counter(), power },
            lambda,
            *turn,
            segments as nat,
        ),
    decreases segments,
{
    reveal(landing);
    if segments == 0 {
        return None;
    }
    let scene_hit: Option<(Hit, Material)> = scene.intersect(&ray);
    let scene_t: Scalar = match &scene_hit {
        Some((h, _)) => h.t,
        None => Scalar { bits: INFINITY_BITS },
    };
    assert(scene_t == distance(scene_hit));
    match screen.screen_coords(&ray) {
        Some((s, r, t)) => {
            if t.lt(scene_t) {
                return Some((s, r, power));
            }
        },
        None => {},
    }
    match scene_hit {
        None => None,
        Some((hit, mat)) => match scatter_photon(
            &ray,
            power,
            &hit,
            &mat,
            lambda,
            rng,
            turn,
        ) {
            None => None,
            Some((next, left)) => follow(
                scene,
                screen,
                next,
                left,
                lambda,
                rng,
                turn,
                segments - 1,
            ),
        },
    }
}

/// Follows one photon of wavelength `lambda`. The result is where it lands on
/// the screen, and its power there; none if it escapes. The stream is left
/// after the draws of the surfaces that the photon has met.
pub fn trace_photon<F: Fn(Scalar) -> (Scalar, Scalar)>(
    scene: &Scene,
    screen: &Screen,
    ray: Ray,
    lambda: Scalar,
    rng: &mut PathRng,
    turn: &F,
) -> (found: Option<(Scalar, Scalar, Scalar)>)
    requires
        single_valued(*turn),
    ensures
        (Landing { found, counter: final(rng).counter() }) == landing(
            *scene,
            screen.frame(),
            PhotonState { ray, counter: old(rng).counter(), power: Scalar { bits: ONE_BITS } },
            lambda,
            *turn,
            MAX_SEGMENTS as nat,
        ),
{
    follow(
        scene,
        screen,
        ray,
        Scalar { bits: ONE_BITS },
        lambda,
        rng,
        turn,
        MAX_SEGMENTS,
    )
}

/// The image after the photons up to `n` have been traced onto it.
pub open spec fn traced<F: Fn(Scalar) -> (Scalar, Scalar)>(
    scene: Scene,
    frame: ScreenFrame,
    sensor: Sensor,
    beam: Beam,
    image: Seq<Xyz>,
    n: nat,
    seed: u32,
    turn: F,
) -> Seq<Xyz>
    decreases n,
{
    if n == 0 {
        image
    } else {
        let before = traced(
            scene,
            frame,
            sensor,
            beam,
            image,
            (n - 1) as nat,
            seed,
            turn,
        );
        let e = emission(beam, (n - 1) as u32, seed);
        let photon = PhotonState {
            ray: e.ray,
            counter: e.counter,
            power: Scalar { bits: ONE_BITS },
        };
        match landing(scene, frame, photon, e.lambda, turn, MAX_SEGMENTS as nat).found {
            Some((s, r, power)) => splatted(
                before,
                pixel_at(s, r, frame.width, frame.height),
                sensor.matching(e.lambda).weighted(power),
            ),
            None => before,
        }
    }
}

/// Emits `n` photons from the beam, with wavelengths uniform over the band,
/// and adds those that arrive to the screen.
pub fn trace<F: Fn(Scalar) -> (Scalar, Scalar)>(
    scene: &Scene,
    screen: &mut Screen,
    beam: &Beam,
    n: u32,
    seed: u32,
    turn: &F,
)
    requires
        old(screen).well_formed(),
        n > 0 ==> old(screen).has_pixels(),
        single_valued(*turn),
    ensures
        final(screen).well_formed(),
        final(screen).frame() == old(screen).frame(),
        final(screen).sensor_spec() == old(screen).sensor_spec(),
        final(screen).image() == traced(
            *scene,
            old(screen).frame(),
            old(screen).sensor_spec(),
            *beam,
            old(screen).image(),
            n as nat,
            seed,
            *turn,
        ),
{
    let mut i: u32 = 0;
    while i < n
        invariant
            i <= n,
            screen.well_formed(),
            n > 0 ==> screen.has_pixels(),
            screen.frame() == old(screen).frame(),
            screen.sensor_spec() == old(screen).sensor_spec(),
            single_valued(*turn),
            screen.image() == traced(
                *scene,
                old(screen).frame(),
                old(screen).sensor_spec(),
                *beam,
                old(screen).image(),
                i as nat,
                seed,
                *turn,
            ),
        decreases n - i,
    {
        let (ray, lambda, rest): (Ray, Scalar, PathRng) = emit(beam, i, seed);
        let mut rng: PathRng = rest;
        match trace_photon(scene, screen, ray, lambda, &mut rng, turn) {
            Some((s, r, power)) => screen.splat(s, r, lambda, power),
            None => {},
        }
        i = i + 1;
    }
}

/// Tracing only adds to pixels: the image keeps its size.
pub proof fn lemma_traced_size<
    F: Fn(Scalar) -> (Scalar, Scalar),
>(
    scene: Scene,
    frame: ScreenFrame,
    sensor: Sensor,
    beam: Beam,
    image: Seq<Xyz>,
    n: nat,
    seed: u32,
    turn: F,
)
    requires
        frame.width > 0,
        frame.height > 0,
        image.len() == frame.width * frame.height,
    ensures
        traced(scene, frame, sensor, beam, image, n, seed, turn).len() == image.len(),
    decreases n,
{
    if n > 0 {
        lemma_traced_size(
            scene,
            frame,
            sensor,
            beam,
            image,
            (n - 1) as nat,
            seed,
            turn,
        );
        let e = emission(beam, (n - 1) as u32, seed);
        let photon = PhotonState {
            ray: e.ray,
            counter: e.counter,
            power: Scalar { bits: ONE_BITS },
        };
        if let Some((s, r, _)) = landing(
            scene,
            frame,
            photon,
            e.lambda,
            turn,
            MAX_SEGMENTS as nat,
        ).found {
            lemma_pixel_in_image(s, r, frame.width, frame.height);
        }
    }
}

/// Glass keeps a photon's power: at each face the photon is reflected or
/// transmitted whole, so that it lands with the power that it set out with.
pub proof fn lemma_glass_keeps_power<F: Fn(Scalar) -> (Scalar, Scalar)>(
    scene: Scene,
    frame: ScreenFrame,
    photon: PhotonState,
    lambda: Scalar,
    turn: F,
    segments: nat,
)
    requires
        forall|i: int|
            0 <= i < scene.primitives@.len() ==> (
            #[trigger] scene.primitives@[i]).material is Dielectric,
        !photon.power.nan(),
    ensures
        landing(scene, frame, photon, lambda, turn, segments).found matches Some((_, _, power))
            ==> power == photon.power,
    decreases segments,
{
    reveal(landing);
    if segments > 0 {
        if let Some((h, m)) = scene.hit(photon.ray) {
            lemma_hit_material(scene.primitives@, photon.ray, scene.primitives@.len());
            lemma_product_one(photon.power);
            lemma_glass_keeps_power(
                scene,
                frame,
                scattered_on(photon, h, m, lambda, turn),
                lambda,
                turn,
                (segments - 1) as nat,
            );
        }
    }
}

/// Without a surface a photon lands where its ray meets the screen, whatever
/// its wavelength and its stream: with its whole power, and without a draw.
pub proof fn lemma_empty_scene_lands<F: Fn(Scalar) -> (Scalar, Scalar)>(
    scene: Scene,
    frame: ScreenFrame,
    photon: PhotonState,
    lambda: Scalar,
    turn: F,
    segments: nat,
)
    requires
        scene.primitives@.len() == 0,
        segments > 0,
    ensures
        landing(scene, frame, photon, lambda, turn, segments).counter == photon.counter,
        landing(scene, frame, photon, lambda, turn, segments).found == match frame.met(
            photon.ray,
        ) {
            Some((s, r, t)) => if t.below(Scalar { bits: INFINITY_BITS }) {
                Some((s, r, photon.power))
            } else {
                None
            },
            None => None,
        },
{
    reveal(landing);
}

} // verus!
