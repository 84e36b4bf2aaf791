//! CPU spectral path tracer.
use crate::accum::AccumBuffer;
use crate::accum::Renderer;
use crate::arith::from_u64;
use crate::arith::integral;
use crate::camera::Camera;
use crate::camera::ViewBasis;
use crate::cie::Illuminant;
use crate::cie::Sensor;
use crate::cie::Xyz;
use crate::geom::Hit;
use crate::geom::Ray;
use crate::material::Material;
use crate::material::Scatter;
use crate::rng::advanced;
use crate::rng::lemma_advanced_adds;
use crate::rng::mix2;
use crate::rng::pcg;
use crate::rng::unit_draw;
use crate::rng::PathRng;
use crate::scalar::Scalar;
use crate::scalar::ONE_BITS;
use crate::scene::nearest;
use crate::scene::Primitive;
use crate::scene::Scene;
use crate::spectrum::band_density;
use crate::spectrum::lane;
use crate::spectrum::SpectralSample;
use crate::supplied::single_valued;
use vstd::prelude::*;

verus! {

/// The greatest number of bounces of a path.
pub const MAX_BOUNCES: u32 = 8;

/// The index of refraction that a path meets at a material: that of its glass
/// at the wavelength, else one.
pub open spec fn index_at(material: Material, lambda: Scalar) -> Scalar {
    match material {
        Material::Lambertian { .. } => Scalar { bits: ONE_BITS },
        Material::Dielectric { glass } => glass.refraction(lambda),
    }
}

pub fn path_index(material: &Material, lambda: Scalar) -> (r: Scalar)
    ensures
        r == index_at(*material, lambda),
{
    match *material {
        Material::Lambertian { .. } => Scalar { bits: ONE_BITS },
        Material::Dielectric { glass } => glass.n(lambda),
    }
}

/// A path under way: its ray, the counter of its stream, what each lane's
/// radiance is multiplied by, the radiance gathered, and the number of lanes
/// that still count.
pub struct PathState {
    pub ray: Ray,
    pub counter: u32,
    pub throughput: Seq<Scalar>,
    pub radiance: Seq<Scalar>,
    pub lanes: int,
}

/// The lanes after a dispersion: companion wavelengths cannot follow the
/// hero's refracted path, so only the hero is kept.
pub open spec fn collapsed(throughput: Seq<Scalar>) -> Seq<Scalar> {
    Seq::new(
        throughput.len(),
        |k: int|
            if k == 0 {
                throughput[0]
            } else {
                Scalar { bits: 0 }
            },
    )
}

/// The tristimulus of the first `n` lanes of a finished path: each lane's
/// radiance over its density and over the number of lanes that count.
pub open spec fn developed(
    sensor: Sensor,
    lambda: Seq<Scalar>,
    radiance: Seq<Scalar>,
    lanes: int,
    n: nat,
) -> Xyz
    decreases n,
{
    if n == 0 {
        Xyz::dark()
    } else {
        let k = n - 1;
        let w = radiance[k].quotient(band_density()).quotient(integral(lanes));
        developed(sensor, lambda, radiance, lanes, k as nat).total(
            sensor.matching(lambda[k]).weighted(w),
        )
    }
}

/// A path as it is traced.
struct Path {
    ray: Ray,
    throughput: [Scalar; 4],
    radiance: [Scalar; 4],
    lanes: usize,
}

impl Path {
    spec fn state(self, counter: u32) -> PathState {
        PathState {
            ray: self.ray,
            counter,
            throughput: self.throughput@,
            radiance: self.radiance@,
            lanes: self.lanes as int,
        }
    }

    /// Goes on from a hit, and drops the companions at a dispersion.
    fn bounce(&self, hit: &Hit, mat: &Material, sc: Scatter) -> (r: Path)
        ensures
            ({
                let carried = Seq::new(4, |k: int| self.throughput[k].product(sc.weight));
                let disperses = *mat is Dielectric && self.lanes > 1;
                &&& r.ray == (Ray { origin: hit.point, dir: sc.dir })
                &&& r.throughput@ == if disperses {
                    collapsed(carried)
                } else {
                    carried
                }
                &&& r.radiance == self.radiance
                &&& r.lanes == if disperses {
                    1
                } else {
                    self.lanes
                }
            }),
    {
        let zero: Scalar = Scalar { bits: 0 };
        let w: Scalar = sc.weight;
        let tp: [Scalar; 4] = self.throughput;
        let dispersive: bool = match *mat {
            Material::Lambertian { .. } => false,
            Material::Dielectric { .. } => true,
        };
        let ray: Ray = Ray { origin: hit.point, dir: sc.dir };
        let ghost carried = Seq::new(4, |k: int| self.throughput[k].product(sc.weight));
        if dispersive && self.lanes > 1 {
            let throughput: [Scalar; 4] = [tp[0].times(w), zero, zero, zero];
            assert(throughput@ =~= collapsed(carried));
            Path { ray, throughput, radiance: self.radiance, lanes: 1 }
        } else {
            let throughput: [Scalar; 4] = [
                tp[0].times(w),
                tp[1].times(w),
                tp[2].times(w),
                tp[3].times(w),
            ];
            assert(throughput@ =~= carried);
            Path { ray, throughput, radiance: self.radiance, lanes: self.lanes }
        }
    }
}

/// The wavelengths and the state with which sample `sample` of a pixel begins:
/// two draws place the ray within the pixel, a third chooses the hero.
pub open spec fn beginning(
    view: ViewBasis,
    width: int,
    height: int,
    px: int,
    py: int,
    sample: u32,
    seed: u32,
) -> (Seq<Scalar>, PathState) {
    let pixel = (py * width + px) as u32;
    let start = pcg(pcg(pixel ^ pcg(sample)) ^ pcg(seed));
    let u1 = unit_draw(pcg(advanced(start, 1)));
    let u2 = unit_draw(pcg(advanced(start, 2)));
    let u3 = unit_draw(pcg(advanced(start, 3)));
    let s = integral(px).sum(u1).quotient(integral(width));
    let t = (Scalar { bits: ONE_BITS }).difference(
        integral(py).sum(u2).quotient(integral(height)),
    );
    (
        Seq::new(4, |j: int| lane(u3, j)),
        PathState {
            ray: Ray { origin: view.origin, dir: view.direction(s, t) },
            counter: advanced(start, 3),
            throughput: Seq::new(4, |j: int| Scalar { bits: ONE_BITS }),
            radiance: Seq::new(4, |j: int| Scalar { bits: 0 }),
            lanes: 4,
        },
    )
}

/// What the paths of a render share.
pub struct World<F> {
    pub scene: Scene,
    pub sensor: Sensor,
    pub illuminant: Illuminant,
    pub turn: F,
}

impl<F: Fn(Scalar) -> (Scalar, Scalar)> World<F> {
    /// The radiance of each lane once the ray has escaped: the background in
    /// its direction, with the illuminant's spectrum.
    pub open spec fn escaped(self, lambda: Seq<Scalar>, path: PathState) -> PathState {
        let bg = self.scene.background_spec(path.ray.dir);
        PathState {
            radiance: Seq::new(
                4,
                |k: int|
                    path.radiance[k].sum(
                        path.throughput[k].product(bg).product(
                            self.sensor.power(self.illuminant, lambda[k]),
                        ),
                    ),
            ),
            ..path
        }
    }

    /// The path after scattering at a hit.
    pub open spec fn bounced(
        self,
        lambda: Seq<Scalar>,
        path: PathState,
        hit: Hit,
        material: Material,
    ) -> PathState {
        let n_hero = index_at(material, lambda[0]);
        let sc = material.scattered(path.ray.dir, hit, n_hero, path.counter, self.turn);
        let carried = Seq::new(4, |k: int| path.throughput[k].product(sc.weight));
        let disperses = material is Dielectric && path.lanes > 1;
        PathState {
            ray: Ray { origin: hit.point, dir: sc.dir },
            counter: advanced(path.counter, material.draws()),
            throughput: if disperses {
                collapsed(carried)
            } else {
                carried
            },
            radiance: path.radiance,
            lanes: if disperses {
                1
            } else {
                path.lanes
            },
        }
    }

    /// The path after at most `bounces` more bounces: it ends where its ray
    /// escapes.
    pub open spec fn walked(self, lambda: Seq<Scalar>, path: PathState, bounces: nat) -> PathState
        decreases bounces,
    {
        if bounces == 0 {
            path
        } else {
            match self.scene.hit(path.ray) {
                None => self.escaped(lambda, path),
                Some((hit, material)) => self.walked(
                    lambda,
                    self.bounced(lambda, path, hit, material),
                    (bounces - 1) as nat,
                ),
            }
        }
    }

    /// The contribution of sample `sample` to the pixel in column `px` and row
    /// `py` of an image.
    pub open spec fn sample(
        self,
        view: ViewBasis,
        width: int,
        height: int,
        px: int,
        py: int,
        sample: u32,
        seed: u32,
    ) -> Xyz {
        let begun = beginning(view, width, height, px, py, sample, seed);
        let end = self.walked(begun.0, begun.1, MAX_BOUNCES as nat);
        developed(self.sensor, begun.0, end.radiance, end.lanes, 4)
    }

    /// The sum of the samples from `base` on, `count` of them.
    pub open spec fn sampled(
        self,
        view: ViewBasis,
        width: int,
        height: int,
        px: int,
        py: int,
        base: u32,
        count: nat,
        seed: u32,
    ) -> Xyz
        decreases count,
    {
        if count == 0 {
            Xyz::dark()
        } else {
            self.sampled(view, width, height, px, py, base, (count - 1) as nat, seed).total(
                self.sample(view, width, height, px, py, (base + count - 1) as u32, seed),
            )
        }
    }
}

/// The index of a pixel fits where the number of pixels does.
proof fn lemma_pixel_fits(px: int, py: int, width: int, height: int)
    requires
        0 <= px < width,
        0 <= py < height,
    ensures
        0 <= py * width + px < width * height,
        0 <= py * width <= width * height,
{
    assert(0 <= py * width && py * width + width <= width * height) by (nonlinear_arith)
        requires
            0 <= py,
            py + 1 <= height,
            width > 0,
    ;
}

/// The tracer: a scene, the camera and sensor that see it, and the image that
/// it accumulates.
pub struct CpuTracer {
    scene: Scene,
    camera: Camera,
    sensor: Sensor,
    illuminant: Illuminant,
    seed: u32,
    accum: AccumBuffer,
}

impl CpuTracer {
    pub closed spec fn image(self) -> AccumBuffer {
        self.accum
    }

    pub closed spec fn view_basis(self) -> ViewBasis {
        self.camera.basis()
    }

    pub closed spec fn seed_spec(self) -> u32 {
        self.seed
    }

    pub closed spec fn scene_spec(self) -> Scene {
        self.scene
    }

    pub closed spec fn sensor_spec(self) -> Sensor {
        self.sensor
    }

    pub closed spec fn illuminant_spec(self) -> Illuminant {
        self.illuminant
    }

    /// What this tracer's paths share, with the supplied functions.
    pub open spec fn world<F>(self, turn: F) -> World<F> {
        World {
            scene: self.scene_spec(),
            sensor: self.sensor_spec(),
            illuminant: self.illuminant_spec(),
            turn,
        }
    }

    /// The image has a sum for each pixel, and the sensor its tables.
    pub closed spec fn well_formed(self) -> bool {
        &&& self.accum.well_formed()
        &&& self.accum.width * self.accum.height <= usize::MAX
        &&& self.sensor.loaded()
    }

    /// A tracer of paths of at most eight bounces.
    pub fn new(
        scene: Scene,
        camera: Camera,
        sensor: Sensor,
        width: usize,
        height: usize,
        illuminant: Illuminant,
        seed: u32,
    ) -> (r: Self)
        requires
            width * height <= usize::MAX,
            sensor.loaded(),
        ensures
            r.well_formed(),
            r.view_basis() == camera.basis(),
            r.seed_spec() == seed,
            r.image().width == width,
            r.image().height == height,
            r.image().sum@ == crate::accum::dark_image((width * height) as nat),
            r.image().samples == 0,
            r.scene_spec() == scene,
            r.sensor_spec() == sensor,
            r.illuminant_spec() == illuminant,
    {
        CpuTracer {
            scene,
            camera,
            sensor,
            illuminant,
            seed,
            accum: AccumBuffer::new(width, height),
        }
    }

    /// The tristimulus of a finished path. Dividing by the lanes that count
    /// keeps the estimate unbiased with and without a dispersion.
    fn develop(&self, path: &Path, spec: &SpectralSample) -> (r: Xyz)
        requires
            self.sensor.loaded(),
            forall|j: int| 0 <= j < 4 ==> (#[trigger] spec.pdf[j]) == band_density(),
        ensures
            r == developed(
                self.sensor,
                spec.lambda@,
                path.radiance@,
                path.lanes as int,
                4,
            ),
    {
        let lanes: Scalar = from_u64(path.lanes as u64);
        let mut xyz: Xyz = Xyz::black();
        let mut k: usize = 0;
        while k < 4
            invariant
                k <= 4,
                self.sensor.loaded(),
                lanes == integral(path.lanes as int),
                forall|j: int| 0 <= j < 4 ==> (#[trigger] spec.pdf[j]) == band_density(),
                xyz == developed(
                    self.sensor,
                    spec.lambda@,
                    path.radiance@,
                    path.lanes as int,
                    k as nat,
                ),
            decreases 4 - k,
        {
            let m: Xyz = self.sensor.cmf(spec.lambda[k]);
            let w: Scalar = path.radiance[k].over(spec.pdf[k]).over(lanes);
            xyz = xyz.plus(m.times(w));
            k = k + 1;
        }
        xyz
    }

    /// The radiance of each lane once the path's ray has escaped.
    fn gather(&self, path: &Path, spec: &SpectralSample) -> (r: [Scalar; 4])
        requires
            self.sensor.loaded(),
        ensures
            forall|k: int|
                0 <= k < 4 ==> (#[trigger] r[k]) == path.radiance[k].sum(
                    path.throughput[k].product(
                        self.scene.background_spec(path.ray.dir),
                    ).product(self.sensor.power(self.illuminant, spec.lambda[k])),
                ),
    {
        let bg: Scalar = self.scene.background_radiance(path.ray.dir);
        let mut out: [Scalar; 4] = path.radiance;
        let mut k: usize = 0;
        while k < 4
            invariant
                k <= 4,
                self.sensor.loaded(),
                bg == self.scene.background_spec(path.ray.dir),
                forall|j: int| k <= j < 4 ==> (#[trigger] out[j]) == path.radiance[j],
                forall|j: int|
                    0 <= j < k ==> (#[trigger] out[j]) == path.radiance[j].sum(
                        path.throughput[j].product(bg).product(
                            self.sensor.power(self.illuminant, spec.lambda[j]),
                        ),
                    ),
            decreases 4 - k,
        {
            let sp: Scalar = self.sensor.illuminant(self.illuminant, spec.lambda[k]);
            out[k] = path.radiance[k].plus(path.throughput[k].times(bg).times(sp));
            k = k + 1;
        }
        out
    }

    /// Follows a path to its end.
    fn walk<F: Fn(Scalar) -> (Scalar, Scalar)>(
        &self,
        start: Path,
        spec: &SpectralSample,
        rng: &mut PathRng,
        turn: &F,
    ) -> (r: Path)
        requires
            self.sensor.loaded(),
            single_valued(*turn),
        ensures
            r.state(final(rng).counter()) == self.world(*turn).walked(
                spec.lambda@,
                start.state(old(rng).counter()),
                MAX_BOUNCES as nat,
            ),
    {
        let ghost world = self.world(*turn);
        let ghost lambda = spec.lambda@;
        let ghost whole = world.walked(
            lambda,
            start.state(rng.counter()),
            MAX_BOUNCES as nat,
        );
        let mut path: Path = start;
        let mut bounce: u32 = 0;
        while bounce < MAX_BOUNCES
            invariant
                bounce <= MAX_BOUNCES,
                world == self.world(*turn),
                lambda == spec.lambda@,
                self.sensor.loaded(),
                single_valued(*turn),
                whole == world.walked(
                    lambda,
                    start.state(old(rng).counter()),
                    MAX_BOUNCES as nat,
                ),
                whole == world.walked(
                    lambda,
                    path.state(rng.counter()),
                    (MAX_BOUNCES - bounce) as nat,
                ),
            decreases MAX_BOUNCES - bounce,
        {
            let ghost before = path.state(rng.counter());
            match self.scene.intersect(&path.ray) {
                None => {
                    let ghost escaped = world.escaped(lambda, before);
                    path.radiance = self.gather(&path, spec);
                    assert(path.radiance@ =~= escaped.radiance);
                    return path;
                },
                Some((hit, mat)) => {
                    let n_hero: Scalar = path_index(&mat, spec.lambda[0]);
                    match mat.scatter(path.ray.dir, &hit, spec.lambda[0], n_hero, rng, turn) {
                        None => {
                            return path;
                        },
                        Some(sc) => {
                            path = path.bounce(&hit, &mat, sc);
                            assert(path.state(rng.counter()) == world.bounced(
                                lambda,
                                before,
                                hit,
                                mat,
                            ));
                        },
                    }
                },
            }
            bounce = bounce + 1;
        }
        path
    }

    /// Begins a path of a pixel.
    fn begin(&self, px: usize, py: usize, sample_idx: u32) -> (r: (SpectralSample, Path, PathRng))
        requires
            self.well_formed(),
            px < self.image().width,
            py < self.image().height,
        ensures
            ({
                let begun = beginning(
                    self.view_basis(),
                    self.image().width as int,
                    self.image().height as int,
                    px as int,
                    py as int,
                    sample_idx,
                    self.seed_spec(),
                );
                &&& r.0.lambda@ == begun.0
                &&& forall|j: int| 0 <= j < 4 ==> (#[trigger] r.0.pdf[j]) == band_density()
                &&& r.1.state(r.2.counter()) == begun.1
            }),
    {
        let w: usize = self.accum.width;
        let h: usize = self.accum.height;
        proof {
            lemma_pixel_fits(px as int, py as int, w as int, h as int);
        }
        let pixel: u32 = (py * w + px) as u32;
        let key: u32 = mix2(pixel, sample_idx);
        let mut rng: PathRng = PathRng::new(key, self.seed);
        let ghost start = rng.counter();
        let one: Scalar = Scalar { bits: ONE_BITS };
        let zero: Scalar = Scalar { bits: 0 };
        let u1: Scalar = rng.next_f32();
        let u2: Scalar = rng.next_f32();
        let u3: Scalar = rng.next_f32();
        proof {
            lemma_advanced_adds(start, 1, 1);
            lemma_advanced_adds(start, 2, 1);
        }
        let s: Scalar = from_u64(px as u64).plus(u1).over(from_u64(w as u64));
        let t: Scalar = one.minus(from_u64(py as u64).plus(u2).over(from_u64(h as u64)));
        let spec: SpectralSample = SpectralSample::from_hero_u(u3);
        let ray: Ray = self.camera.primary_ray(s, t);
        let path: Path = Path {
            ray,
            throughput: [one, one, one, one],
            radiance: [zero, zero, zero, zero],
            lanes: 4,
        };
        assert(path.throughput@ =~= Seq::new(4, |j: int| one));
        assert(path.radiance@ =~= Seq::new(4, |j: int| zero));
        assert(spec.lambda@ =~= Seq::new(4, |j: int| lane(u3, j)));
        (spec, path, rng)
    }

    /// One path of a pixel, and its contribution. `turn` gives the cosine and
    /// sine of an angle.
    pub fn sample_pixel<F: Fn(Scalar) -> (Scalar, Scalar)>(
        &self,
        px: usize,
        py: usize,
        sample_idx: u32,
        turn: &F,
    ) -> (r: Xyz)
        requires
            self.well_formed(),
            px < self.image().width,
            py < self.image().height,
            single_valued(*turn),
        ensures
            r == self.world(*turn).sample(
                self.view_basis(),
                self.image().width as int,
                self.image().height as int,
                px as int,
                py as int,
                sample_idx,
                self.seed_spec(),
            ),
    {
        let (spec, path, mut rng): (SpectralSample, Path, PathRng) = self.begin(
            px,
            py,
            sample_idx,
        );
        let end: Path = self.walk(path, &spec, &mut rng, turn);
        self.develop(&end, &spec)
    }

    /// The sum of the next `count` samples of pixel `i`, counted row by row.
    pub fn pixel_sum<F: Fn(Scalar) -> (Scalar, Scalar)>(
        &self,
        i: usize,
        count: u32,
        turn: &F,
    ) -> (r: Xyz)
        requires
            self.well_formed(),
            i < self.image().width * self.image().height,
            self.image().samples + count <= u32::MAX,
            single_valued(*turn),
        ensures
            r == self.pixel_spec(i as int, count as nat, *turn),
    {
        let w: usize = self.accum.width;
        proof {
            lemma_pixel_place(i as int, w as int, self.accum.height as int);
        }
        let px: usize = i % w;
        let py: usize = i / w;
        let base: u32 = self.accum.samples;
        let mut acc: Xyz = Xyz::black();
        let mut k: u32 = 0;
        while k < count
            invariant
                k <= count,
                self.well_formed(),
                w == self.accum.width,
                px == i % w,
                py == i / w,
                px < w,
                py < self.accum.height,
                base == self.accum.samples,
                base + count <= u32::MAX,
                single_valued(*turn),
                acc == self.pixel_spec(i as int, k as nat, *turn),
            decreases count - k,
        {
            acc = acc.plus(self.sample_pixel(px, py, base + k, turn));
            k = k + 1;
        }
        acc
    }

    /// The sum of the next `count` samples of pixel `i`.
    pub open spec fn pixel_spec<
        F: Fn(Scalar) -> (Scalar, Scalar),
    >(self, i: int, count: nat, turn: F) -> Xyz {
        let w = self.image().width as int;
        self.world(turn).sampled(
            self.view_basis(),
            w,
            self.image().height as int,
            i % w,
            i / w,
            self.image().samples,
            count,
            self.seed_spec(),
        )
    }

    /// Nothing but the image differs.
    pub open spec fn same_setup(self, other: CpuTracer) -> bool {
        &&& self.scene_spec() == other.scene_spec()
        &&& self.sensor_spec() == other.sensor_spec()
        &&& self.illuminant_spec() == other.illuminant_spec()
        &&& self.view_basis() == other.view_basis()
        &&& self.seed_spec() == other.seed_spec()
        &&& self.image().width == other.image().width
        &&& self.image().height == other.image().height
    }

    /// Adds the sums of `count` samples of every pixel to the image.
    pub fn merge(&mut self, batch: &Vec<Xyz>, count: u32)
        requires
            old(self).well_formed(),
            batch@.len() == old(self).image().sum@.len(),
            old(self).image().samples + count <= u32::MAX,
        ensures
            final(self).well_formed(),
            final(self).same_setup(*old(self)),
            final(self).image().samples == old(self).image().samples + count,
            final(self).image().sum@ == Seq::new(
                old(self).image().sum@.len(),
                |i: int| old(self).image().sum@[i].total(batch@[i]),
            ),
    {
        self.accum.merge(batch, count);
    }
}

impl Renderer for CpuTracer {
    open spec fn shown(&self) -> AccumBuffer {
        self.image()
    }

    open spec fn ready(&self) -> bool {
        self.well_formed()
    }

    /// Traces `samples_per_pixel` more paths for every pixel.
    fn accumulate<F: Fn(Scalar) -> (Scalar, Scalar)>(
        &mut self,
        samples_per_pixel: u32,
        turn: &F,
    )
        ensures
            final(self).same_setup(*old(self)),
            final(self).image().sum@ == Seq::new(
                old(self).image().sum@.len(),
                |i: int|
                    old(self).image().sum@[i].total(
                        old(self).pixel_spec(i, samples_per_pixel as nat, *turn),
                    ),
            ),
    {
        let n: usize = self.accum.sum.len();
        let mut batch: Vec<Xyz> = Vec::new();
        let mut i: usize = 0;
        while i < n
            invariant
                i <= n,
                *self == *old(self),
                self.well_formed(),
                n == self.image().sum@.len(),
                self.image().samples + samples_per_pixel <= u32::MAX,
                single_valued(*turn),
                batch@.len() == i,
                forall|j: int|
                    0 <= j < i ==> (#[trigger] batch@[j]) == self.pixel_spec(
                        j,
                        samples_per_pixel as nat,
                        *turn,
                    ),
            decreases n - i,
        {
            batch.push(self.pixel_sum(i, samples_per_pixel, turn));
            i = i + 1;
        }
        self.merge(&batch, samples_per_pixel);
        assert(self.image().sum@ =~= Seq::new(
            old(self).image().sum@.len(),
            |i: int|
                old(self).image().sum@[i].total(
                    old(self).pixel_spec(i, samples_per_pixel as nat, *turn),
                ),
        ));
    }

    /// The image so far.
    fn buffer(&self) -> (r: &AccumBuffer) {
        &self.accum
    }

    /// Starts the image over.
    fn reset(&mut self)
        ensures
            final(self).same_setup(*old(self)),
    {
        self.accum.reset();
    }
}

/// The column and row of a pixel.
proof fn lemma_pixel_place(i: int, width: int, height: int)
    requires
        0 <= i < width * height,
        width >= 0,
        height >= 0,
    ensures
        width > 0,
        0 <= i % width < width,
        0 <= i / width < height,
{
    assert(width > 0) by (nonlinear_arith)
        requires
            0 < width * height,
            width >= 0,
    ;
    vstd::arithmetic::div_mod::lemma_fundamental_div_mod(i, width);
    let q: int = i / width;
    let r: int = i % width;
    assert(0 <= q < height) by (nonlinear_arith)
        requires
            i == width * q + r,
            0 <= r < width,
            0 <= i < width * height,
    ;
}

impl<F: Fn(Scalar) -> (Scalar, Scalar)> World<F> {
    /// All lanes of a path count, or its hero alone.
    pub open spec fn lanes_sound(path: PathState) -> bool {
        &&& path.throughput.len() == 4
        &&& path.lanes == 4 || path.lanes == 1
    }

    /// A path keeps all its lanes or its hero alone, however far it goes.
    pub proof fn lemma_lanes_sound(self, lambda: Seq<Scalar>, path: PathState, bounces: nat)
        requires
            Self::lanes_sound(path),
        ensures
            Self::lanes_sound(self.walked(lambda, path, bounces)),
        decreases bounces,
    {
        if bounces > 0 {
            match self.scene.hit(path.ray) {
                None => {},
                Some((hit, material)) => {
                    self.lemma_lanes_sound(
                        lambda,
                        self.bounced(lambda, path, hit, material),
                        (bounces - 1) as nat,
                    );
                },
            }
        }
    }

    /// A path that meets no dielectric keeps all its lanes.
    pub proof fn lemma_no_dispersion_keeps_lanes(
        self,
        lambda: Seq<Scalar>,
        path: PathState,
        bounces: nat,
    )
        requires
            forall|i: int|
                0 <= i < self.scene.primitives@.len() ==> !((
                #[trigger] self.scene.primitives@[i]).material is Dielectric),
        ensures
            self.walked(lambda, path, bounces).lanes == path.lanes,
        decreases bounces,
    {
        if bounces > 0 {
            match self.scene.hit(path.ray) {
                None => {},
                Some((hit, material)) => {
                    lemma_hit_material(
                        self.scene.primitives@,
                        path.ray,
                        self.scene.primitives@.len(),
                    );
                    self.lemma_no_dispersion_keeps_lanes(
                        lambda,
                        self.bounced(lambda, path, hit, material),
                        (bounces - 1) as nat,
                    );
                },
            }
        }
    }
}

/// The material of a hit is that of a primitive.
pub proof fn lemma_hit_material(primitives: Seq<Primitive>, ray: Ray, n: nat)
    requires
        n <= primitives.len(),
    ensures
        nearest(primitives, ray, n) matches Some((_, m)) ==> exists|i: int|
            0 <= i < n && (#[trigger] primitives[i]).material == m,
    decreases n,
{
    if n > 0 {
        lemma_hit_material(primitives, ray, (n - 1) as nat);
        assert(primitives[n - 1].material == primitives[n - 1].material);
    }
}

/// A collapse leaves the hero and nothing else.
pub proof fn lemma_collapsed(throughput: Seq<Scalar>)
    requires
        throughput.len() == 4,
    ensures
        collapsed(throughput)[0] == throughput[0],
        forall|k: int| 1 <= k < 4 ==> (#[trigger] collapsed(throughput)[k]) == (Scalar { bits: 0 }),
        collapsed(collapsed(throughput)) == collapsed(throughput),
{
    assert(collapsed(collapsed(throughput)) =~= collapsed(throughput));
}

} // verus!
