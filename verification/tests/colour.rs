//! The sensor, the tracers and the haze.
use rayon::prelude::IntoParallelIterator;
use rayon::prelude::ParallelIterator;
use spectral::accum::blank_image;
use spectral::accum::Renderer;
use spectral::camera::Camera;
use spectral::cie::chromaticity;
use spectral::cie::tonemap_to_u8;
use spectral::cie::xyz_to_linear_srgb;
use spectral::cie::Illuminant;
use spectral::cie::Sensor;
use spectral::cie::Table;
use spectral::cie::Xyz;
use spectral::data::sample_tables;
use spectral::data::N_SAMPLES;
use spectral::geom::ConvexSolid;
use spectral::geom::Plane;
use spectral::geom::Ray;
use spectral::lighttrace::trace;
use spectral::lighttrace::trace_photon;
use spectral::lighttrace::Beam;
use spectral::lighttrace::Screen;
use spectral::material::Material;
use spectral::optics::refract;
use spectral::photons::phase_hg_wgsl_mirror;
use spectral::picture::dsotm_scene;
use spectral::rng::PathRng;
use spectral::scalar::Scalar;
use spectral::scene::Scene;
use spectral::sellmeier::Glass;
use spectral::spectrum::SpectralSample;
use spectral::spectrum::HERO_N;
use spectral::splat::splat_transverse;
use spectral::tracer::path_index;
use spectral::tracer::CpuTracer;
use spectral::vector::Vector;
use spectral::volume::phase_hg;
use spectral::volume::render_volumetric;
use spectral::volume::render_volumetric_scene;
use spectral::volume::render_volumetric_scene_point;
use spectral::volume::Haze;
use spectral::volume::Medium;

/// Wavelength in nanometres, the three colour matching functions of the 1931
/// standard observer, and the relative powers of the illuminants D65 and A.
const CURVES: [[f32; 6]; 71] = [
    [380.0, 0.001368, 0.000039, 0.006450, 49.9755, 9.7951],
    [385.0, 0.002236, 0.000064, 0.010550, 52.3118, 10.8996],
    [390.0, 0.004243, 0.000120, 0.020050, 54.6482, 12.0853],
    [395.0, 0.007650, 0.000217, 0.036210, 68.7015, 13.3543],
    [400.0, 0.014310, 0.000396, 0.067850, 82.7549, 14.7080],
    [405.0, 0.023190, 0.000640, 0.110200, 87.1204, 16.1480],
    [410.0, 0.043510, 0.001210, 0.207400, 91.486, 17.6753],
    [415.0, 0.077630, 0.002180, 0.371300, 92.4589, 19.2907],
    [420.0, 0.134380, 0.004000, 0.645600, 93.4318, 20.9950],
    [425.0, 0.214770, 0.007300, 1.039050, 90.057, 22.7883],
    [430.0, 0.283900, 0.011600, 1.385600, 86.6823, 24.6709],
    [435.0, 0.328500, 0.016840, 1.622960, 95.7736, 26.6425],
    [440.0, 0.348280, 0.023000, 1.747060, 104.865, 28.7027],
    [445.0, 0.348060, 0.029800, 1.782600, 110.936, 30.8508],
    [450.0, 0.336200, 0.038000, 1.772110, 117.008, 33.0859],
    [455.0, 0.318700, 0.048000, 1.744100, 117.41, 35.4068],
    [460.0, 0.290800, 0.060000, 1.669200, 117.812, 37.8121],
    [465.0, 0.251100, 0.073900, 1.528100, 116.336, 40.3002],
    [470.0, 0.195360, 0.090980, 1.287640, 114.861, 42.8693],
    [475.0, 0.142100, 0.112600, 1.041900, 115.392, 45.5174],
    [480.0, 0.095640, 0.139020, 0.812950, 115.923, 48.2423],
    [485.0, 0.057950, 0.169300, 0.616200, 112.367, 51.0418],
    [490.0, 0.032010, 0.208020, 0.465180, 108.811, 53.9132],
    [495.0, 0.014700, 0.258600, 0.353300, 109.082, 56.8539],
    [500.0, 0.004900, 0.323000, 0.272000, 109.354, 59.8611],
    [505.0, 0.002400, 0.407300, 0.212300, 108.578, 62.9320],
    [510.0, 0.009300, 0.503000, 0.158200, 107.802, 66.0635],
    [515.0, 0.029100, 0.608200, 0.111700, 106.296, 69.2525],
    [520.0, 0.063270, 0.710000, 0.078250, 104.79, 72.4959],
    [525.0, 0.109600, 0.793200, 0.057250, 106.239, 75.7903],
    [530.0, 0.165500, 0.862000, 0.042160, 107.689, 79.1326],
    [535.0, 0.225750, 0.914850, 0.029840, 106.047, 82.5193],
    [540.0, 0.290400, 0.954000, 0.020300, 104.405, 85.9470],
    [545.0, 0.359700, 0.980300, 0.013400, 104.225, 89.4124],
    [550.0, 0.433450, 0.994950, 0.008750, 104.046, 92.9120],
    [555.0, 0.512050, 1.000000, 0.005750, 102.023, 96.4423],
    [560.0, 0.594500, 0.995000, 0.003900, 100.0, 100.0000],
    [565.0, 0.678400, 0.978600, 0.002750, 98.1671, 103.5816],
    [570.0, 0.762100, 0.952000, 0.002100, 96.3342, 107.1838],
    [575.0, 0.842500, 0.915400, 0.001800, 96.0611, 110.8031],
    [580.0, 0.916300, 0.870000, 0.001650, 95.788, 114.4363],
    [585.0, 0.978600, 0.816300, 0.001400, 92.2368, 118.0801],
    [590.0, 1.026300, 0.757000, 0.001100, 88.6856, 121.7312],
    [595.0, 1.056700, 0.694900, 0.001000, 89.3459, 125.3865],
    [600.0, 1.062200, 0.631000, 0.000800, 90.0062, 129.0427],
    [605.0, 1.045600, 0.566800, 0.000600, 89.8026, 132.6970],
    [610.0, 1.002600, 0.503000, 0.000340, 89.5991, 136.3463],
    [615.0, 0.938400, 0.441200, 0.000240, 88.6489, 139.9876],
    [620.0, 0.854450, 0.381000, 0.000190, 87.6987, 143.6182],
    [625.0, 0.751400, 0.321000, 0.000100, 85.4936, 147.2353],
    [630.0, 0.642400, 0.265000, 0.000050, 83.2886, 150.8362],
    [635.0, 0.541900, 0.217000, 0.000030, 83.4939, 154.4183],
    [640.0, 0.447900, 0.175000, 0.000020, 83.6992, 157.9792],
    [645.0, 0.360800, 0.138200, 0.000010, 81.863, 161.5164],
    [650.0, 0.283500, 0.107000, 0.000000, 80.0268, 165.0275],
    [655.0, 0.218700, 0.081600, 0.000000, 80.1207, 168.5104],
    [660.0, 0.164900, 0.061000, 0.000000, 80.2146, 171.9629],
    [665.0, 0.121200, 0.044580, 0.000000, 81.2462, 175.3830],
    [670.0, 0.087400, 0.032000, 0.000000, 82.2778, 178.7686],
    [675.0, 0.063600, 0.023200, 0.000000, 80.281, 182.1180],
    [680.0, 0.046770, 0.017000, 0.000000, 78.2842, 185.4293],
    [685.0, 0.032900, 0.011920, 0.000000, 74.0027, 188.7008],
    [690.0, 0.022700, 0.008210, 0.000000, 69.7213, 191.9309],
    [695.0, 0.015840, 0.005723, 0.000000, 70.6652, 195.1182],
    [700.0, 0.011359, 0.004102, 0.000000, 71.6091, 198.2612],
    [705.0, 0.008111, 0.002929, 0.000000, 72.979, 201.3586],
    [710.0, 0.005790, 0.002091, 0.000000, 74.349, 204.4090],
    [715.0, 0.004109, 0.001484, 0.000000, 67.9765, 207.4114],
    [720.0, 0.002899, 0.001047, 0.000000, 61.604, 210.3646],
    [725.0, 0.002049, 0.000740, 0.000000, 65.7448, 213.2676],
    [730.0, 0.001440, 0.000520, 0.000000, 69.8856, 216.1196],
];

const LAMBDA_MIN: f32 = 380.0;
const LAMBDA_MAX: f32 = 730.0;
const LAMBDA_RANGE: f32 = 350.0;

fn s(x: f32) -> Scalar {
    Scalar::from_bits(x.to_bits())
}

fn f(x: Scalar) -> f32 {
    f32::from_bits(x.to_bits())
}

fn v(x: f32, y: f32, z: f32) -> Vector {
    Vector::new(s(x), s(y), s(z))
}

fn turn(angle: Scalar) -> (Scalar, Scalar) {
    let a = f(angle);
    (s(a.cos()), s(a.sin()))
}

fn three_halves(x: Scalar) -> Scalar {
    s(f(x).powf(1.5))
}

fn exp(x: Scalar) -> Scalar {
    s(f(x).exp())
}

fn gamma_root(x: Scalar) -> Scalar {
    s(f(x).powf(1.0 / 2.4))
}

fn xyz(p: Xyz) -> [f32; 3] {
    [f(p.x), f(p.y), f(p.z)]
}

fn to_xyz(p: [f32; 3]) -> Xyz {
    Xyz { x: s(p[0]), y: s(p[1]), z: s(p[2]) }
}

fn chroma(p: [f32; 3]) -> (f32, f32) {
    let (x, y) = chromaticity(to_xyz(p));
    (f(x), f(y))
}

fn srgb(p: [f32; 3]) -> [f32; 3] {
    xyz(xyz_to_linear_srgb(to_xyz(p)))
}

fn half_tan(vfov_deg: f32) -> Scalar {
    s((vfov_deg.to_radians() / 2.0).tan())
}

fn look_at(origin: Vector, target: Vector, vfov_deg: f32, aspect: f32) -> Camera {
    Camera::look_at(origin, target, v(0.0, 1.0, 0.0), half_tan(vfov_deg), s(aspect))
}

fn table(columns: &[usize]) -> Table {
    let cells: Vec<Vec<Scalar>> = CURVES
        .iter()
        .map(|row| {
            let mut cells = vec![s(row[0])];
            cells.extend(columns.iter().map(|&c| s(row[c])));
            cells
        })
        .collect();
    Table::parse(&cells, columns.len()).expect("whole rows")
}

fn sensor() -> Sensor {
    Sensor::new(table(&[1, 2, 3]), table(&[4]), table(&[5])).expect("filled tables")
}

fn cmf(sensor: &Sensor, nm: f32) -> (f32, f32, f32) {
    let m = sensor.cmf(s(nm));
    (f(m.x), f(m.y), f(m.z))
}

fn power(sensor: &Sensor, ill: Illuminant, nm: f32) -> f32 {
    f(sensor.illuminant(ill, s(nm)))
}

fn triangular_prism(size: f32, depth: f32) -> ConvexSolid {
    let side = |k: u32| {
        let ang = std::f32::consts::FRAC_PI_2 + k as f32 * 2.0 * std::f32::consts::PI / 3.0;
        v(ang.cos(), ang.sin(), 0.0)
    };
    ConvexSolid::triangular_prism([side(0), side(1), side(2)], s(size), s(depth))
}

/// All pixels of a batch at once.
fn accumulate_parallel(t: &mut CpuTracer, spp: u32) {
    let n = t.buffer().width * t.buffer().height;
    let batch: Vec<Xyz> = {
        let shared: &CpuTracer = t;
        (0..n).into_par_iter().map(|i| shared.pixel_sum(i, spp, &turn)).collect()
    };
    t.merge(&batch, spp);
}

fn mean(t: &CpuTracer) -> Vec<[f32; 3]> {
    t.buffer().mean().into_iter().map(xyz).collect()
}

fn mean_luminance(t: &CpuTracer) -> f32 {
    let m = mean(t);
    m.iter().map(|p| p[1]).sum::<f32>() / m.len() as f32
}

#[test]
fn d65_white_point_chromaticity() {
    let sensor = sensor();
    let (x, y) = chroma(xyz(sensor.integrate_illuminant(Illuminant::D65)));
    assert!((x - 0.3127).abs() <= 2e-3, "x={x}");
    assert!((y - 0.3290).abs() <= 2e-3, "y={y}");
}

/// White has luminance one, to the last bit.
#[test]
fn white_has_luminance_one() {
    let sensor = sensor();
    for ill in [Illuminant::D65, Illuminant::A] {
        assert_eq!(f(sensor.integrate_illuminant(ill).y), 1.0);
    }
}

#[test]
fn cmf_and_illuminant_sampling_in_band() {
    let sensor = sensor();
    let (x, y, z) = cmf(&sensor, 555.0);
    assert!(x >= 0.0 && y > 0.0 && z >= 0.0);
    assert!(power(&sensor, Illuminant::D65, 555.0) > 0.0);
}

/// A curve is linear between its rows, and holds its ends.
#[test]
fn curves_are_interpolated_and_held() {
    let sensor = sensor();
    assert_eq!(cmf(&sensor, 555.0).1, 1.0);
    assert_eq!(power(&sensor, Illuminant::D65, 560.0), 100.0);
    let between = power(&sensor, Illuminant::D65, 562.5);
    assert!((between - (100.0 + 98.1671) / 2.0).abs() < 1e-4, "{between}");
    assert_eq!(power(&sensor, Illuminant::D65, 100.0), 49.9755);
    assert_eq!(power(&sensor, Illuminant::D65, 900.0), 69.8856);
}

/// A row with too few cells makes no table, and an empty table no sensor.
#[test]
fn incomplete_tables_are_refused() {
    let short = vec![vec![s(380.0), s(1.0)], vec![s(385.0)]];
    assert!(Table::parse(&short, 1).is_none());
    let empty = Table::parse(&vec![], 1).expect("no rows, none short");
    assert!(Sensor::new(table(&[1, 2, 3]), empty, table(&[5])).is_none());
}

#[test]
fn xyz_to_srgb_white_is_unit() {
    let rgb = srgb([0.9505, 1.0, 1.0890]);
    assert!((rgb[0] - 1.0).abs() <= 1e-2);
    assert!((rgb[1] - 1.0).abs() <= 1e-2);
    assert!((rgb[2] - 1.0).abs() <= 1e-2);
}

/// The tone map against the same formula on the machine.
#[test]
fn tone_map_agrees_with_the_formula() {
    let expected = |linear: f32, exposure: f32| -> u8 {
        let v = (linear * exposure).max(0.0);
        let mapped = v / (1.0 + v);
        let gamma = if mapped <= 0.0031308 {
            12.92 * mapped
        } else {
            1.055 * mapped.powf(1.0 / 2.4) - 0.055
        };
        (gamma.clamp(0.0, 1.0) * 255.0 + 0.5) as u8
    };
    assert_eq!(tonemap_to_u8(to_xyz([-1.0, 0.0, 1e9]), s(1.0), &gamma_root), [0, 0, 255]);
    for step in 0..300 {
        let linear = step as f32 * 0.02 - 0.5;
        let got = tonemap_to_u8(to_xyz([linear, 2.0 * linear, 0.001 * linear]), s(1.7), &gamma_root);
        assert_eq!(
            got,
            [expected(linear, 1.7), expected(2.0 * linear, 1.7), expected(0.001 * linear, 1.7)]
        );
    }
}

#[test]
fn tables_have_expected_length_and_finite_values() {
    let t = sample_tables(&sensor());
    assert_eq!(t.len(), N_SAMPLES * 5);
    assert!(t.iter().all(|x| f(*x).is_finite()));
    let ybar_peak = f(t[N_SAMPLES + 35]);
    assert!((ybar_peak - 1.0).abs() < 0.05, "ybar(555) ~= 1, got {ybar_peak}");
}

#[test]
fn hero_comb_is_stratified_and_in_band() {
    let comb = SpectralSample::from_hero_u(s(0.1));
    for &l in &comb.lambda {
        assert!((LAMBDA_MIN..LAMBDA_MAX).contains(&f(l)), "{} out of band", f(l));
    }
    let step = LAMBDA_RANGE / HERO_N as f32;
    for j in 0..HERO_N {
        let a = f(comb.lambda[j]) - LAMBDA_MIN;
        let b = f(comb.lambda[(j + 1) % HERO_N]) - LAMBDA_MIN;
        let d = (b - a).rem_euclid(LAMBDA_RANGE);
        assert!((d - step).abs() < 1e-3, "lane spacing {d} != {step}");
    }
    for &p in &comb.pdf {
        assert!((f(p) - 1.0 / LAMBDA_RANGE).abs() < 1e-6);
    }
}

#[test]
fn accumulating_increases_samples_and_energy() {
    let mut scene = Scene::new();
    scene.add_sphere(v(0.0, 0.0, -3.0), s(1.0), Material::Lambertian { reflectance: s(0.8) });
    let cam = look_at(v(0.0, 0.0, 0.0), v(0.0, 0.0, -1.0), 60.0, 1.0);
    let mut t = CpuTracer::new(scene, cam, sensor(), 16, 16, Illuminant::D65, 42);
    t.accumulate(4, &turn);
    assert_eq!(t.buffer().samples, 4);
    let total: f32 = mean(&t).iter().map(|p| p[1]).sum();
    assert!(total > 0.0, "expected positive luminance");
}

/// Sums of single pixels, merged, are what accumulating gives.
#[test]
fn merging_pixels_is_accumulating() {
    let build = || {
        let mut scene = Scene::new();
        scene.add_sphere(v(0.0, 0.0, -3.0), s(1.0), Material::Dielectric { glass: Glass::Sf11 });
        let cam = look_at(v(0.0, 0.0, 0.0), v(0.0, 0.0, -1.0), 60.0, 1.0);
        CpuTracer::new(scene, cam, sensor(), 8, 8, Illuminant::A, 5)
    };
    let (mut a, mut b) = (build(), build());
    for _ in 0..2 {
        a.accumulate(3, &turn);
        accumulate_parallel(&mut b, 3);
    }
    assert_eq!(a.buffer().samples, 6);
    assert_eq!(a.buffer().samples, b.buffer().samples);
    assert_eq!(a.buffer().sum, b.buffer().sum);
}

#[test]
fn reset_clears() {
    let cam = look_at(v(0.0, 0.0, 0.0), v(0.0, 0.0, -1.0), 60.0, 1.0);
    let mut t = CpuTracer::new(Scene::new(), cam, sensor(), 8, 8, Illuminant::D65, 1);
    t.accumulate(2, &turn);
    t.reset();
    assert_eq!(t.buffer().samples, 0);
    assert!(
        t.buffer().sum.iter().all(|p| xyz(*p) == [0.0, 0.0, 0.0]),
        "reset must zero the sum buffer"
    );
}

#[test]
fn background_only_integrates_to_d65_white_point() {
    let mut scene = Scene::new();
    scene.background = s(1.0);
    let cam = look_at(v(0.0, 0.0, 0.0), v(0.0, 0.0, -1.0), 60.0, 1.0);
    let mut t = CpuTracer::new(scene, cam, sensor(), 32, 32, Illuminant::D65, 7);
    accumulate_parallel(&mut t, 256);
    let mut sum = [0.0f32; 3];
    for px in &mean(&t) {
        sum[0] += px[0];
        sum[1] += px[1];
        sum[2] += px[2];
    }
    let (x, y) = chroma(sum);
    assert!((x - 0.3127).abs() < 6e-3, "x={x} not near D65 white point");
    assert!((y - 0.3290).abs() < 6e-3, "y={y} not near D65 white point");
}

#[test]
fn dispersion_collapse_preserves_brightness() {
    let look = || look_at(v(0.0, 0.0, 3.0), v(0.0, 0.0, 0.0), 18.0, 1.0);
    let mut empty = Scene::new();
    empty.background = s(1.0);
    let mut t0 = CpuTracer::new(empty, look(), sensor(), 8, 8, Illuminant::D65, 3);
    accumulate_parallel(&mut t0, 256);
    let y_empty = mean_luminance(&t0);

    let mut slab = Scene::new();
    slab.background = s(1.0);
    slab.add_solid(
        ConvexSolid::axis_box(v(-5.0, -5.0, -0.1), v(5.0, 5.0, 0.1)),
        Material::Dielectric { glass: Glass::Bk7 },
    );
    let mut t1 = CpuTracer::new(slab, look(), sensor(), 8, 8, Illuminant::D65, 3);
    accumulate_parallel(&mut t1, 256);
    let y_slab = mean_luminance(&t1);

    assert!(y_empty > 0.0);
    assert!(
        y_slab > 0.7 * y_empty,
        "collapse too dark: slab={y_slab} empty={y_empty} (ratio {})",
        y_slab / y_empty
    );
    assert!(y_slab < 1.05 * y_empty, "slab brighter than background: {y_slab} vs {y_empty}");
}

/// Max chromaticity distance from the D65 white point across all pixels.
fn chroma_spread(t: &CpuTracer) -> f32 {
    mean(t)
        .iter()
        .filter_map(|px| {
            let sum = px[0] + px[1] + px[2];
            if sum <= 1e-5 {
                return None;
            }
            let (x, y) = (px[0] / sum, px[1] / sum);
            Some(((x - 0.3127f32).powi(2) + (y - 0.3290f32).powi(2)).sqrt())
        })
        .fold(0.0f32, f32::max)
}

#[test]
fn dispersive_prism_colors_horizon_more_than_diffuse() {
    let setup = |mat: Material| {
        let mut scene = Scene::new();
        scene.background = s(0.3);
        scene.horizon = Some(s(4.0));
        scene.add_solid(triangular_prism(1.0, 2.0), mat);
        let cam = look_at(v(0.0, 0.0, 4.0), v(0.0, 0.0, 0.0), 50.0, 1.0);
        let mut t = CpuTracer::new(scene, cam, sensor(), 128, 128, Illuminant::D65, 11);
        accumulate_parallel(&mut t, 256);
        t
    };
    let glass = setup(Material::Dielectric { glass: Glass::Sf11 });
    let diffuse = setup(Material::Lambertian { reflectance: s(0.8) });
    let cg = chroma_spread(&glass);
    let cd = chroma_spread(&diffuse);
    assert!(cg > 0.05, "dispersive prism should color the horizon edge strongly, got {cg}");
    assert!(cg > 2.0 * cd, "glass dispersion ({cg}) must clearly exceed the diffuse control ({cd})");
}

/// Mean landing on the screen for a single wavelength, over many photons.
fn mean_landing(
    scene: &Scene,
    screen: &Screen,
    beam: &Beam,
    lambda: f32,
    n: u32,
) -> Option<(f32, f32)> {
    let (mut sx, mut sr, mut cnt) = (0.0f32, 0.0f32, 0u32);
    for i in 0..n {
        let mut rng = PathRng::new(i, 1);
        let u = beam.u.times(rng.next_f32());
        let w = beam.v.times(rng.next_f32());
        let ray = Ray { origin: beam.corner.plus(u).plus(w), dir: beam.dir };
        if let Some((a, b, _)) = trace_photon(scene, screen, ray, s(lambda), &mut rng, &turn) {
            sx += f(a);
            sr += f(b);
            cnt += 1;
        }
    }
    if cnt == 0 {
        None
    } else {
        Some((sx / cnt as f32, sr / cnt as f32))
    }
}

fn make_screen() -> Screen {
    Screen::new(v(4.0, -3.0, -2.0), v(0.0, 0.0, 4.0), v(0.0, 8.0, 0.0), 64, 64, sensor())
}

fn make_beam() -> Beam {
    Beam {
        corner: v(-3.0, -0.05, -0.05),
        u: v(0.0, 0.0, 0.1),
        v: v(0.0, 0.1, 0.0),
        dir: v(1.0, 0.0, 0.0),
    }
}

/// A wedge with a vertical entry face and an exit face 30 degrees from it.
fn wedge() -> ConvexSolid {
    let (sin, cos) = 30.0_f32.to_radians().sin_cos();
    ConvexSolid {
        planes: vec![
            Plane { normal: v(-1.0, 0.0, 0.0), d: s(-1.0) },
            Plane { normal: v(cos, -sin, 0.0), d: s(-1.0) },
            Plane { normal: v(0.0, 1.0, 0.0), d: s(-1.0) },
            Plane { normal: v(0.0, 0.0, 1.0), d: s(-1.0) },
            Plane { normal: v(0.0, 0.0, -1.0), d: s(-1.0) },
        ],
    }
}

#[test]
fn prism_disperses_beam_on_screen() {
    let screen = make_screen();
    let beam = make_beam();

    let mut prism = Scene::new();
    prism.add_solid(wedge(), Material::Dielectric { glass: Glass::Sf11 });
    let blue = mean_landing(&prism, &screen, &beam, 450.0, 256).expect("blue must reach the screen");
    let red = mean_landing(&prism, &screen, &beam, 650.0, 256).expect("red must reach the screen");
    let sep = ((blue.0 - red.0).powi(2) + (blue.1 - red.1).powi(2)).sqrt();

    let empty = Scene::new();
    let b0 = mean_landing(&empty, &screen, &beam, 450.0, 256).expect("blue control lands");
    let r0 = mean_landing(&empty, &screen, &beam, 650.0, 256).expect("red control lands");
    let sep0 = ((b0.0 - r0.0).powi(2) + (b0.1 - r0.1).powi(2)).sqrt();

    assert!(sep0 < 1e-4, "without a prism there is no dispersion, got sep0={sep0}");
    assert!(sep > 0.02, "prism must separate blue and red on the screen, got sep={sep}");
}

/// Glass reflects or transmits a photon whole; a grey surface takes of it.
#[test]
fn glass_keeps_the_power_of_a_photon() {
    let screen = make_screen();
    let beam = make_beam();
    let mut prism = Scene::new();
    prism.add_solid(wedge(), Material::Dielectric { glass: Glass::Sf11 });
    let mut landed = 0;
    for i in 0..64 {
        let mut rng = PathRng::new(i, 1);
        let ray = Ray { origin: beam.corner, dir: beam.dir };
        if let Some((_, _, p)) = trace_photon(&prism, &screen, ray, s(550.0), &mut rng, &turn) {
            assert_eq!(f(p), 1.0);
            landed += 1;
        }
    }
    assert!(landed > 0);
}

/// A screen without pixels catches nothing, as long as nothing is sent.
#[test]
fn an_empty_screen_takes_no_photons() {
    let mut screen =
        Screen::new(v(4.0, -3.0, -2.0), v(0.0, 0.0, 4.0), v(0.0, 8.0, 0.0), 0, 0, sensor());
    trace(&Scene::new(), &mut screen, &make_beam(), 0, 3, &turn);
    assert!(screen.sum.is_empty());
}

/// A splat gives all of its color to the image, in its middle, over its edge,
/// and where its tent reaches no pixel.
#[test]
fn splats_conserve_their_color() {
    let (w, h) = (20usize, 16usize);
    for (a, b, r) in [
        (0.5, 0.5, 3.0),
        (0.51, 0.27, 1.5),
        (0.001, 0.999, 6.0),
        (0.9999, 0.0001, 24.0),
        (0.33, 0.77, 0.1),
    ] {
        let mut img = blank_image(w * h);
        let color = to_xyz([1.0, 2.0, 0.25]);
        splat_transverse(&mut img, w, h, s(a), s(b), color, s(r));
        let total = |k: usize| img.iter().map(|p| xyz(*p)[k] as f64).sum::<f64>();
        assert!((total(0) - 1.0).abs() < 4e-5, "at {a} {b} over {r}: {}", total(0));
        assert!((total(1) - 2.0).abs() < 8e-5, "at {a} {b} over {r}: {}", total(1));
        assert!((total(2) - 0.25).abs() < 1e-5, "at {a} {b} over {r}: {}", total(2));
    }
}

/// Photons that meet nothing land straight ahead, and light only the pixels
/// they land on.
#[test]
fn tracing_lights_the_screen_where_photons_land() {
    let mut screen = make_screen();
    trace(&Scene::new(), &mut screen, &make_beam(), 200, 3, &turn);
    let lit: Vec<usize> = screen
        .scaled(s(1.0))
        .into_iter()
        .enumerate()
        .filter(|(_, p)| xyz(*p) != [0.0, 0.0, 0.0])
        .map(|(i, _)| i)
        .collect();
    assert!(!lit.is_empty());
    for i in lit {
        let (px, py) = (i % 64, i / 64);
        assert!((31..=32).contains(&px), "column {px}");
        assert!((38..=41).contains(&py), "row {py}");
    }
}

fn phase(g: f32, cos_theta: f32) -> f32 {
    f(phase_hg(s(g), s(cos_theta), &three_halves))
}

#[test]
fn hg_forward_biased() {
    assert!(phase(0.6, 1.0) > phase(0.6, -1.0));
    assert!((phase(0.0, 0.5) - phase(0.0, -0.5)).abs() < 1e-6);
}

#[test]
fn phase_hg_matches_cpu_oracle() {
    fn cpu_oracle_phase_hg(g: f32, cos_theta: f32) -> f32 {
        let g2 = g * g;
        let denom = (1.0 + g2 - 2.0 * g * cos_theta).max(1e-6).powf(1.5);
        (1.0 - g2) / (4.0 * std::f32::consts::PI * denom)
    }
    let mirror = |g: f32, c: f32| f(phase_hg_wgsl_mirror(s(g), s(c), &three_halves));
    let cases = [
        (0.0_f32, 0.5_f32),
        (0.0, -0.5),
        (0.5, 1.0),
        (0.5, -1.0),
        (0.5, 0.0),
        (0.9, 1.0),
        (0.9, -1.0),
        (0.9, 0.0),
        (0.6, 1.0),
        (-0.3, 0.7),
    ];
    for (g, c) in cases {
        let m = mirror(g, c);
        let o = cpu_oracle_phase_hg(g, c);
        let d = (m - o).abs();
        assert!(d < 1e-5, "phase_hg(g={g}, cos={c}): mirror {m} vs oracle {o}, delta {d}");
    }
    assert!(mirror(0.6, 1.0) > mirror(0.6, -1.0));
}

#[test]
fn beam_march_steps_cover_full_segment() {
    for &(seg_len, m) in &[(0.5f32, 1usize), (3.7, 13), (14.0, 2048), (0.001, 5)] {
        let ds = f(s(seg_len).over(s(m as f32)));
        assert_eq!(ds, seg_len / m as f32);
        let total: f32 = (0..m).map(|_| ds).sum();
        assert!(
            (total - seg_len).abs() <= seg_len * 1e-4 + 1e-6,
            "sum(ds)={total} != seg_len={seg_len} (m={m})"
        );
    }
}

/// Beams and points estimate the same light: the footprint of a beam only
/// spreads it.
#[test]
fn beam_and_point_estimators_conserve_energy() {
    let (w, h) = (128usize, 96usize);
    let scene = Scene::new();
    let beam = Beam {
        corner: v(-2.0, 0.0, 0.0),
        u: v(0.0, 0.0, 0.6),
        v: v(0.0, 0.4, 0.0),
        dir: v(1.0, 0.0, 0.0),
    };
    let cam = look_at(v(0.0, 0.5, 6.0), v(0.0, 0.0, 0.0), 45.0, w as f32 / h as f32);
    let zbuf = vec![s(f32::INFINITY); w * h];
    let (n, ss, st, g, md, seed) = (5_000u32, s(0.5), s(0.06), s(0.4), s(12.0), 7u32);
    let sensor = sensor();

    let pt = render_volumetric_scene_point(
        &scene, &cam, &beam, w, h, n, ss, st, g, md, &zbuf, seed, &sensor, &turn, &three_halves, &exp,
    );
    let bm = render_volumetric_scene(
        &scene, &cam, &beam, w, h, n, ss, st, g, md, &zbuf, seed, &sensor, &turn, &three_halves, &exp,
    );
    let ysum = |img: &[Xyz]| img.iter().map(|p| f(p.y)).sum::<f32>();
    let (yp, yb) = (ysum(&pt), ysum(&bm));
    assert!(yp > 0.0 && yb > 0.0, "no energy: point={yp} beam={yb}");
    let ratio = yb / yp;
    assert!(
        (0.92..=1.08).contains(&ratio),
        "beam/point energy ratio {ratio} out of [0.92,1.08] (point={yp} beam={yb})"
    );
}

/// Batches added one after the other leave the image of all photons.
#[test]
fn batches_add_up_to_the_image() {
    let (w, h) = (20usize, 20usize);
    let (scene, beam, cam) = prism_picture();
    let zbuf = vec![s(f32::INFINITY); w * h];
    let sensor = sensor();
    let medium = Medium { sigma_s: s(0.5), sigma_t: s(0.06), g: s(0.5) };
    let haze = Haze::new(&cam, w, h, medium, &zbuf, &three_halves, &exp);
    let mut points = blank_image(w * h);
    let mut beams = blank_image(w * h);
    for (first, n) in [(0u32, 7u32), (7, 1), (8, 22)] {
        haze.add_photons(false, &mut points, &scene, &beam, first, n, s(14.0), 7, &sensor, &turn);
        haze.add_photons(true, &mut beams, &scene, &beam, first, n, s(14.0), 7, &sensor, &turn);
    }
    let whole_points = render_volumetric_scene_point(
        &scene, &cam, &beam, w, h, 30, s(0.5), s(0.06), s(0.5), s(14.0), &zbuf, 7, &sensor, &turn,
        &three_halves, &exp,
    );
    let whole_beams = render_volumetric_scene(
        &scene, &cam, &beam, w, h, 30, s(0.5), s(0.06), s(0.5), s(14.0), &zbuf, 7, &sensor, &turn,
        &three_halves, &exp,
    );
    assert_eq!(points, whole_points);
    assert_eq!(beams, whole_beams);
    assert!(beams.iter().any(|p| f(p.y) > 0.0));
}

/// Integral of D65, a weight and the colour matching functions over the band.
fn integrate(sensor: &Sensor, ill: Illuminant, weight: &dyn Fn(f32) -> f32) -> [f32; 3] {
    let step = 5.0_f32;
    let (mut x, mut y, mut z) = (0.0, 0.0, 0.0);
    let mut nm = LAMBDA_MIN;
    while nm <= LAMBDA_MAX {
        let p = power(sensor, ill, nm) * weight(nm);
        let (xb, yb, zb) = cmf(sensor, nm);
        x += p * xb * step;
        y += p * yb * step;
        z += p * zb * step;
        nm += step;
    }
    [x, y, z]
}

fn rayleigh(nm: f32) -> f32 {
    (550.0 / nm).powi(4)
}

#[test]
fn scattered_sky_is_blue() {
    let sum = integrate(&sensor(), Illuminant::D65, &rayleigh);
    let (x, y) = chroma(sum);
    let rgb = srgb(sum);
    assert!(x < 0.28 && y < 0.33, "scattered sky chromaticity ({x},{y}) not blue");
    assert!(rgb[2] > rgb[0], "sky: blue channel must exceed red, got {rgb:?}");
}

#[test]
fn sunset_transmitted_is_red() {
    let k = 1.5_f32;
    let sum = integrate(&sensor(), Illuminant::D65, &|nm| (-k * rayleigh(nm)).exp());
    let (x, _y) = chroma(sum);
    let rgb = srgb(sum);
    assert!(x > 0.40, "sunset chromaticity x={x} not warm/red enough");
    assert!(rgb[0] > rgb[2], "sunset: red channel must exceed blue, got {rgb:?}");
}

fn smooth(nm: f32) -> f32 {
    0.5 + 0.3 * ((nm - 555.0) / 120.0).cos()
}

fn bumpy(nm: f32) -> f32 {
    let g = |c: f32, w: f32| (-((nm - c) / w).powi(2)).exp();
    (0.55 * g(450.0, 25.0) + 0.75 * g(540.0, 25.0) + 0.65 * g(610.0, 25.0)).clamp(0.0, 1.0)
}

#[test]
fn pair_is_distinct_spectra() {
    let diff: f32 = (400..700)
        .step_by(20)
        .map(|n| (smooth(n as f32) - bumpy(n as f32)).abs())
        .sum();
    assert!(diff > 0.5, "curves must differ materially as spectra, got {diff}");
}

#[test]
fn illuminant_swap_changes_color_relationship() {
    let sensor = sensor();
    let gap = |ill: Illuminant| {
        let a = chroma(integrate(&sensor, ill, &smooth));
        let b = chroma(integrate(&sensor, ill, &bumpy));
        ((a.0 - b.0).powi(2) + (a.1 - b.1).powi(2)).sqrt()
    };
    let d_d65 = gap(Illuminant::D65);
    let d_a = gap(Illuminant::A);
    assert!(
        (d_a - d_d65).abs() > 1e-3,
        "color relationship must shift with illuminant: d65={d_d65}, a={d_a}"
    );
}

const STEP: f32 = 5.0;

fn nms() -> Vec<f32> {
    let mut out = Vec::new();
    let mut nm = LAMBDA_MIN;
    while nm <= LAMBDA_MAX {
        out.push(nm);
        nm += STEP;
    }
    out
}

fn spectral_shade(sensor: &Sensor, nms: &[f32], light: &[f32], rho: &[f32]) -> [f32; 3] {
    let mut sum = [0.0f32; 3];
    for (i, &nm) in nms.iter().enumerate() {
        let p = light[i] * rho[i];
        let (x, y, z) = cmf(sensor, nm);
        sum[0] += p * x * STEP;
        sum[1] += p * y * STEP;
        sum[2] += p * z * STEP;
    }
    sum
}

fn albedo_xyz(sensor: &Sensor, nms: &[f32], rho: &[f32]) -> [f32; 3] {
    let (mut num, mut den) = ([0.0f32; 3], [0.0f32; 3]);
    for (i, &nm) in nms.iter().enumerate() {
        let (x, y, z) = cmf(sensor, nm);
        num[0] += rho[i] * x;
        num[1] += rho[i] * y;
        num[2] += rho[i] * z;
        den[0] += x;
        den[1] += y;
        den[2] += z;
    }
    [num[0] / den[0], num[1] / den[1], num[2] / den[2]]
}

fn rgb_transport_shade(sensor: &Sensor, nms: &[f32], light: &[f32], rho: &[f32]) -> [f32; 3] {
    let white = vec![1.0f32; nms.len()];
    let light_xyz = spectral_shade(sensor, nms, light, &white);
    let a = albedo_xyz(sensor, nms, rho);
    [light_xyz[0] * a[0], light_xyz[1] * a[1], light_xyz[2] * a[2]]
}

fn light_of(sensor: &Sensor, nms: &[f32], ill: Illuminant) -> Vec<f32> {
    nms.iter().map(|&n| power(sensor, ill, n)).collect()
}

#[test]
fn achromatic_surface_matches_rgb() {
    let sensor = sensor();
    let nms = nms();
    let light = light_of(&sensor, &nms, Illuminant::D65);
    let rho = vec![0.6f32; nms.len()];
    let g = spectral_shade(&sensor, &nms, &light, &rho);
    let r = rgb_transport_shade(&sensor, &nms, &light, &rho);
    for c in 0..3 {
        let rel = (g[c] - r[c]).abs() / g[c].max(1e-6);
        assert!(rel < 1e-3, "channel {c}: spectral {} vs rgb {} (rel {rel})", g[c], r[c]);
    }
}

/// A spectrum that all three colour matching functions miss.
fn metameric_black(sensor: &Sensor, nms: &[f32]) -> Vec<f32> {
    let dot = |a: &[f32], b: &[f32]| a.iter().zip(b).map(|(x, y)| x * y).sum::<f32>();
    let xb: Vec<f32> = nms.iter().map(|&n| cmf(sensor, n).0).collect();
    let yb: Vec<f32> = nms.iter().map(|&n| cmf(sensor, n).1).collect();
    let zb: Vec<f32> = nms.iter().map(|&n| cmf(sensor, n).2).collect();
    let mut basis: Vec<Vec<f32>> = Vec::new();
    for curve in [xb, yb, zb] {
        let mut u = curve.clone();
        for e in &basis {
            let d = dot(&u, e);
            for i in 0..u.len() {
                u[i] -= d * e[i];
            }
        }
        let norm = dot(&u, &u).sqrt();
        if norm > 1e-6 {
            for x in u.iter_mut() {
                *x /= norm;
            }
            basis.push(u);
        }
    }
    let tau = std::f32::consts::TAU;
    let mut w: Vec<f32> =
        nms.iter().map(|&n| ((n - 380.0) / 350.0 * 3.0 * tau).sin()).collect();
    for e in &basis {
        let d = dot(&w, e);
        for i in 0..w.len() {
            w[i] -= d * e[i];
        }
    }
    w
}

#[test]
fn metameric_pair_conflated_by_rgb_separated_by_spectral() {
    let sensor = sensor();
    let nms = nms();
    let delta = metameric_black(&sensor, &nms);
    let maxd = delta.iter().fold(0.0f32, |m, &x| m.max(x.abs())).max(1e-6);
    let alpha = 0.35 / maxd;
    let rho1 = vec![0.5f32; nms.len()];
    let rho2: Vec<f32> = (0..nms.len()).map(|i| 0.5 + alpha * delta[i]).collect();
    assert!(rho2.iter().all(|&r| (0.0..=1.0).contains(&r)), "rho2 left [0,1]; lower alpha");

    let a1 = albedo_xyz(&sensor, &nms, &rho1);
    let a2 = albedo_xyz(&sensor, &nms, &rho2);
    for c in 0..3 {
        assert!(
            (a1[c] - a2[c]).abs() < 1e-4,
            "albedo channel {c} differs: {} vs {}",
            a1[c],
            a2[c]
        );
    }

    let a_light = light_of(&sensor, &nms, Illuminant::A);
    let (x1, y1) = chroma(spectral_shade(&sensor, &nms, &a_light, &rho1));
    let (x2, y2) = chroma(spectral_shade(&sensor, &nms, &a_light, &rho2));
    let de = ((x1 - x2).powi(2) + (y1 - y2).powi(2)).sqrt();
    assert!(de > 5e-3, "spectral should separate the metamers under A, got dE {de}");
}

fn gaussian(nms: &[f32], center: f32, width: f32) -> Vec<f32> {
    nms.iter().map(|&n| (-((n - center) / width).powi(2)).exp()).collect()
}

#[test]
fn narrowband_light_on_notch_surface_diverges() {
    let sensor = sensor();
    let nms = nms();
    let light = gaussian(&nms, 589.0, 8.0);
    let notch = gaussian(&nms, 589.0, 40.0);
    let rho: Vec<f32> = notch.iter().map(|g| 1.0 - g).collect();
    let g = spectral_shade(&sensor, &nms, &light, &rho);
    let r = rgb_transport_shade(&sensor, &nms, &light, &rho);
    let white = vec![1.0f32; nms.len()];
    let g_white = spectral_shade(&sensor, &nms, &light, &white);
    assert!(
        g[1] < 0.05 * g_white[1],
        "spectral should be ~black: {} vs white {}",
        g[1],
        g_white[1]
    );
    assert!(
        r[1] > 0.5 * g_white[1],
        "rgb transport should stay bright (can't see the notch): {} vs white {}",
        r[1],
        g_white[1]
    );
}

fn prism_picture() -> (Scene, Beam, Camera) {
    dsotm_scene(half_tan(42.0), s(1.0))
}

type States = Vec<(Vector, Vector)>;

/// One photon of a beam: the origin and direction of every segment, and the
/// wavelength. `fixed` replaces the drawn wavelength, and takes four draws for
/// every segment as an estimator does that places points along it.
fn simulate_photon(
    scene: &Scene,
    beam: &Beam,
    photon: u32,
    seed: u32,
    fixed: Option<f32>,
) -> (States, f32) {
    let mut rng = PathRng::new(photon, seed);
    let u = beam.u.times(rng.next_f32());
    let w = beam.v.times(rng.next_f32());
    let origin = beam.corner.plus(u).plus(w);
    let drawn = LAMBDA_MIN + LAMBDA_RANGE * f(rng.next_f32());
    let lambda = fixed.unwrap_or(drawn);
    let mut states: States = vec![(origin, beam.dir)];
    let (mut ro, mut rd) = (origin, beam.dir);
    for _ in 0..8 {
        let hit = scene.intersect(&Ray { origin: ro, dir: rd });
        if fixed.is_some() {
            for _ in 0..4 {
                rng.next_f32();
            }
        }
        let Some((h, mat)) = hit else { break };
        let n_hero = path_index(&mat, s(lambda));
        match mat.scatter(rd, &h, s(lambda), n_hero, &mut rng, &turn) {
            Some(sc) => {
                ro = h.point;
                rd = sc.dir;
                states.push((ro, rd));
            }
            None => break,
        }
    }
    (states, lambda)
}

#[test]
fn forward_parity_cpu_deterministic() {
    let (scene, beam, _cam) = prism_picture();
    for idx in [0u32, 1, 5, 10, 100] {
        let (states_a, lambda_a) = simulate_photon(&scene, &beam, idx, 42, None);
        let (states_b, lambda_b) = simulate_photon(&scene, &beam, idx, 42, None);
        assert_eq!(lambda_a.to_bits(), lambda_b.to_bits(), "photon {idx}: lambda not deterministic");
        assert_eq!(states_a.len(), states_b.len(), "photon {idx}: bounce count not deterministic");
        for (i, ((oa, da), (ob, db))) in states_a.iter().zip(states_b.iter()).enumerate() {
            assert!(f(oa.minus(*ob).length()) < 1e-5, "photon {idx} bounce {i}: origin");
            assert!(f(da.minus(*db).length()) < 1e-5, "photon {idx} bounce {i}: dir");
        }
    }
}

#[test]
fn forward_parity_tir_boundary_detected() {
    let (scene, beam, _cam) = prism_picture();
    let states = |idx: u32, lambda: f32| simulate_photon(&scene, &beam, idx, 42, Some(lambda)).0;
    let found = (0..5000u32).find(|&idx| states(idx, 400.0).len() != states(idx, 680.0).len());
    assert!(found.is_some(), "no photon takes another path in violet than in red");
    let idx = found.unwrap();
    assert_ne!(
        states(idx, 400.0).len(),
        states(idx, 680.0).len(),
        "Expected different bounce counts for violet vs red at photon {idx}"
    );
}

/// Past the critical angle the exit face of the prism reflects.
#[test]
fn the_prism_reflects_past_its_critical_angle() {
    let n = Glass::Sf11.n(s(400.0));
    let shallow = v(0.9, -0.436, 0.0).normalize();
    assert!(refract(shallow, v(0.0, 1.0, 0.0), n, s(1.0)).is_none());
}

/// A pixel that something nearer covers gets no haze.
#[test]
fn depths_hide_the_haze() {
    let (w, h) = (16usize, 16usize);
    let (scene, beam, cam) = prism_picture();
    let sensor = sensor();
    let render = |depth: f32| {
        let zbuf = vec![s(depth); w * h];
        render_volumetric_scene_point(
            &scene, &cam, &beam, w, h, 300, s(0.5), s(0.06), s(0.5), s(14.0), &zbuf, 7, &sensor,
            &turn, &three_halves, &exp,
        )
    };
    let open: f32 = render(f32::INFINITY).iter().map(|p| f(p.y)).sum();
    let covered: f32 = render(0.01).iter().map(|p| f(p.y)).sum();
    assert!(open > 0.0);
    assert_eq!(covered, 0.0);
}

/// The isotropic estimator lights the beam too, and only with its density.
#[test]
fn isotropic_haze_scales_with_its_density() {
    let (w, h) = (24usize, 24usize);
    let (scene, beam, cam) = prism_picture();
    let sensor = sensor();
    let render = |density: f32| {
        render_volumetric(
            &scene, &cam, &beam, w, h, 400, s(density), s(14.0), 5, &sensor, &turn,
        )
    };
    let thin: f32 = render(1.0).iter().map(|p| f(p.y)).sum();
    let thick: f32 = render(2.0).iter().map(|p| f(p.y)).sum();
    assert!(thin > 0.0);
    assert!((thick - 2.0 * thin).abs() <= 1e-4 * thick, "{thick} vs {thin}");
}

/// Nearer solids and fewer photons leave no pixel brighter, and solids at the
/// eye hide everything.
#[test]
fn solids_only_take_light_away() {
    let (w, h) = (12usize, 12usize);
    let (scene, beam, cam) = prism_picture();
    let sensor = sensor();
    let near: Vec<Scalar> = (0..w * h).map(|i| s(2.0 + (i % 7) as f32)).collect();
    let far: Vec<Scalar> = (0..w * h).map(|i| s(2.5 + (i % 7) as f32 * 2.0)).collect();
    let eye = vec![s(0.001); w * h];
    let beams = |n: u32, z: &Vec<Scalar>| {
        render_volumetric_scene(
            &scene, &cam, &beam, w, h, n, s(0.5), s(0.06), s(0.5), s(14.0), z, 7, &sensor, &turn,
            &three_halves, &exp,
        )
    };
    let points = |n: u32, z: &Vec<Scalar>| {
        render_volumetric_scene_point(
            &scene, &cam, &beam, w, h, n, s(0.5), s(0.06), s(0.5), s(14.0), z, 7, &sensor, &turn,
            &three_halves, &exp,
        )
    };
    let darker = |a: &[Xyz], b: &[Xyz]| {
        a.iter().zip(b).all(|(p, q)| (0..3).all(|c| xyz(*p)[c] <= xyz(*q)[c]))
    };
    let bright = points(300, &far);
    assert!(bright.iter().any(|p| f(p.y) > 0.0));
    assert!(darker(&points(300, &near), &bright));
    assert!(darker(&points(200, &far), &bright));
    let bright = beams(20, &far);
    assert!(bright.iter().any(|p| f(p.y) > 0.0));
    assert!(darker(&beams(20, &near), &bright));
    assert!(darker(&beams(15, &near), &bright));
    assert!(points(300, &eye).iter().chain(&beams(20, &eye)).all(|p| xyz(*p) == [0.0; 3]));
}

/// A haze without density, and one without photons, gives no light; one of
/// twice the density gives exactly twice the light.
#[test]
fn light_doubles_with_the_density() {
    let (w, h) = (12usize, 12usize);
    let (scene, beam, cam) = prism_picture();
    let sensor = sensor();
    let open = vec![s(f32::INFINITY); w * h];
    let render = |n: u32, density: f32| {
        render_volumetric_scene_point(
            &scene, &cam, &beam, w, h, n, s(density), s(0.06), s(0.5), s(14.0), &open, 7, &sensor,
            &turn, &three_halves, &exp,
        )
    };
    let thin = render(300, 0.5);
    let thick = render(300, 1.0);
    assert!(thin.iter().any(|p| f(p.y) > 0.0));
    for (p, q) in thin.iter().zip(&thick) {
        assert_eq!(xyz(*p).map(|c| 2.0 * c), xyz(*q));
    }
    assert!(render(300, 0.0).iter().chain(&render(0, 0.5)).all(|p| xyz(*p) == [0.0; 3]));
}

/// A table takes the first three curves of its rows, however many are asked for.
#[test]
fn further_columns_are_left_out() {
    let rows = vec![
        vec![s(400.0), s(1.0), s(2.0), s(3.0), s(4.0)],
        vec![s(500.0), s(5.0), s(6.0), s(7.0), s(8.0)],
    ];
    let three = Table::parse(&rows, 3).expect("whole rows");
    let four = Table::parse(&rows, 4).expect("whole rows");
    let ones = || table(&[4]);
    let a = Sensor::new(three, ones(), ones()).expect("filled tables");
    let b = Sensor::new(four, ones(), ones()).expect("filled tables");
    assert_eq!(cmf(&a, 450.0), (3.0, 4.0, 5.0));
    assert_eq!(cmf(&a, 450.0), cmf(&b, 450.0));
}

/// A photon that meets nothing but the screen takes no draws.
#[test]
fn a_photon_past_everything_takes_no_draws() {
    let mut rng = PathRng::new(3, 9);
    let mut kept = PathRng::new(3, 9);
    let ray = Ray { origin: v(0.0, 0.5, 0.0), dir: v(1.0, 0.0, 0.0) };
    let found = trace_photon(&Scene::new(), &make_screen(), ray, s(550.0), &mut rng, &turn);
    assert!(found.is_some());
    assert_eq!(rng.next_u32(), kept.next_u32());
}
