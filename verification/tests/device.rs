//! The host's half of the device programs: layouts, films and dispatches.
use spectral::binding::blit_layout;
use spectral::binding::film_layout;
use spectral::binding::photon_layout;
use spectral::binding::resolve_layout;
use spectral::binding::Access;
use spectral::binding::Binding;
use spectral::binding::Stage;
use spectral::bytes::bytes_to_words;
use spectral::bytes::words_to_bytes;
use spectral::camera::Camera;
use spectral::cie::Illuminant;
use spectral::device::GpuTracer;
use spectral::film::check_determinism;
use spectral::film::groups;
use spectral::film::AtomicFilm;
use spectral::film::FilmParams;
use spectral::geom::ConvexSolid;
use spectral::material::Material;
use spectral::photons::camera_proj_params;
use spectral::photons::depth_buffer;
use spectral::photons::read_debug;
use spectral::photons::GpuPhotonFilm;
use spectral::photons::VolWeights;
use spectral::photons::DEBUG_BYTES;
use spectral::photons::DEBUG_MAX_PAIRS;
use spectral::photons::DEBUG_WORDS;
use spectral::photons::MAX_PER_DISPATCH;
use spectral::picture::dsotm_scene;
use spectral::scalar::Scalar;
use spectral::scene::Scene;
use spectral::sellmeier::Glass;
use spectral::sorting::sort;
use spectral::upload::flatten_scene;
use spectral::upload::material_words;
use spectral::upload::plane_words;
use spectral::upload::primitive_words;
use spectral::vector::Vector;

const W: usize = 32;
const H: usize = 32;

fn s(x: f32) -> Scalar {
    Scalar::from_bits(x.to_bits())
}

fn f(x: Scalar) -> f32 {
    f32::from_bits(x.to_bits())
}

fn v(x: f32, y: f32, z: f32) -> Vector {
    Vector::new(s(x), s(y), s(z))
}

fn gamma_root(x: Scalar) -> Scalar {
    s(f(x).powf(1.0 / 2.4))
}

fn look_at(origin: Vector, target: Vector, vfov_deg: f32, aspect: f32) -> Camera {
    let half_tan = s((vfov_deg.to_radians() / 2.0).tan());
    Camera::look_at(origin, target, v(0.0, 1.0, 0.0), half_tan, s(aspect))
}

fn photon_film(w: usize, h: usize) -> GpuPhotonFilm {
    let (scene, beam, camera) = dsotm_scene(s((42.0_f32.to_radians() / 2.0).tan()), s(1.0));
    GpuPhotonFilm::new(&scene, &camera, &beam, w, h, 1000, 7, s(14.0), VolWeights::default())
}

#[test]
fn vol1_resolve_arithmetic() {
    // One splat of xyz = (1.0, 0.5, 0.25) at pixel 0, one of (0.5, 1.5, 0.0) at pixel 5.
    let raw: Vec<u32> = {
        let mut values = vec![0u32; 3 * W * H];
        values[0] = 4096;
        values[1] = 2048;
        values[2] = 1024;
        values[15] = 2048;
        values[16] = 6144;
        values[17] = 0;
        values
    };
    let mut film = AtomicFilm::new(W, H);
    film.resolve(&raw);
    let accum: Vec<f32> = film.accum().iter().map(|x| f(*x)).collect();

    let tol = 1.0 / 4096.0 + f32::EPSILON * 10.0;
    assert!((accum[0] - 1.0).abs() < tol, "px0.X expected 1.0, got {}", accum[0]);
    assert!((accum[1] - 0.5).abs() < tol, "px0.Y expected 0.5, got {}", accum[1]);
    assert!((accum[2] - 0.25).abs() < tol, "px0.Z expected 0.25, got {}", accum[2]);
    assert!((accum[15] - 0.5).abs() < tol, "px5.X expected 0.5, got {}", accum[15]);
    assert!((accum[16] - 1.5).abs() < tol, "px5.Y expected 1.5, got {}", accum[16]);
    assert!((accum[17] - 0.0).abs() < tol, "px5.Z expected 0.0, got {}", accum[17]);
}

/// Resolving adds, an empty film adds nothing, and clearing takes all away.
#[test]
fn films_accumulate_and_clear() {
    let mut film = AtomicFilm::new(2, 1);
    let raw = vec![4096, 0, 8192, 1, 2, 3];
    film.resolve(&raw);
    film.resolve(&raw);
    let twice: Vec<f32> = film.accum().iter().map(|x| f(*x)).collect();
    assert_eq!(twice[0], 2.0);
    assert_eq!(twice[2], 4.0);
    assert_eq!(twice[5], 6.0 / 4096.0);
    film.resolve(&vec![0; 6]);
    assert_eq!(film.accum().iter().map(|x| f(*x)).collect::<Vec<f32>>(), twice);
    film.clear_accum();
    assert!(film.accum().iter().all(|x| f(*x) == 0.0));
    assert_eq!(film.dims(), (2, 1));
    assert_eq!(film.film_bytes(), 24);
}

#[test]
fn splat_runs_are_described() {
    let film = AtomicFilm::new(W, H);
    let (params, n) = film.splat(0xDEAD_BEEF, 4097);
    assert_eq!(params, FilmParams { width: 32, height: 32, n_splats: 4097, seed: 0xDEAD_BEEF });
    assert_eq!(params.to_words(), vec![32, 32, 4097, 0xDEAD_BEEF]);
    assert_eq!(n, 65);
    assert_eq!(groups(0, 64), 0);
    assert_eq!(groups(64, 64), 1);
    assert_eq!(groups(65, 64), 2);
}

#[test]
fn runs_are_compared_value_by_value() {
    assert_eq!(check_determinism(&vec![1, 2, 3], &vec![1, 2, 3]), Ok(()));
    assert_eq!(check_determinism(&vec![1, 2, 3], &vec![1, 5, 4]), Err((1, 2, 5)));
    assert_eq!(check_determinism(&vec![1, 2, 3], &vec![1, 2]), Ok(()));
}

/// The peak exposure is the scale over the brightest luminance, at least one.
#[test]
fn peak_exposure_follows_the_brightest_pixel() {
    let mut film = AtomicFilm::new(2, 1);
    assert_eq!(f(film.auto_expose_accum(s(2.0))), 2.0 / 1e-6);
    film.resolve(&vec![0, 1024, 0, 0, 2048, 0]);
    assert_eq!(f(film.auto_expose_accum(s(2.0))), 4.0);
    film.resolve(&vec![0, 0, 0, 0, 40960, 0]);
    assert_eq!(f(film.auto_expose_accum(s(2.0))), 1.0);
}

#[test]
fn films_are_shown_in_bytes() {
    let mut film = AtomicFilm::new(2, 1);
    film.resolve(&vec![3893, 4096, 4461, 0, 0, 0]);
    let rgb = film.to_rgb8(s(1.0), &gamma_root);
    assert_eq!(rgb.len(), 6);
    for c in &rgb[0..3] {
        assert!((187..=189).contains(c), "white at exposure one is half bright: {rgb:?}");
    }
    assert_eq!(&rgb[3..6], &[0, 0, 0]);
}

#[test]
fn words_and_bytes_are_inverse() {
    let words = vec![0x0102_0304u32, 0, u32::MAX, 7];
    let bytes = words_to_bytes(&words);
    assert_eq!(bytes.len(), 16);
    assert_eq!(&bytes[0..4], &0x0102_0304u32.to_ne_bytes());
    assert_eq!(bytes_to_words(&bytes), Some(words.clone()));
    assert_eq!(AtomicFilm::new(1, 1).read_film_raw(&bytes), Some(words));
    assert_eq!(bytes_to_words(&vec![1, 2, 3]), None);
}

#[test]
fn structs_are_std430_sized() {
    let mut scene = Scene::new();
    scene.add_solid(
        ConvexSolid::axis_box(v(-1.0, -1.0, -1.0), v(1.0, 1.0, 1.0)),
        Material::Dielectric { glass: Glass::Sf11 },
    );
    let (prims, planes, mats) = flatten_scene(&scene);
    assert_eq!(4 * primitive_words(&prims).len() / prims.len() % 16, 0);
    assert_eq!(4 * material_words(&mats).len() / mats.len() % 16, 0);
    assert_eq!(4 * plane_words(&planes).len() / planes.len(), 16);
}

#[test]
fn scenes_are_flattened_in_order() {
    let mut scene = Scene::new();
    scene.add_sphere(v(1.0, 2.0, 3.0), s(4.0), Material::Lambertian { reflectance: s(0.25) });
    scene.add_solid(
        ConvexSolid::axis_box(v(-1.0, -1.0, -1.0), v(1.0, 1.0, 1.0)),
        Material::Dielectric { glass: Glass::Water },
    );
    let (prims, planes, mats) = flatten_scene(&scene);
    assert_eq!((prims.len(), planes.len(), mats.len()), (2, 6, 2));
    assert_eq!((prims[0].kind, prims[1].kind), (0, 1));
    assert_eq!((prims[1].plane_start, prims[1].plane_count), (0, 6));
    assert_eq!(prims[1].material, 1);
    assert_eq!((mats[0].kind, f(mats[0].reflectance)), (0, 0.25));
    assert_eq!((mats[1].kind, mats[1].glass), (1, 2));
    assert_eq!(f(planes[0].d), -1.0);

    let (prims, planes, mats) = flatten_scene(&Scene::new());
    assert_eq!((prims.len(), planes.len(), mats.len()), (1, 1, 1));
    assert_eq!(prims[0].kind, 99);
}

#[test]
fn layouts_number_their_buffers() {
    for (layout, len) in [
        (film_layout(), 2),
        (photon_layout(), 8),
        (resolve_layout(), 2),
        (blit_layout(), 3),
    ] {
        assert_eq!(layout.len(), len);
        for (i, b) in layout.iter().enumerate() {
            assert_eq!(b.binding as usize, i);
        }
    }
    assert_eq!(
        photon_layout()[5],
        Binding {
            binding: 5,
            visibility: Stage::Compute,
            access: Access::Storage { read_only: false },
        }
    );
    assert_eq!(blit_layout()[2].access, Access::Uniform);
    assert_eq!(blit_layout()[0].visibility, Stage::Fragment);
}

#[test]
fn debug_photon_layout_is_304_bytes() {
    assert_eq!(DEBUG_BYTES, 304);
    assert_eq!(4 * DEBUG_WORDS, 304);
    assert_eq!(DEBUG_BYTES % 16, 0);
    assert_eq!(DEBUG_WORDS, 4 + 2 * 4 * DEBUG_MAX_PAIRS);
}

#[test]
fn debug_records_are_read_in_order() {
    let mut words: Vec<u32> = (0..2 * DEBUG_WORDS as u32).collect();
    words[1] = 550.0f32.to_bits();
    let records = read_debug(&words);
    assert_eq!(records.len(), 2);
    assert_eq!(records[0].num_states, 0);
    assert_eq!(f(records[0].lambda), 550.0);
    assert_eq!(records[0].states[0].x.to_bits(), 4);
    assert_eq!(records[0].states[17].w.to_bits(), 75);
    assert_eq!(records[1].num_states, 76);
    assert_eq!(records[1].states[3].y.to_bits(), 76 + 4 + 13);
}

/// The chunks of a run take every photon once.
#[test]
fn chunks_tile_the_photons() {
    assert_eq!(GpuPhotonFilm::trace_chunked(0), Vec::<u32>::new());
    assert_eq!(GpuPhotonFilm::trace_chunked(1), vec![0]);
    assert_eq!(GpuPhotonFilm::trace_chunked(MAX_PER_DISPATCH), vec![0]);
    assert_eq!(GpuPhotonFilm::trace_chunked(MAX_PER_DISPATCH + 1), vec![0, MAX_PER_DISPATCH]);
    assert_eq!(GpuPhotonFilm::trace_chunked(16_000_000), vec![0, 4_000_000, 8_000_000, 12_000_000]);
    let mut film = photon_film(4, 4);
    let mut run = 0u64;
    for base in GpuPhotonFilm::trace_chunked(9_000_001) {
        let n = film.dispatch_photons(base, 9_000_001, 3) as u64;
        assert!(n <= 65535);
        run += (64 * n).min(9_000_001 - base as u64);
        assert_eq!(film.params.photon_base, base);
    }
    assert_eq!(run, 9_000_001);
}

#[test]
fn photon_films_start_dispersing_and_dark() {
    let film = photon_film(6, 4);
    assert!(film.spectral());
    assert_eq!(film.accum().len(), 72);
    assert!(film.accum().iter().chain(film.surface().iter()).all(|x| f(*x) == 0.0));
    let words = film.params.to_words();
    assert_eq!(words.len(), 48);
    assert_eq!(&words[0..3], &[1, 1000, 7]);
    assert_eq!(f32::from_bits(words[3]), 14.0);
    assert_eq!(&words[4..8], &[6, 4, 0, 0]);
    assert_eq!(f32::from_bits(words[8]), -2.6);
    assert_eq!(f32::from_bits(words[40]), 0.5);
    assert_eq!(f32::from_bits(words[41]), 0.06);
    assert_eq!(&words[43..48], &[0, 1, 0, 0, 0]);
    assert_eq!(film.film_bytes(), 288);
}

/// Dispersion switched off and on again is what it was.
#[test]
fn dispersion_toggles_back() {
    let mut film = photon_film(2, 2);
    let before = film.params;
    film.set_spectral(false);
    assert!(!film.spectral());
    assert_eq!(film.params.spectral, 0);
    film.set_spectral(true);
    assert_eq!(film.params, before);
}

#[test]
fn debug_runs_record_what_there_is() {
    let mut film = photon_film(2, 2);
    let run = film.trace_debug(512, 42, 512);
    assert_eq!((run.count, run.groups, run.bytes), (512, 8, 512 * 304));
    assert_eq!((film.params.debug_mode, film.params.debug_count), (1, 512));
    assert_eq!(film.trace_debug(10, 42, 512).count, 10);
    assert_eq!(film.trace_debug(100_000, 42, 5000).count, 2048);
    film.end_debug();
    assert_eq!((film.params.debug_mode, film.params.debug_count), (0, 0));
}

/// The surface is overwritten and the haze added to; the picture shows both.
#[test]
fn surface_and_haze_are_shown_together() {
    let mut film = photon_film(2, 1);
    let one = 8_388_608u32;
    let (_, _, camera) = dsotm_scene(s(0.5), s(1.0));
    assert_eq!(film.recompute_surface(&camera), (1, 1));
    film.resolve_surface(&vec![0, one, 0, 0, 0, 0]);
    film.resolve_surface(&vec![0, one / 2, 0, 0, 0, 0]);
    film.resolve(&vec![0, one, 0, 0, one, 0]);
    film.resolve(&vec![0, one, 0, 0, one, 0]);
    assert_eq!(f(film.surface()[1]), 0.5);
    assert_eq!(f(film.accum()[1]), 2.0);
    assert_eq!(f(film.auto_expose(s(5.0))), 2.0);
    assert_eq!(film.auto_expose_p997().map(f), Some(1.0 / 2.5));
    assert_eq!(film.to_rgb8(s(1.0), &gamma_root).len(), 6);
}

/// The percentile exposure against a sort on the machine.
#[test]
fn percentile_exposure_agrees_with_a_sort() {
    let (w, h) = (40usize, 25usize);
    let mut film = photon_film(w, h);
    let raw: Vec<u32> = (0..(3 * w * h) as u32).map(|i| i.wrapping_mul(2_654_435_761) >> 8).collect();
    film.resolve(&raw);
    let mut lums: Vec<f32> = (0..w * h).map(|i| f(film.accum()[3 * i + 1])).collect();
    lums.sort_by(|a, b| a.partial_cmp(b).unwrap());
    let n = w * h;
    let p = lums[((n as f32 * 0.997) as usize).min(n - 1)].max(1e-9);
    assert_eq!(film.auto_expose_p997().map(f), Some(1.0 / p));
}

#[test]
fn luminances_that_are_no_numbers_have_no_percentile() {
    let mut film = photon_film(2, 1);
    film.accum[4] = s(f32::NAN);
    assert!(film.auto_expose_p997().is_none());
    assert!(sort(&vec![s(1.0), s(f32::NAN)]).is_none());
    // One pixel alone needs no order.
    let mut alone = photon_film(1, 1);
    alone.accum[1] = s(f32::NAN);
    assert_eq!(alone.auto_expose_p997().map(f), Some(1.0 / 1e-9));
    let sorted = sort(&vec![s(3.0), s(-1.0), s(2.0), s(-1.0)]).expect("numbers");
    assert_eq!(sorted.into_iter().map(f).collect::<Vec<f32>>(), vec![-1.0, -1.0, 2.0, 3.0]);
}

#[test]
fn depths_default_to_infinity() {
    assert!(depth_buffer(None, 3).iter().all(|d| f(*d) == f32::INFINITY));
    let given = vec![s(1.0), s(2.0)];
    assert_eq!(depth_buffer(Some(&given), 2), given);
}

/// The projection that the device gets is the one that the camera projects
/// with.
#[test]
fn device_projection_is_the_cameras() {
    let cam = look_at(v(0.0, 1.0, 5.0), v(0.0, 0.0, 0.0), 50.0, 1.5);
    let (o, u, t, w) = camera_proj_params(&cam);
    assert_eq!((f(o.x), f(o.y), f(o.z), f(o.w)), (0.0, 1.0, 5.0, 0.0));
    let p = v(0.3, -0.2, 0.1);
    let d = p.minus(cam.origin());
    let along = |q: &spectral::photons::Quad| f(d.x) * f(q.x) + f(d.y) * f(q.y) + f(d.z) * f(q.z);
    let c = along(&w);
    let (ps, pt, depth) = cam.project(p).expect("in frame");
    assert!((f(ps) - (0.5 + along(&u) / (-c * f(u.w)))).abs() < 1e-6);
    assert!((f(pt) - (0.5 + along(&t) / (-c * f(t.w)))).abs() < 1e-6);
    assert!((f(depth) + c).abs() < 1e-5);
}

#[test]
fn path_tracer_parameters_follow_the_camera() {
    let mut scene = Scene::new();
    scene.background = s(0.25);
    let cam = look_at(v(0.0, 0.0, 0.0), v(0.0, 0.0, -1.0), 60.0, 1.0);
    let mut t = GpuTracer::new(&scene, &cam, 17, 16, Illuminant::A, 42);
    assert_eq!(t.accumulate(4), (3, 2));
    t.set_spectral(false);
    let words = t.params.to_words();
    assert_eq!(words.len(), 24);
    assert_eq!(&words[16..22], &[17, 16, 4, 42, 0, 1]);
    assert_eq!(f32::from_bits(words[22]), 0.25);
    assert_eq!(words[23], 0);
    let moved = look_at(v(1.0, 2.0, 3.0), v(0.0, 0.0, 0.0), 60.0, 1.0);
    t.set_camera(&moved);
    assert_eq!(f32::from_bits(t.params.to_words()[2]), 3.0);
    assert_eq!(t.dims(), (17, 16));
    assert_eq!(t.accum_bytes(), 17 * 16 * 16);
}

#[test]
fn device_sums_are_averaged() {
    let cam = look_at(v(0.0, 0.0, 0.0), v(0.0, 0.0, -1.0), 60.0, 1.0);
    let t = GpuTracer::new(&Scene::new(), &cam, 2, 1, Illuminant::D65, 1);
    let words: Vec<u32> =
        [2.0f32, 4.0, 6.0, 4.0, 1.0, 1.0, 1.0, 0.0, 9.0].iter().map(|x| x.to_bits()).collect();
    let image = t.read_xyz(&words);
    assert_eq!(image.len(), 2);
    assert_eq!((f(image[0].x), f(image[0].y), f(image[0].z)), (0.5, 1.0, 1.5));
    assert_eq!((f(image[1].x), f(image[1].y), f(image[1].z)), (0.0, 0.0, 0.0));
}
