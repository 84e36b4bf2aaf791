//! The viewer's command line, window and pictures.
use spectral::args::arg_value;
use spectral::args::parse_u32;
use spectral::args::read_request;
use spectral::args::Request;
use spectral::capture::depad;
use spectral::capture::padded_row;
use spectral::double::Double;
use spectral::picture::dsotm_scene;
use spectral::picture::orbit_camera;
use spectral::picture::Turn;
use spectral::scalar::Scalar;
use spectral::text::read_table;
use spectral::viewer::compute_exposure_p997;
use spectral::viewer::is_slow;
use spectral::viewer::resolve_grid;
use spectral::viewer::Accumulation;
use spectral::viewer::Action;
use spectral::viewer::Event;
use spectral::viewer::Key;
use spectral::viewer::State;
use spectral::viewer::PHOTONS_PER_FRAME;

fn s(x: f32) -> Scalar {
    Scalar::from_bits(x.to_bits())
}

fn f(x: Scalar) -> f32 {
    f32::from_bits(x.to_bits())
}

fn d(x: f64) -> Double {
    Double { bits: x.to_bits() }
}

fn args(words: &[&str]) -> Vec<String> {
    words.iter().map(|w| w.to_string()).collect()
}

#[test]
fn values_follow_the_first_key() {
    let line = args(&["viewer", "--mode", "rgb", "--mode", "spectral", "--frames"]);
    assert_eq!(arg_value(&line, "--mode"), Some("rgb".to_string()));
    assert_eq!(arg_value(&line, "--frames"), None);
    assert_eq!(arg_value(&line, "--capture"), None);
    assert_eq!(arg_value(&[], "--mode"), None);
}

#[test]
fn numbers_are_read_as_the_standard_library_does() {
    for text in [
        "0", "7", "400", "+5", "007", "4294967295", "4294967296", "99999999999", "", "+", "-1", "+-1",
        "1x", " 1", "1 ", "++1", "\u{661}",
    ] {
        assert_eq!(parse_u32(text), text.parse::<u32>().ok(), "{text:?}");
    }
}

#[test]
fn requests_are_read_from_the_command_line() {
    assert!(matches!(read_request(&args(&["viewer"])), Request::Window));
    assert!(matches!(read_request(&args(&["viewer", "--mode", "odd"])), Request::Window));
    match read_request(&args(&["viewer", "--capture", "/tmp/x.png", "--mode", "rgb", "--frames", "12"])) {
        Request::Picture(c) => {
            assert_eq!((c.path.as_str(), c.spectral, c.frames), ("/tmp/x.png", false, 12));
        }
        _ => panic!("a picture"),
    }
    match read_request(&args(&["viewer", "--frames", "many", "--capture"])) {
        Request::Picture(c) => {
            assert_eq!((c.path.as_str(), c.spectral, c.frames), ("/tmp/vol6_capture.png", true, 400));
        }
        _ => panic!("a picture"),
    }
    match read_request(&args(&["viewer", "--capture", "p", "--mode", "odd"])) {
        Request::UnknownMode(mode) => assert_eq!(mode, "odd"),
        _ => panic!("an unknown mode"),
    }
}

#[test]
fn keys_turn_the_camera() {
    let mut st = State::new();
    assert_eq!(st.window_event(Event::KeyPressed(Key::ArrowRight), true), Action::MoveCamera);
    assert_eq!(f(st.yaw), 0.08);
    st.window_event(Event::KeyPressed(Key::ArrowLeft), true);
    st.window_event(Event::KeyPressed(Key::ArrowLeft), true);
    assert_eq!(f(st.yaw), 0.08f32 - 0.08 - 0.08);
    for _ in 0..100 {
        st.window_event(Event::KeyPressed(Key::ArrowUp), true);
    }
    assert_eq!(f(st.pitch), 1.4);
    for _ in 0..100 {
        st.window_event(Event::KeyPressed(Key::ArrowDown), true);
    }
    assert_eq!(f(st.pitch), -1.4);
    assert_eq!(st.window_event(Event::KeyPressed(Key::Other), true), Action::Nothing);
    assert_eq!(st.window_event(Event::Other, true), Action::Nothing);
    assert_eq!(st.window_event(Event::RedrawRequested, true), Action::Render);
}

#[test]
fn escape_and_close_end_the_window() {
    let mut st = State::new();
    assert_eq!(st.window_event(Event::KeyPressed(Key::Escape), true), Action::Exit);
    assert_eq!(st.window_event(Event::CloseRequested, true), Action::Exit);
    assert_eq!(st, State::new());
}

#[test]
fn space_toggles_dispersion() {
    let mut st = State::new();
    let space = Event::KeyPressed(Key::Space);
    assert_eq!(st.window_event(space, true), Action::SetSpectral { on: false });
    assert_eq!(st.window_event(space, false), Action::SetSpectral { on: true });
}

#[test]
fn drags_turn_by_the_way_since_the_last_place() {
    let mut st = State::new();
    let at = |x: f64, y: f64| Event::CursorMoved { x: d(x), y: d(y) };
    assert_eq!(st.window_event(at(10.0, 10.0), true), Action::Nothing);
    assert_eq!(st.last_mouse, None);
    st.window_event(Event::LeftButton { pressed: true }, true);
    assert_eq!(st.window_event(at(10.0, 10.0), true), Action::Nothing);
    assert_eq!(st.window_event(at(110.25, 60.5), true), Action::MoveCamera);
    assert_eq!(f(st.yaw), 100.25f32 * 0.006);
    assert_eq!(f(st.pitch), 0.0 - 50.5f32 * 0.006);
    st.window_event(Event::LeftButton { pressed: false }, true);
    assert_eq!(st.last_mouse, None);
    assert!(!st.drag_active);
}

#[test]
fn frames_have_their_duties() {
    let mut st = State::new();
    for frame in 1..=130u32 {
        let duties = st.count_frame();
        assert_eq!(duties.measures_exposure, frame % 30 == 0);
        assert_eq!(duties.logs, frame <= 60 || frame % 20 == 0);
        assert_eq!(duties.photons, frame as u64 * 200_000);
    }
    assert!(is_slow(s(500.5)));
    assert!(!is_slow(s(500.0)));
}

#[test]
fn accumulation_counts_photons_and_seeds() {
    let mut a = Accumulation::new(700, 700);
    assert_eq!(a.accumulate_frame(), 0xD50);
    assert_eq!(a.accumulate_frame(), 0xD51);
    assert_eq!(a.total_photons, 2 * PHOTONS_PER_FRAME);
    a.set_exposure(s(2.5));
    let words = a.params.to_words();
    assert_eq!(&words[0..4], &[700, 700, 400_000, 0]);
    assert_eq!(
        words[4..8].iter().map(|w| f32::from_bits(*w)).collect::<Vec<f32>>(),
        vec![4_000_000.0, 2.5, 8_388_608.0, 2.0]
    );
    a.reset_accum();
    assert_eq!((a.total_photons, a.frame_seed, a.params.total_photons), (0, 0, 0));
    assert_eq!(f(a.params.exposure), 2.5);
    a.total_photons = u32::MAX - 5;
    a.accumulate_frame();
    assert_eq!(a.total_photons, u32::MAX);
    a.frame_seed = u32::MAX;
    assert_eq!(a.accumulate_frame(), 0xD4F);
    assert_eq!(a.frame_seed, 0);
}

/// Every channel has a lane of the draining program.
#[test]
fn the_resolve_grid_covers_all_channels() {
    assert_eq!(resolve_grid(0), (1024, 0));
    assert_eq!(resolve_grid(1), (1024, 1));
    assert_eq!(resolve_grid(65_536), (1024, 1));
    assert_eq!(resolve_grid(65_537), (1024, 2));
    let n = 3 * 1400 * 1400;
    let (gx, gy) = resolve_grid(n);
    assert!(gx as u64 * 64 * gy as u64 >= n as u64);
}

#[test]
fn viewer_exposure_agrees_with_the_formula() {
    let n = 500usize;
    let accum: Vec<u32> = (0..3 * n as u32).map(|i| i.wrapping_mul(2_654_435_761) >> 4).collect();
    let surface: Vec<f32> = (0..3 * n).map(|i| (i % 7) as f32 * 0.25).collect();
    let total = 600_000u32;
    let inv_n = 1.0 / (total.max(1) as f32);
    let k = (1.0 / 8_388_608.0f32) * inv_n * 4_000_000.0;
    let mut lums: Vec<f32> =
        (0..n).map(|i| accum[3 * i + 1] as f32 * k + surface[3 * i + 1]).collect();
    lums.sort_by(|a, b| a.partial_cmp(b).unwrap());
    let p = lums[((n as f32 * 0.997) as usize).min(n - 1)].max(1e-9);
    let soft: Vec<Scalar> = surface.iter().map(|x| s(*x)).collect();
    assert_eq!(compute_exposure_p997(&accum, &soft, total, n).map(f), Some(1.0 / p));
    let dark = compute_exposure_p997(&vec![0; 3], &vec![s(0.0); 3], 0, 1);
    assert_eq!(dark.map(f), Some(1.0 / 1e-9));
}

#[test]
fn rows_lose_their_padding() {
    assert_eq!(padded_row(700), 2816);
    assert_eq!(padded_row(64), 256);
    assert_eq!(padded_row(65), 512);
    let (w, h) = (65u32, 3u32);
    let stride = padded_row(w) as usize;
    let mut data = vec![0xEEu8; stride * h as usize];
    for y in 0..h as usize {
        for b in 0..4 * w as usize {
            data[y * stride + b] = ((y * 31 + b) % 251) as u8;
        }
    }
    let tight = depad(&data, w, h);
    assert_eq!(tight.len(), 4 * 65 * 3);
    for y in 0..h as usize {
        for b in 0..4 * w as usize {
            assert_eq!(tight[y * 260 + b], ((y * 31 + b) % 251) as u8);
        }
    }
}

/// Without a turn the orbit camera faces the prism from the front.
#[test]
fn the_orbit_starts_in_front() {
    let still = Turn { cos: s(1.0), sin: s(0.0) };
    let half_tan = s((42.0_f32.to_radians() / 2.0).tan());
    let cam = orbit_camera(still, still, s(12.0), half_tan, s(1.0));
    let eye = cam.origin();
    assert_eq!((f(eye.x), f(eye.y), f(eye.z)), (0.5, -0.5, 12.0));
    let (_, _, picture) = dsotm_scene(half_tan, s(1.0));
    assert_eq!(cam.view_basis(), picture.view_basis());
    let quarter = Turn { cos: s(0.0), sin: s(1.0) };
    let eye = orbit_camera(quarter, still, s(12.0), half_tan, s(1.0)).origin();
    assert_eq!((f(eye.x), f(eye.y), f(eye.z)), (12.5, -0.5, 0.0));
}

#[test]
fn tables_of_text_are_cut_into_cells() {
    let text: Vec<char> = "380, 1.5 ,2\r\n\n  \n385,\t3,4,5\n".chars().collect();
    let rows = read_table(&text, 3).expect("wide enough");
    let cells: Vec<Vec<String>> =
        rows.iter().map(|r| r.iter().map(|c| c.iter().collect()).collect()).collect();
    assert_eq!(cells, vec![vec!["380", "1.5", "2"], vec!["385", "3", "4"]]);
    assert!(read_table(&text, 4).is_none());
}
