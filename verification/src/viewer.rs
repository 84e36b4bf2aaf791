//! The live viewer: what its window's events do, what every frame adds, and
//! how bright the picture is shown.
use crate::arith::from_u64;
use crate::arith::integral;
use crate::double::Double;
use crate::film::ceil_div;
use crate::film::groups;
use crate::film::is_percentile_exposure;
use crate::film::percentile_exposure;
use crate::film::GROUP_LANES;
use crate::photons::PHOTON_SCALE_BITS;
use crate::picture::RADIUS_BITS;
use crate::order::lemma_sum_is_number;
use crate::scalar::lemma_magnitude_increases;
use crate::scalar::lemma_magnitude_sign;
use crate::scalar::Scalar;
use crate::scalar::ONE_BITS;
use crate::sorting::orderable;
use vstd::prelude::*;

verus! {

/// The side of the window.
pub const SIZE: u32 = 700;

/// The photons of one frame.
pub const PHOTONS_PER_FRAME: u32 = 200_000;

/// Encoding of four million: the photon count that every picture is scaled to,
/// so that more frames converge in noise and not in brightness.
pub const TARGET_N_BITS: u32 = 0x4a74_2400;

/// Encoding of 14: the length of a beam that leaves the scene.
pub const MAX_DIST_BITS: u32 = 0x4160_0000;

/// Encoding of two: the radius in pixels over which the picture is smoothed.
pub const KERNEL_RADIUS_BITS: u32 = 0x4000_0000;

/// Encoding of 2.5: the exposure until the first is measured.
pub const FIRST_EXPOSURE_BITS: u32 = 0x4020_0000;

/// The seed of the first frame.
pub const FIRST_SEED: u32 = 0xD50;

/// Encodings of 0.08 and 0.06: the turn of an arrow key.
pub const YAW_STEP_BITS: u32 = 0x3da3_d70a;

pub const PITCH_STEP_BITS: u32 = 0x3d75_c28f;

/// Encoding of 0.006: the turn for each pixel of a drag.
pub const DRAG_BITS: u32 = 0x3bc4_9ba6;

/// Encodings of 1.4 and -1.4: the pitch stays between them.
pub const PITCH_MAX_BITS: u32 = 0x3fb3_3333;

pub const PITCH_MIN_BITS: u32 = 0xbfb3_3333;

/// Encoding of 500: a frame that takes more milliseconds is warned of.
pub const SLOW_FRAME_BITS: u32 = 0x43fa_0000;

#[derive(Clone, Copy, Debug, PartialEq, Eq, Structural)]
pub enum Key {
    Escape,
    Space,
    ArrowLeft,
    ArrowRight,
    ArrowUp,
    ArrowDown,
    Other,
}

/// What happens at the window.
#[derive(Clone, Copy, Debug, PartialEq, Eq, Structural)]
pub enum Event {
    CloseRequested,
    KeyPressed(Key),
    LeftButton { pressed: bool },
    CursorMoved { x: Double, y: Double },
    RedrawRequested,
    Other,
}

/// What is to be done about it.
#[derive(Clone, Copy, Debug, PartialEq, Eq, Structural)]
pub enum Action {
    Nothing,
    Exit,
    SetSpectral { on: bool },
    MoveCamera,
    Render,
}

/// The state of the window: where the camera stands on its orbit, whether the
/// pointer drags it and where it was last, and the frames shown.
#[derive(Clone, Copy, Debug, PartialEq, Eq)]
pub struct State {
    pub yaw: Scalar,
    pub pitch: Scalar,
    pub radius: Scalar,
    pub drag_active: bool,
    pub last_mouse: Option<(Double, Double)>,
    pub frames: u32,
}

/// The pitch, kept in its range.
pub open spec fn limited(pitch: Scalar) -> Scalar {
    pitch.clamped(Scalar { bits: PITCH_MIN_BITS }, Scalar { bits: PITCH_MAX_BITS })
}

fn limit(pitch: Scalar) -> (r: Scalar)
    ensures
        r == limited(pitch),
{
    proof {
        lemma_magnitude_sign(PITCH_MAX_BITS as int);
    }
    pitch.clamp(Scalar { bits: PITCH_MIN_BITS }, Scalar { bits: PITCH_MAX_BITS })
}

/// The state after a key.
pub open spec fn after_key(s: State, key: Key) -> State {
    match key {
        Key::ArrowLeft => State {
            yaw: s.yaw.difference(Scalar { bits: YAW_STEP_BITS }),
            ..s
        },
        Key::ArrowRight => State { yaw: s.yaw.sum(Scalar { bits: YAW_STEP_BITS }), ..s },
        Key::ArrowUp => State {
            pitch: limited(s.pitch.sum(Scalar { bits: PITCH_STEP_BITS })),
            ..s
        },
        Key::ArrowDown => State {
            pitch: limited(s.pitch.difference(Scalar { bits: PITCH_STEP_BITS })),
            ..s
        },
        _ => s,
    }
}

/// The state after the pointer has moved: a drag turns the camera by the way
/// since the last place.
pub open spec fn after_move(s: State, x: Double, y: Double) -> State {
    if !s.drag_active {
        s
    } else {
        match s.last_mouse {
            None => State { last_mouse: Some((x, y)), ..s },
            Some((lx, ly)) => {
                let step = Scalar { bits: DRAG_BITS };
                let dx = x.difference(lx).narrowed();
                let dy = y.difference(ly).narrowed();
                State {
                    yaw: s.yaw.sum(dx.product(step)),
                    pitch: limited(s.pitch.difference(dy.product(step))),
                    last_mouse: Some((x, y)),
                    ..s
                }
            },
        }
    }
}

/// The state after an event.
pub open spec fn after(s: State, event: Event) -> State {
    match event {
        Event::KeyPressed(key) => after_key(s, key),
        Event::LeftButton { pressed } => State {
            drag_active: pressed,
            last_mouse: if pressed {
                s.last_mouse
            } else {
                None
            },
            ..s
        },
        Event::CursorMoved { x, y } => after_move(s, x, y),
        _ => s,
    }
}

/// What an event asks for; `spectral` says whether dispersion is on.
pub open spec fn action(s: State, event: Event, spectral: bool) -> Action {
    match event {
        Event::CloseRequested => Action::Exit,
        Event::KeyPressed(Key::Escape) => Action::Exit,
        Event::KeyPressed(Key::Space) => Action::SetSpectral { on: !spectral },
        Event::KeyPressed(Key::Other) => Action::Nothing,
        Event::KeyPressed(_) => Action::MoveCamera,
        Event::CursorMoved { .. } => if s.drag_active && s.last_mouse is Some {
            Action::MoveCamera
        } else {
            Action::Nothing
        },
        Event::RedrawRequested => Action::Render,
        _ => Action::Nothing,
    }
}

impl State {
    /// The window as it opens: the camera faces the prism.
    pub fn new() -> (r: Self)
        ensures
            r == (State {
                yaw: Scalar { bits: 0 },
                pitch: Scalar { bits: 0 },
                radius: Scalar { bits: RADIUS_BITS },
                drag_active: false,
                last_mouse: None,
                frames: 0,
            }),
    {
        State {
            yaw: Scalar { bits: 0 },
            pitch: Scalar { bits: 0 },
            radius: Scalar { bits: RADIUS_BITS },
            drag_active: false,
            last_mouse: None,
            frames: 0,
        }
    }

    fn press(&mut self, key: Key, spectral: bool) -> (r: Action)
        ensures
            *final(self) == after_key(*old(self), key),
            r == action(*old(self), Event::KeyPressed(key), spectral),
    {
        let yaw_step: Scalar = Scalar { bits: YAW_STEP_BITS };
        let pitch_step: Scalar = Scalar { bits: PITCH_STEP_BITS };
        match key {
            Key::Escape => Action::Exit,
            Key::Space => Action::SetSpectral { on: !spectral },
            Key::ArrowLeft => {
                self.yaw = self.yaw.minus(yaw_step);
                Action::MoveCamera
            },
            Key::ArrowRight => {
                self.yaw = self.yaw.plus(yaw_step);
                Action::MoveCamera
            },
            Key::ArrowUp => {
                self.pitch = limit(self.pitch.plus(pitch_step));
                Action::MoveCamera
            },
            Key::ArrowDown => {
                self.pitch = limit(self.pitch.minus(pitch_step));
                Action::MoveCamera
            },
            Key::Other => Action::Nothing,
        }
    }

    fn drag(&mut self, x: Double, y: Double) -> (r: Action)
        ensures
            *final(self) == after_move(*old(self), x, y),
            r == action(*old(self), Event::CursorMoved { x, y }, true),
    {
        if !self.drag_active {
            return Action::Nothing;
        }
        let step: Scalar = Scalar { bits: DRAG_BITS };
        let last: Option<(Double, Double)> = self.last_mouse;
        self.last_mouse = Some((x, y));
        match last {
            None => Action::Nothing,
            Some((lx, ly)) => {
                let dx: Scalar = x.minus(lx).to_scalar();
                let dy: Scalar = y.minus(ly).to_scalar();
                self.yaw = self.yaw.plus(dx.times(step));
                self.pitch = limit(self.pitch.minus(dy.times(step)));
                Action::MoveCamera
            },
        }
    }

    /// Takes an event; `spectral` says whether dispersion is on.
    pub fn window_event(&mut self, event: Event, spectral: bool) -> (r: Action)
        ensures
            *final(self) == after(*old(self), event),
            r == action(*old(self), event, spectral),
    {
        match event {
            Event::CloseRequested => Action::Exit,
            Event::KeyPressed(key) => self.press(key, spectral),
            Event::LeftButton { pressed } => {
                self.drag_active = pressed;
                if !pressed {
                    self.last_mouse = None;
                }
                Action::Nothing
            },
            Event::CursorMoved { x, y } => self.drag(x, y),
            Event::RedrawRequested => Action::Render,
            Event::Other => Action::Nothing,
        }
    }

    /// Counts a shown frame.
    pub fn count_frame(&mut self) -> (r: FrameDuties)
        requires
            old(self).frames < u32::MAX,
        ensures
            *final(self) == (State { frames: (old(self).frames + 1) as u32, ..*old(self) }),
            r == duties(old(self).frames + 1),
    {
        self.frames = self.frames + 1;
        FrameDuties {
            measures_exposure: self.frames % 30 == 0,
            logs: self.frames <= 60 || self.frames % 20 == 0,
            photons: self.frames as u64 * PHOTONS_PER_FRAME as u64,
        }
    }
}

/// What a frame does besides showing the picture: it measures the exposure
/// again, it reports itself, and the photons that it reports.
#[derive(Clone, Copy, Debug, PartialEq, Eq, Structural)]
pub struct FrameDuties {
    pub measures_exposure: bool,
    pub logs: bool,
    pub photons: u64,
}

/// The exposure is measured every thirty frames; the first sixty frames and
/// every twentieth are reported.
pub open spec fn duties(frame: int) -> FrameDuties {
    FrameDuties {
        measures_exposure: frame % 30 == 0,
        logs: frame <= 60 || frame % 20 == 0,
        photons: (frame * PHOTONS_PER_FRAME) as u64,
    }
}

/// Whether a frame of so many milliseconds is warned of.
pub fn is_slow(milliseconds: Scalar) -> (r: bool)
    ensures
        r == (Scalar { bits: SLOW_FRAME_BITS }).below(milliseconds),
{
    milliseconds.gt(Scalar { bits: SLOW_FRAME_BITS })
}

/// The parameters of the program that shows the picture.
#[derive(Clone, Copy, Debug, PartialEq, Eq, Structural)]
pub struct ViewerParams {
    pub width: u32,
    pub height: u32,
    pub total_photons: u32,
    pub pad0: u32,
    pub target_n: Scalar,
    pub exposure: Scalar,
    pub scale: Scalar,
    pub kradius: Scalar,
}

impl ViewerParams {
    pub open spec fn words(self) -> Seq<u32> {
        seq![
            self.width,
            self.height,
            self.total_photons,
            self.pad0,
            self.target_n.bits,
            self.exposure.bits,
            self.scale.bits,
            self.kradius.bits,
        ]
    }

    /// The words of the uniform buffer.
    pub fn to_words(&self) -> (r: Vec<u32>)
        ensures
            r@ == self.words(),
    {
        vec![
            self.width,
            self.height,
            self.total_photons,
            self.pad0,
            self.target_n.bits,
            self.exposure.bits,
            self.scale.bits,
            self.kradius.bits,
        ]
    }
}

/// What the viewer has accumulated on the device: the photons, the frames since
/// it was cleared, and the parameters that show it.
#[derive(Clone, Copy, Debug, PartialEq, Eq, Structural)]
pub struct Accumulation {
    pub params: ViewerParams,
    pub total_photons: u32,
    pub frame_seed: u32,
}

/// The photons after one more frame; the count stays at the largest.
pub open spec fn more_photons(n: u32) -> u32 {
    if n + PHOTONS_PER_FRAME > u32::MAX {
        u32::MAX
    } else {
        (n + PHOTONS_PER_FRAME) as u32
    }
}

impl Accumulation {
    /// The shader is told of the photons that are there.
    pub open spec fn valid(self) -> bool {
        self.params.total_photons == self.total_photons
    }

    /// Nothing accumulated yet.
    pub fn new(width: u32, height: u32) -> (r: Self)
        ensures
            r.valid(),
            r.total_photons == 0,
            r.frame_seed == 0,
            r.params == (ViewerParams {
                width,
                height,
                total_photons: 0,
                pad0: 0,
                target_n: Scalar { bits: TARGET_N_BITS },
                exposure: Scalar { bits: ONE_BITS },
                scale: Scalar { bits: PHOTON_SCALE_BITS },
                kradius: Scalar { bits: KERNEL_RADIUS_BITS },
            }),
    {
        let params: ViewerParams = ViewerParams {
            width,
            height,
            total_photons: 0,
            pad0: 0,
            target_n: Scalar { bits: TARGET_N_BITS },
            exposure: Scalar { bits: ONE_BITS },
            scale: Scalar { bits: PHOTON_SCALE_BITS },
            kradius: Scalar { bits: KERNEL_RADIUS_BITS },
        };
        Accumulation { params, total_photons: 0, frame_seed: 0 }
    }

    /// Forgets all photons; how they are shown stays.
    pub fn reset_accum(&mut self)
        ensures
            final(self).valid(),
            *final(self) == (Accumulation {
                params: ViewerParams { total_photons: 0, ..old(self).params },
                total_photons: 0,
                frame_seed: 0,
            }),
    {
        self.total_photons = 0;
        self.frame_seed = 0;
        self.params.total_photons = 0;
    }

    /// Counts the photons of one frame, and returns the seed that they take.
    pub fn accumulate_frame(&mut self) -> (r: u32)
        ensures
            final(self).valid(),
            r as int == (FIRST_SEED + old(self).frame_seed) % 0x1_0000_0000,
            final(self).frame_seed as int == (old(self).frame_seed + 1) % 0x1_0000_0000,
            final(self).total_photons == more_photons(old(self).total_photons),
            final(self).params == (ViewerParams {
                total_photons: more_photons(old(self).total_photons),
                ..old(self).params
            }),
    {
        let seed: u32 = FIRST_SEED.wrapping_add(self.frame_seed);
        self.total_photons = if self.total_photons > u32::MAX - PHOTONS_PER_FRAME {
            u32::MAX
        } else {
            self.total_photons + PHOTONS_PER_FRAME
        };
        self.frame_seed = self.frame_seed.wrapping_add(1);
        self.params.total_photons = self.total_photons;
        seed
    }

    pub fn set_exposure(&mut self, exposure: Scalar)
        ensures
            *final(self) == (Accumulation {
                params: ViewerParams { exposure, ..old(self).params },
                ..*old(self)
            }),
            old(self).valid() ==> final(self).valid(),
    {
        self.params.exposure = exposure;
    }
}

/// The groups of a row of the draining program.
pub const RESOLVE_ROW: u32 = 1024;

/// The lanes of a row of the draining program.
pub const RESOLVE_LANES: u32 = 65_536;

/// The groups of the draining program, in rows: one lane for each channel.
pub fn resolve_grid(n_channels: u32) -> (r: (u32, u32))
    ensures
        r.0 == RESOLVE_ROW,
        r.1 == ceil_div(n_channels as int, RESOLVE_LANES as int),
        r.0 * GROUP_LANES == RESOLVE_LANES,
{
    (RESOLVE_ROW, groups(n_channels, RESOLVE_LANES))
}

/// Every channel has a lane of the draining program: one column of one row.
/// No dimension has more groups than a device dispatches, up to 65535 rows.
pub proof fn lemma_resolve_covers(n_channels: u32, channel: int)
    requires
        0 <= channel < n_channels,
    ensures
        ({
            let lanes = RESOLVE_LANES as int;
            let rows = ceil_div(n_channels as int, lanes);
            &&& 0 <= channel / lanes < rows
            &&& 0 <= channel % lanes < lanes
            &&& channel == (channel / lanes) * lanes + channel % lanes
            &&& n_channels <= 65535 * lanes ==> rows <= 65535
        }),
        RESOLVE_ROW <= 65535,
{
}

/// The factor that brings a fixed-point value to the reference photon count.
pub open spec fn brightness_factor(total_photons: u32) -> Scalar {
    let one = Scalar { bits: ONE_BITS };
    let n = if total_photons < 1 {
        1int
    } else {
        total_photons as int
    };
    one.quotient(Scalar { bits: PHOTON_SCALE_BITS }).product(one.quotient(integral(n))).product(
        Scalar { bits: TARGET_N_BITS },
    )
}

/// The luminance of pixel `i` as the viewer shows it.
pub open spec fn shown_luminance(
    accum: Seq<u32>,
    surface: Seq<Scalar>,
    total_photons: u32,
    i: int,
) -> Scalar {
    integral(accum[3 * i + 1] as int).product(brightness_factor(total_photons)).sum(
        surface[3 * i + 1],
    )
}

/// The exposure for the 99.7th percentile of what the viewer shows. `None` if
/// there are several luminances and one of them is not a number.
pub fn compute_exposure_p997(
    accum: &Vec<u32>,
    surface: &Vec<Scalar>,
    total_photons: u32,
    n: usize,
) -> (r: Option<Scalar>)
    requires
        n > 0,
        3 * n <= accum@.len(),
        3 * n <= surface@.len(),
    ensures
        ({
            let lums = Seq::new(
                n as nat,
                |i: int| shown_luminance(accum@, surface@, total_photons, i),
            );
            &&& r is Some <==> orderable(lums)
            &&& r matches Some(exposure) ==> is_percentile_exposure(lums, exposure)
        }),
{
    let one: Scalar = Scalar { bits: ONE_BITS };
    let count: u32 = if total_photons < 1 {
        1
    } else {
        total_photons
    };
    let factor: Scalar = one.over(Scalar { bits: PHOTON_SCALE_BITS }).times(
        one.over(from_u64(count as u64)),
    ).times(Scalar { bits: TARGET_N_BITS });
    let total: usize = accum.len();
    let mut lums: Vec<Scalar> = Vec::new();
    let mut k: usize = 0;
    while k < n
        invariant
            k <= n,
            3 * n <= total == accum@.len(),
            3 * n <= surface@.len(),
            factor == brightness_factor(total_photons),
            lums@ == Seq::new(
                k as nat,
                |i: int| shown_luminance(accum@, surface@, total_photons, i),
            ),
        decreases n - k,
    {
        let y: Scalar = from_u64(accum[3 * k + 1] as u64).times(factor).plus(surface[3 * k + 1]);
        lums.push(y);
        k = k + 1;
        assert(lums@ =~= Seq::new(
            k as nat,
            |i: int| shown_luminance(accum@, surface@, total_photons, i),
        ));
    }
    percentile_exposure(&lums)
}

/// Toggling dispersion twice asks for what was there.
pub proof fn lemma_toggle_twice(s: State, t: State, spectral: bool)
    ensures
        action(s, Event::KeyPressed(Key::Space), spectral) == (Action::SetSpectral {
            on: !spectral,
        }),
        action(t, Event::KeyPressed(Key::Space), !spectral) == (Action::SetSpectral {
            on: spectral,
        }),
{
}

/// The pitch is a number in its range.
pub open spec fn pitched(s: State) -> bool {
    (Scalar { bits: PITCH_MIN_BITS }).at_most(s.pitch) && s.pitch.at_most(
        Scalar { bits: PITCH_MAX_BITS },
    )
}

/// A number that was limited is in the range.
proof fn lemma_limited(pitch: Scalar)
    requires
        !pitch.nan(),
    ensures
        (Scalar { bits: PITCH_MIN_BITS }).at_most(limited(pitch)),
        limited(pitch).at_most(Scalar { bits: PITCH_MAX_BITS }),
{
    lemma_magnitude_sign(PITCH_MAX_BITS as int);
}

/// No key brings the pitch out of its range, and no event that a drag of
/// finite length makes.
pub proof fn lemma_pitch_stays(s: State, event: Event)
    requires
        pitched(s),
        event matches Event::CursorMoved { x, y } ==> s.last_mouse matches Some(last) ==> s.pitch.difference(
            y.difference(last.1).narrowed().product(Scalar { bits: DRAG_BITS }),
        ).nan() == false,
    ensures
        pitched(after(s, event)),
{
    let step = Scalar { bits: PITCH_STEP_BITS };
    lemma_magnitude_increases(PITCH_MAX_BITS as int, 0x7f80_0000);
    lemma_sum_is_number(s.pitch, step);
    lemma_sum_is_number(s.pitch, step.negated());
    reveal(Scalar::difference);
    lemma_limited(s.pitch.sum(step));
    lemma_limited(s.pitch.difference(step));
    if let Event::CursorMoved { x, y } = event {
        if let Some(last) = s.last_mouse {
            lemma_limited(
                s.pitch.difference(
                    y.difference(last.1).narrowed().product(Scalar { bits: DRAG_BITS }),
                ),
            );
        }
    }
}

/// The pointer's last place is kept only while it drags.
pub proof fn lemma_release_forgets(s: State, event: Event)
    requires
        !s.drag_active ==> s.last_mouse is None,
    ensures
        !after(s, event).drag_active ==> after(s, event).last_mouse is None,
{
}

} // verus!
