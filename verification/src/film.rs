//! The fixed-point film of the device, and the accumulator it is resolved
//! into: sizes, resolving, exposure, and the image in bytes.
use crate::arith::from_u64;
use crate::arith::integral;
use crate::arith::lemma_integral_zero;
use crate::bytes::bytes_to_words;
use crate::bytes::encodes;
use crate::cie::byte_value;
use crate::cie::encoded;
use crate::cie::linear_srgb;
use crate::cie::pressed;
use crate::cie::tonemap_to_u8;
use crate::cie::whole_part;
use crate::cie::xyz_to_linear_srgb;
use crate::cie::Xyz;
use crate::convert::lemma_floor_sign;
use crate::order::lemma_sum_zero;
use crate::order::lemma_zero_quotient;
use crate::order::NEGATIVE_ZERO_BITS;
use crate::scalar::lemma_magnitude_sign;
use crate::scalar::lemma_value_identifies;
use crate::scalar::Scalar;
use crate::scalar::ONE_BITS;
use crate::sorting::ascending;
use crate::sorting::lemma_order_unique;
use crate::sorting::orderable;
use crate::sorting::sort;
use crate::supplied::single_valued;
use vstd::prelude::*;

verus! {

/// Encoding of 1e-6, the least luminance that exposure divides by.
pub const EXPOSE_FLOOR_BITS: u32 = 0x3586_37bd;

/// Encoding of 1e-9, the least that the percentile exposure divides by.
pub const PERCENTILE_FLOOR_BITS: u32 = 0x3089_705f;

/// Encoding of 0.997.
pub const PERCENTILE_BITS: u32 = 0x3f7f_3b64;

/// The quotient rounded up.
pub open spec fn ceil_div(n: int, d: int) -> int {
    if n % d == 0 {
        n / d
    } else {
        n / d + 1
    }
}

/// The number of groups of `size` that hold `n` items.
pub fn groups(n: u32, size: u32) -> (r: u32)
    requires
        size > 0,
    ensures
        r == ceil_div(n as int, size as int),
        n <= r * size < n + size,
{
    let q: u32 = n / size;
    proof {
        vstd::arithmetic::div_mod::lemma_fundamental_div_mod(n as int, size as int);
        let rest: int = n as int % size as int;
        let quotient: int = n as int / size as int;
        assert(size * quotient == quotient * size) by (nonlinear_arith);
        assert((quotient + 1) * size == quotient * size + size) by (nonlinear_arith);
        assert(n % size != 0 ==> q < u32::MAX) by (nonlinear_arith)
            requires
                n == size * q + n % size,
                0 <= n % size < size,
                n <= u32::MAX,
        ;
    }
    if n % size == 0 {
        q
    } else {
        q + 1
    }
}

/// The number of channels of a film: three for each pixel.
pub open spec fn channels(width: int, height: int) -> int {
    3 * (width * height)
}

/// A fixed-point value of the film as a number: over the scale.
pub open spec fn resolved(v: u32, scale: Scalar) -> Scalar {
    integral(v as int).quotient(scale)
}

/// The accumulator after a film was drained into it: every value, over the
/// scale, is added to its channel. Channels past the film stay.
pub open spec fn drained(accum: Seq<Scalar>, raw: Seq<u32>, scale: Scalar) -> Seq<Scalar> {
    Seq::new(
        accum.len(),
        |i: int|
            if i < raw.len() {
                accum[i].sum(resolved(raw[i], scale))
            } else {
                accum[i]
            },
    )
}

/// Channels that a film has overwritten: every value over the scale. Channels
/// past the film stay.
pub open spec fn overwritten(target: Seq<Scalar>, raw: Seq<u32>, scale: Scalar) -> Seq<Scalar> {
    Seq::new(
        target.len(),
        |i: int|
            if i < raw.len() {
                resolved(raw[i], scale)
            } else {
                target[i]
            },
    )
}

/// Drains a film into the accumulator.
pub fn resolve(accum: &mut Vec<Scalar>, raw: &Vec<u32>, scale: Scalar)
    requires
        raw@.len() <= old(accum)@.len(),
    ensures
        final(accum)@ == drained(old(accum)@, raw@, scale),
{
    let ghost before = accum@;
    let mut k: usize = 0;
    while k < raw.len()
        invariant
            k <= raw@.len() <= accum@.len() == before.len(),
            forall|i: int| k <= i < before.len() ==> (#[trigger] accum@[i]) == before[i],
            forall|i: int|
                0 <= i < k ==> (#[trigger] accum@[i]) == before[i].sum(resolved(raw@[i], scale)),
        decreases raw@.len() - k,
    {
        let value: Scalar = accum[k].plus(from_u64(raw[k] as u64).over(scale));
        accum[k] = value;
        k = k + 1;
    }
    assert(accum@ =~= drained(before, raw@, scale));
}

/// Overwrites channels with a film.
pub fn resolve_over(target: &mut Vec<Scalar>, raw: &Vec<u32>, scale: Scalar)
    requires
        raw@.len() <= old(target)@.len(),
    ensures
        final(target)@ == overwritten(old(target)@, raw@, scale),
{
    let ghost before = target@;
    let mut k: usize = 0;
    while k < raw.len()
        invariant
            k <= raw@.len() <= target@.len() == before.len(),
            forall|i: int| k <= i < before.len() ==> (#[trigger] target@[i]) == before[i],
            forall|i: int| 0 <= i < k ==> (#[trigger] target@[i]) == resolved(raw@[i], scale),
        decreases raw@.len() - k,
    {
        let value: Scalar = from_u64(raw[k] as u64).over(scale);
        target[k] = value;
        k = k + 1;
    }
    assert(target@ =~= overwritten(before, raw@, scale));
}

/// `n` channels without light.
pub open spec fn dark_channels(n: nat) -> Seq<Scalar> {
    Seq::new(n, |i: int| Scalar { bits: 0 })
}

/// New channels without light.
pub fn blank_channels(n: usize) -> (r: Vec<Scalar>)
    ensures
        r@ == dark_channels(n as nat),
{
    filled_channels(n, Scalar { bits: 0 })
}

/// Channels that all hold one value.
pub fn filled_channels(n: usize, value: Scalar) -> (r: Vec<Scalar>)
    ensures
        r@ == Seq::new(n as nat, |i: int| value),
{
    let mut out: Vec<Scalar> = Vec::new();
    let mut k: usize = 0;
    while k < n
        invariant
            k <= n,
            out@ == Seq::new(k as nat, |i: int| value),
        decreases n - k,
    {
        out.push(value);
        k = k + 1;
        assert(out@ =~= Seq::new(k as nat, |i: int| value));
    }
    out
}

/// Holds two runs of a film against each other: the first place where they
/// differ, with both values there. What one of them has more is not compared.
pub fn check_determinism(a: &Vec<u32>, b: &Vec<u32>) -> (r: Result<(), (usize, u32, u32)>)
    ensures
        r is Ok <==> forall|i: int|
            0 <= i < a@.len() && i < b@.len() ==> (#[trigger] a@[i]) == b@[i],
        r matches Err((i, x, y)) ==> i < a@.len() && i < b@.len() && x == a@[i as int] && y
            == b@[i as int] && x != y && forall|j: int|
            0 <= j < i ==> (#[trigger] a@[j]) == b@[j],
{
    let mut k: usize = 0;
    while k < a.len() && k < b.len()
        invariant
            k <= a@.len(),
            k <= b@.len(),
            forall|j: int| 0 <= j < k ==> (#[trigger] a@[j]) == b@[j],
        decreases a@.len() - k,
    {
        if a[k] != b[k] {
            return Err((k, a[k], b[k]));
        }
        k = k + 1;
    }
    Ok(())
}

/// The largest of the luminances; zero where none is larger.
pub open spec fn peak(lums: Seq<Scalar>) -> Scalar
    decreases lums.len(),
{
    if lums.len() == 0 {
        Scalar { bits: 0 }
    } else {
        peak(lums.drop_last()).larger(lums.last())
    }
}

/// The exposure that brings a peak luminance to `scale`: never below one.
pub open spec fn peak_exposure(peak: Scalar, scale: Scalar) -> Scalar {
    scale.quotient(peak.larger(Scalar { bits: EXPOSE_FLOOR_BITS })).larger(
        Scalar { bits: ONE_BITS },
    )
}

/// The exposure for the brightest of the luminances.
pub fn expose_peak(lums: &Vec<Scalar>, scale: Scalar) -> (r: Scalar)
    ensures
        r == peak_exposure(peak(lums@), scale),
{
    let mut max_y: Scalar = Scalar { bits: 0 };
    let mut k: usize = 0;
    while k < lums.len()
        invariant
            k <= lums@.len(),
            max_y == peak(lums@.take(k as int)),
        decreases lums@.len() - k,
    {
        max_y = max_y.max(lums[k]);
        k = k + 1;
        assert(lums@.take(k as int).drop_last() =~= lums@.take(k - 1));
    }
    assert(lums@.take(k as int) =~= lums@);
    scale.over(max_y.max(Scalar { bits: EXPOSE_FLOOR_BITS })).max(Scalar { bits: ONE_BITS })
}

/// The place of the 99.7th percentile among `n` ascending values.
pub open spec fn percentile_place(n: int) -> int {
    let i = whole_part(integral(n).product(Scalar { bits: PERCENTILE_BITS }));
    if i < n {
        i
    } else {
        n - 1
    }
}

/// `exposure` is one over the 99.7th percentile of the luminances, or over
/// 1e-9 where that is smaller: the percentile is read off the luminances in
/// ascending order.
pub open spec fn is_percentile_exposure(lums: Seq<Scalar>, exposure: Scalar) -> bool {
    exists|ordered: Seq<Scalar>| #[trigger]
        ascending(ordered) && ordered.to_multiset() == lums.to_multiset() && exposure == (Scalar {
            bits: ONE_BITS,
        }).quotient(
            ordered[percentile_place(lums.len() as int)].larger(
                Scalar { bits: PERCENTILE_FLOOR_BITS },
            ),
        )
}

/// The exposure for the 99.7th percentile of the luminances. `None` if there
/// are several and one of them is not a number, for then they have no order.
pub fn percentile_exposure(lums: &Vec<Scalar>) -> (r: Option<Scalar>)
    requires
        lums@.len() > 0,
    ensures
        r is Some <==> orderable(lums@),
        r matches Some(exposure) ==> is_percentile_exposure(lums@, exposure),
{
    match sort(lums) {
        None => None,
        Some(ordered) => {
            let n: usize = ordered.len();
            proof {
                ordered@.to_multiset_ensures();
                lums@.to_multiset_ensures();
            }
            let i: u64 = from_u64(n as u64).times(Scalar { bits: PERCENTILE_BITS }).to_index();
            let place: usize = if i < n as u64 {
                i as usize
            } else {
                n - 1
            };
            let p: Scalar = ordered[place].max(Scalar { bits: PERCENTILE_FLOOR_BITS });
            Some((Scalar { bits: ONE_BITS }).over(p))
        },
    }
}

/// Luminances that have an order have one percentile exposure.
pub proof fn lemma_percentile_unique(lums: Seq<Scalar>, a: Scalar, b: Scalar)
    requires
        lums.len() > 0,
        orderable(lums),
        is_percentile_exposure(lums, a),
        is_percentile_exposure(lums, b),
    ensures
        a == b,
{
    let floor = Scalar { bits: PERCENTILE_FLOOR_BITS };
    let k = percentile_place(lums.len() as int);
    let s = choose|s: Seq<Scalar>| #[trigger]
        ascending(s) && s.to_multiset() == lums.to_multiset() && a == (Scalar {
            bits: ONE_BITS,
        }).quotient(s[k].larger(floor));
    let t = choose|t: Seq<Scalar>| #[trigger]
        ascending(t) && t.to_multiset() == lums.to_multiset() && b == (Scalar {
            bits: ONE_BITS,
        }).quotient(t[k].larger(floor));
    lums.to_multiset_ensures();
    s.to_multiset_ensures();
    t.to_multiset_ensures();
    lemma_place_in_range(lums.len() as int);
    lemma_order_unique(s, t, k);
    lemma_magnitude_sign(PERCENTILE_FLOOR_BITS as int);
    assert(s.contains(s[k]) && lums.to_multiset().count(s[k]) > 0);
    assert(t.contains(t[k]) && lums.to_multiset().count(t[k]) > 0);
    if lums.len() == 1 {
        assert(lums.contains(s[k]) && lums.contains(t[k]));
        assert(s[k] == lums[0] && t[k] == lums[0]);
    } else if floor.value() < s[k].value() {
        lemma_value_identifies(s[k], t[k]);
    } else if floor.value() == s[k].value() {
        lemma_value_identifies(s[k], floor);
        lemma_value_identifies(t[k], floor);
    }
}

proof fn lemma_place_in_range(n: int)
    requires
        n > 0,
    ensures
        0 <= percentile_place(n) < n,
{
    lemma_floor_sign(integral(n).product(Scalar { bits: PERCENTILE_BITS }).value());
}

/// Pixel `i` of interleaved channels.
pub open spec fn pixel(channels: Seq<Scalar>, i: int) -> Xyz {
    Xyz { x: channels[3 * i], y: channels[3 * i + 1], z: channels[3 * i + 2] }
}

/// The displayed pixel: the accumulated light and the static surface.
pub open spec fn composited(accum: Seq<Scalar>, surface: Seq<Scalar>, i: int) -> Xyz {
    pixel(accum, i).total(pixel(surface, i))
}

fn read_pixel(channels: &Vec<Scalar>, i: usize) -> (r: Xyz)
    requires
        3 * i + 2 < channels@.len(),
    ensures
        r == pixel(channels@, i as int),
{
    let total: usize = channels.len();
    Xyz { x: channels[3 * i], y: channels[3 * i + 1], z: channels[3 * i + 2] }
}

/// The displayed pixels: accumulated light and static surface added.
pub fn composite(accum: &Vec<Scalar>, surface: &Vec<Scalar>, n: usize) -> (r: Vec<Xyz>)
    requires
        3 * n <= accum@.len(),
        3 * n <= surface@.len(),
    ensures
        r@ == Seq::new(n as nat, |i: int| composited(accum@, surface@, i)),
{
    let mut out: Vec<Xyz> = Vec::new();
    let mut k: usize = 0;
    while k < n
        invariant
            k <= n,
            3 * n <= accum@.len(),
            3 * n <= surface@.len(),
            out@ == Seq::new(k as nat, |i: int| composited(accum@, surface@, i)),
        decreases n - k,
    {
        out.push(read_pixel(accum, k).plus(read_pixel(surface, k)));
        k = k + 1;
        assert(out@ =~= Seq::new(k as nat, |i: int| composited(accum@, surface@, i)));
    }
    out
}

/// The pixels of interleaved channels.
pub fn pixels(channels: &Vec<Scalar>, n: usize) -> (r: Vec<Xyz>)
    requires
        3 * n <= channels@.len(),
    ensures
        r@ == Seq::new(n as nat, |i: int| pixel(channels@, i)),
{
    let mut out: Vec<Xyz> = Vec::new();
    let mut k: usize = 0;
    while k < n
        invariant
            k <= n,
            3 * n <= channels@.len(),
            out@ == Seq::new(k as nat, |i: int| pixel(channels@, i)),
        decreases n - k,
    {
        out.push(read_pixel(channels, k));
        k = k + 1;
        assert(out@ =~= Seq::new(k as nat, |i: int| pixel(channels@, i)));
    }
    out
}

/// The luminances of pixels.
pub fn luminances(pixels: &Vec<Xyz>) -> (r: Vec<Scalar>)
    ensures
        r@ == pixels@.map_values(|p: Xyz| p.y),
{
    let mut out: Vec<Scalar> = Vec::new();
    let mut k: usize = 0;
    while k < pixels.len()
        invariant
            k <= pixels@.len(),
            out@ == pixels@.take(k as int).map_values(|p: Xyz| p.y),
        decreases pixels@.len() - k,
    {
        out.push(pixels[k].y);
        k = k + 1;
        assert(out@ =~= pixels@.take(k as int).map_values(|p: Xyz| p.y));
    }
    assert(pixels@.take(k as int) =~= pixels@);
    out
}

/// The bytes of one displayed pixel.
pub open spec fn rgb_of<F: Fn(Scalar) -> Scalar>(p: Xyz, exposure: Scalar, root: F) -> Seq<int> {
    let linear = linear_srgb(p);
    seq![
        byte_value(encoded(pressed(linear.x, exposure), root)),
        byte_value(encoded(pressed(linear.y, exposure), root)),
        byte_value(encoded(pressed(linear.z, exposure), root)),
    ]
}

/// `bytes` show the pixels, three bytes for each.
pub open spec fn is_rgb8<F: Fn(Scalar) -> Scalar>(
    bytes: Seq<u8>,
    pixels: Seq<Xyz>,
    exposure: Scalar,
    root: F,
) -> bool {
    &&& bytes.len() == 3 * pixels.len()
    &&& forall|i: int, c: int|
        #![trigger rgb_of(pixels[i], exposure, root)[c]]
        0 <= i < pixels.len() && 0 <= c < 3 ==> bytes[3 * i + c] == rgb_of(
            pixels[i],
            exposure,
            root,
        )[c]
}

/// The image in bytes, three for each pixel. `root` raises a number to the
/// power of 1 / 2.4.
pub fn to_rgb8<F: Fn(Scalar) -> Scalar>(
    pixels: &Vec<Xyz>,
    exposure: Scalar,
    root: &F,
) -> (r: Vec<u8>)
    requires
        single_valued(*root),
    ensures
        is_rgb8(r@, pixels@, exposure, *root),
{
    let mut out: Vec<u8> = Vec::new();
    let mut k: usize = 0;
    while k < pixels.len()
        invariant
            k <= pixels@.len(),
            single_valued(*root),
            out@.len() == 3 * k,
            forall|i: int, c: int|
                #![trigger rgb_of(pixels@[i], exposure, *root)[c]]
                0 <= i < k && 0 <= c < 3 ==> out@[3 * i + c] == rgb_of(
                    pixels@[i],
                    exposure,
                    *root,
                )[c],
        decreases pixels@.len() - k,
    {
        let rgb: [u8; 3] = tonemap_to_u8(xyz_to_linear_srgb(pixels[k]), exposure, root);
        out.push(rgb[0]);
        out.push(rgb[1]);
        out.push(rgb[2]);
        k = k + 1;
    }
    out
}

/// A pixel of the path tracer's buffer: its sums over its sample count, or
/// black without samples.
pub open spec fn averaged(x: Scalar, y: Scalar, z: Scalar, count: Scalar) -> Xyz {
    if !count.nan() && count.value() == 0 {
        Xyz::dark()
    } else {
        (Xyz { x, y, z }).shared(count)
    }
}

/// The pixels of the path tracer's buffer, four words for each: the sums of
/// the three channels and the sample count. A tail of less than four is
/// dropped.
pub fn averages(words: &Vec<u32>) -> (r: Vec<Xyz>)
    ensures
        r@ == Seq::new(
            (words@.len() / 4) as nat,
            |i: int|
                averaged(
                    Scalar { bits: words@[4 * i] },
                    Scalar { bits: words@[4 * i + 1] },
                    Scalar { bits: words@[4 * i + 2] },
                    Scalar { bits: words@[4 * i + 3] },
                ),
        ),
{
    let zero: Scalar = Scalar { bits: 0 };
    let total: usize = words.len();
    let n: usize = total / 4;
    let mut out: Vec<Xyz> = Vec::new();
    let mut k: usize = 0;
    while k < n
        invariant
            k <= n,
            n == total / 4,
            total == words@.len(),
            zero == (Scalar { bits: 0 }),
            out@.len() == k,
            forall|i: int|
                0 <= i < k ==> (#[trigger] out@[i]) == averaged(
                    Scalar { bits: words@[4 * i] },
                    Scalar { bits: words@[4 * i + 1] },
                    Scalar { bits: words@[4 * i + 2] },
                    Scalar { bits: words@[4 * i + 3] },
                ),
        decreases n - k,
    {
        let sums: Xyz = Xyz {
            x: Scalar { bits: words[4 * k] },
            y: Scalar { bits: words[4 * k + 1] },
            z: Scalar { bits: words[4 * k + 2] },
        };
        let count: Scalar = Scalar { bits: words[4 * k + 3] };
        let pixel: Xyz = if count.le(zero) && count.ge(zero) {
            Xyz::black()
        } else {
            sums.over(count)
        };
        out.push(pixel);
        k = k + 1;
    }
    assert(out@ =~= Seq::new(
        (words@.len() / 4) as nat,
        |i: int|
            averaged(
                Scalar { bits: words@[4 * i] },
                Scalar { bits: words@[4 * i + 1] },
                Scalar { bits: words@[4 * i + 2] },
                Scalar { bits: words@[4 * i + 3] },
            ),
    ));
    out
}

/// Encoding of 4096, the fixed-point scale of the splat film.
pub const SCALE_BITS: u32 = 0x4580_0000;

/// The number of splats of a run without another count.
pub const N_SPLATS: u32 = 1_000_000;

/// The lanes of one group of a one-dimensional program.
pub const GROUP_LANES: u32 = 64;

/// The parameters of the splat program.
#[derive(Clone, Copy, Debug, PartialEq, Eq, Structural)]
pub struct FilmParams {
    pub width: u32,
    pub height: u32,
    pub n_splats: u32,
    pub seed: u32,
}

impl FilmParams {
    pub open spec fn words(self) -> Seq<u32> {
        seq![self.width, self.height, self.n_splats, self.seed]
    }

    /// The words of the uniform buffer.
    pub fn to_words(&self) -> (r: Vec<u32>)
        ensures
            r@ == self.words(),
    {
        vec![self.width, self.height, self.n_splats, self.seed]
    }
}

/// The host's half of a film that the device adds to in fixed point: the
/// accumulator it is drained into, three channels for each pixel.
pub struct AtomicFilm {
    pub accum: Vec<Scalar>,
    pub width: usize,
    pub height: usize,
}

impl AtomicFilm {
    pub open spec fn valid(self) -> bool {
        &&& self.accum@.len() == channels(self.width as int, self.height as int)
        &&& 4 * self.accum@.len() <= usize::MAX
    }

    /// The pixels of the accumulator.
    pub open spec fn image(self) -> Seq<Xyz> {
        Seq::new((self.width * self.height) as nat, |i: int| pixel(self.accum@, i))
    }

    /// A film without light.
    pub fn new(width: usize, height: usize) -> (r: Self)
        requires
            4 * channels(width as int, height as int) <= usize::MAX,
        ensures
            r.valid(),
            r.width == width,
            r.height == height,
            r.accum@ == dark_channels(channels(width as int, height as int) as nat),
    {
        proof {
            vstd::arithmetic::mul::lemma_mul_nonnegative(width as int, height as int);
        }
        let n: usize = width * height;
        AtomicFilm { accum: blank_channels(3 * n), width, height }
    }

    /// The bytes of the film on the device: one word for each channel.
    pub fn film_bytes(&self) -> (r: u64)
        requires
            self.valid(),
        ensures
            r == 4 * channels(self.width as int, self.height as int),
    {
        4 * self.accum.len() as u64
    }

    /// The parameters of a splat run, and the groups that it takes.
    pub fn splat(&self, seed: u32, n_splats: u32) -> (r: (FilmParams, u32))
        ensures
            r.0 == (FilmParams {
                width: self.width as u32,
                height: self.height as u32,
                n_splats,
                seed,
            }),
            r.1 == ceil_div(n_splats as int, GROUP_LANES as int),
    {
        let params: FilmParams = FilmParams {
            width: self.width as u32,
            height: self.height as u32,
            n_splats,
            seed,
        };
        (params, groups(n_splats, GROUP_LANES))
    }

    /// The values of a film in the bytes that were read back. `None` if the
    /// bytes do not make whole values.
    pub fn read_film_raw(&self, bytes: &Vec<u8>) -> (r: Option<Vec<u32>>)
        ensures
            r is Some <==> bytes@.len() % 4 == 0,
            r matches Some(words) ==> encodes(words@, bytes@),
    {
        bytes_to_words(bytes)
    }

    /// Adds a read film to the accumulator, every value over the scale.
    pub fn resolve(&mut self, raw: &Vec<u32>)
        requires
            old(self).valid(),
            raw@.len() <= old(self).accum@.len(),
        ensures
            final(self).valid(),
            final(self).width == old(self).width,
            final(self).height == old(self).height,
            final(self).accum@ == drained(old(self).accum@, raw@, Scalar { bits: SCALE_BITS }),
    {
        resolve(&mut self.accum, raw, Scalar { bits: SCALE_BITS });
    }

    /// Takes all light out of the accumulator.
    pub fn clear_accum(&mut self)
        requires
            old(self).valid(),
        ensures
            final(self).valid(),
            final(self).width == old(self).width,
            final(self).height == old(self).height,
            final(self).accum@ == dark_channels(old(self).accum@.len()),
    {
        let n: usize = self.accum.len();
        self.accum = blank_channels(n);
    }

    /// The accumulator.
    pub fn accum(&self) -> (r: &Vec<Scalar>)
        ensures
            r@ == self.accum@,
    {
        &self.accum
    }

    fn pixels(&self) -> (r: Vec<Xyz>)
        requires
            self.valid(),
        ensures
            r@ == self.image(),
    {
        proof {
            vstd::arithmetic::mul::lemma_mul_nonnegative(self.width as int, self.height as int);
        }
        pixels(&self.accum, self.width * self.height)
    }

    /// The image in bytes, three for each pixel. `root` raises a number to the
    /// power of 1 / 2.4.
    pub fn to_rgb8<F: Fn(Scalar) -> Scalar>(&self, exposure: Scalar, root: &F) -> (r: Vec<u8>)
        requires
            self.valid(),
            single_valued(*root),
        ensures
            is_rgb8(r@, self.image(), exposure, *root),
    {
        let pixels: Vec<Xyz> = self.pixels();
        to_rgb8(&pixels, exposure, root)
    }

    /// The exposure for the brightest pixel: `scale` over its luminance, and
    /// never below one.
    pub fn auto_expose_accum(&self, scale: Scalar) -> (r: Scalar)
        requires
            self.valid(),
        ensures
            r == peak_exposure(peak(self.image().map_values(|p: Xyz| p.y)), scale),
    {
        let pixels: Vec<Xyz> = self.pixels();
        let lums: Vec<Scalar> = luminances(&pixels);
        expose_peak(&lums, scale)
    }

    /// The width and the height.
    pub fn dims(&self) -> (r: (usize, usize))
        ensures
            r == (self.width, self.height),
    {
        (self.width, self.height)
    }
}

/// A film with nothing in it leaves every channel that is not negative zero as
/// it was.
pub proof fn lemma_empty_film_adds_nothing(accum: Seq<Scalar>, raw: Seq<u32>, scale: Scalar)
    requires
        scale.finite(),
        scale.value() > 0,
        raw.len() <= accum.len(),
        forall|i: int| 0 <= i < raw.len() ==> (#[trigger] raw[i]) == 0,
        forall|i: int|
            0 <= i < accum.len() ==> !(#[trigger] accum[i]).nan() && accum[i].bits
                != NEGATIVE_ZERO_BITS,
    ensures
        drained(accum, raw, scale) == accum,
{
    lemma_integral_zero();
    lemma_zero_quotient(scale);
    assert forall|i: int| 0 <= i < accum.len() implies drained(accum, raw, scale)[i]
        == accum[i] by {
        if i < raw.len() {
            assert(raw[i] == 0);
            lemma_sum_zero(accum[i]);
        }
    }
    assert(drained(accum, raw, scale) =~= accum);
}

} // verus!
