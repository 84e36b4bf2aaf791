//! Twice the density of a haze gives exactly twice the light, where no number
//! on the way is too small or too large to be doubled.
use crate::arith::absolute;
use crate::arith::integral;
use crate::arith::is_nearest;
use crate::arith::lemma_nearest_exact;
use crate::arith::lemma_nearest_exists;
use crate::arith::lemma_nearest_monotone;
use crate::arith::lemma_nearest_multiple;
use crate::arith::lemma_nearest_unique;
use crate::arith::lemma_nearest_zero;
use crate::arith::nearest;
use crate::arith::rounded;
use crate::arith::signed;
use crate::cie::Sensor;
use crate::cie::Xyz;
use crate::convert::one;
use crate::error::lemma_first_magnitudes;
use crate::haze::deposit_of;
use crate::haze::lemma_steps_length;
use crate::lighttrace::emission;
use crate::lighttrace::lemma_pixel_in_image;
use crate::lighttrace::pixel_at;
use crate::lighttrace::scattered_on;
use crate::lighttrace::splatted;
use crate::lighttrace::Beam;
use crate::lighttrace::PhotonState;
use crate::lighttrace::MAX_SEGMENTS;
use crate::optics::HALF_BITS;
use crate::order::lemma_rounded_value;
use crate::rng::advanced;
use crate::rng::pcg;
use crate::scalar::lemma_magnitude_sign;
use crate::scalar::magnitude;
use crate::scalar::Scalar;
use crate::scalar::ONE_BITS;
use crate::scene::Scene;
use crate::splat::footprint_at;
use crate::splat::inside;
use crate::splat::lemma_index_in_image;
use crate::splat::nearest_integer;
use crate::splat::transverse_splat;
use crate::splat::Footprint;
use crate::supplied::result;
use crate::vector::dot;
use crate::vector::Vector;
use crate::volume::drawn_point;
use crate::volume::eye_distance;
use crate::volume::haze_image;
use crate::volume::hazed;
use crate::volume::phase;
use crate::volume::segment_length;
use crate::volume::toward_eye;
use crate::volume::HazeView;
use crate::volume::Medium;
use crate::volume::SEG_SAMPLES;
use crate::volume::SEG_SAMPLES_BITS;
use vstd::arithmetic::power2::lemma2_to64;
use vstd::arithmetic::power2::lemma_pow2_adds;
use vstd::arithmetic::power2::lemma_pow2_pos;
use vstd::arithmetic::power2::lemma_pow2_unfold;
use vstd::arithmetic::power2::pow2;
use vstd::prelude::*;

verus! {

/// The second number is twice the first.
pub open spec fn twice(x: Scalar, y: Scalar) -> bool {
    x.finite() && y.finite() && x.negative() == y.negative() && y.value() == 2 * x.value()
}

/// A normal number above the smallest, whose double does not overflow.
pub open spec fn roomy(x: Scalar) -> bool {
    0x80_0000 < x.unsigned_bits() < 0x7f00_0000
}

/// A product that is zero for a factor that is, or has room to be doubled.
pub open spec fn roomy_product(x: Scalar, z: Scalar) -> bool {
    x.finite() && z.finite() && (x.value() == 0 || z.value() == 0 || roomy(x.product(z)))
}

/// A quotient that is zero for a numerator that is, or has room to be doubled.
pub open spec fn roomy_quotient(x: Scalar, z: Scalar) -> bool {
    x.finite() && z.finite() && z.value() != 0 && (x.value() == 0 || roomy(x.quotient(z)))
}

proof fn lemma_double_magnitude(k: int)
    requires
        k >= 0x80_0000,
    ensures
        magnitude(k + 0x80_0000) == 2 * magnitude(k),
{
    let e = (k / 0x80_0000 - 1) as nat;
    let f: int = k % 0x80_0000;
    assert((k + 0x80_0000) / 0x80_0000 == k / 0x80_0000 + 1);
    assert((k + 0x80_0000) % 0x80_0000 == f);
    lemma_pow2_unfold(e + 1);
    let p: int = pow2(e) as int;
    assert((0x80_0000 + f) * (2 * p) == 2 * ((0x80_0000 + f) * p)) by (nonlinear_arith);
}

/// Half of a number that is not small is exact.
pub proof fn lemma_half_exact(x: Scalar)
    requires
        x.finite(),
        x.unsigned_bits() >= 0x100_0000,
    ensures
        (Scalar { bits: HALF_BITS }).product(x).finite(),
        x.value() == 2 * (Scalar { bits: HALF_BITS }).product(x).value(),
{
    let half = Scalar { bits: HALF_BITS };
    let k: int = x.unsigned_bits() - 0x80_0000;
    lemma2_to64();
    lemma_pow2_adds(23, 125);
    lemma_pow2_unfold(149);
    lemma_pow2_pos(148);
    lemma_pow2_pos(149);
    lemma_double_magnitude(k);
    lemma_magnitude_sign(k);
    let (m, p): (int, int) = (magnitude(k), pow2(148) as int);
    assert(half.size() == p && one() == 2 * p);
    assert(p * (2 * m) == m * (2 * p)) by (nonlinear_arith);
    lemma_nearest_multiple(k, one());
    reveal(Scalar::product);
}

proof fn lemma_nearest_doubles(num: int, den: int)
    requires
        den > 0,
        num >= 0,
        0x80_0000 < nearest(num, den) < 0x7f00_0000,
    ensures
        nearest(2 * num, den) == nearest(num, den) + 0x80_0000,
        magnitude(nearest(2 * num, den)) == 2 * magnitude(nearest(num, den)),
{
    let k: int = nearest(num, den);
    let d: int = k + 0x80_0000;
    lemma_nearest_exists(num, den);
    lemma_nearest_exists(2 * num, den);
    lemma_double_magnitude(k - 1);
    lemma_double_magnitude(k);
    lemma_double_magnitude(k + 1);
    let (low, high) = (magnitude(k - 1) + magnitude(k), magnitude(k) + magnitude(k + 1));
    assert((magnitude(d - 1) + magnitude(d)) * den == 2 * (low * den)) by (nonlinear_arith)
        requires
            magnitude(d - 1) + magnitude(d) == 2 * low,
    ;
    assert((magnitude(d) + magnitude(d + 1)) * den == 2 * (high * den)) by (nonlinear_arith)
        requires
            magnitude(d) + magnitude(d + 1) == 2 * high,
    ;
    assert(is_nearest(d, 2 * num, den));
    lemma_nearest_unique(nearest(2 * num, den), d, 2 * num, den);
}

#[verifier::rlimit(50)]
proof fn lemma_product_doubles(x: Scalar, y: Scalar, z: Scalar)
    requires
        twice(x, y),
        roomy_product(x, z),
    ensures
        twice(x.product(z), y.product(z)),
        twice(z.product(x), z.product(y)),
{
    reveal(Scalar::product);
    lemma_pow2_pos(149);
    lemma_magnitude_sign(0);
    lemma_magnitude_sign(x.unsigned_bits());
    lemma_magnitude_sign(y.unsigned_bits());
    lemma_magnitude_sign(z.unsigned_bits());
    let num: int = x.size() * z.size();
    assert(y.size() == 2 * x.size());
    assert(y.size() * z.size() == 2 * num) by (nonlinear_arith)
        requires
            num == x.size() * z.size(),
            y.size() == 2 * x.size(),
    ;
    assert(z.size() * x.size() == num && z.size() * y.size() == 2 * num) by (nonlinear_arith)
        requires
            num == x.size() * z.size(),
            y.size() == 2 * x.size(),
    ;
    assert(num >= 0 && (x.size() == 0 || z.size() == 0 ==> num == 0)) by (nonlinear_arith)
        requires
            num == x.size() * z.size(),
            x.size() >= 0,
            z.size() >= 0,
    ;
    let negative = x.negative() != z.negative();
    lemma_rounded_value(negative, num, one());
    lemma_rounded_value(negative, 2 * num, one());
    if x.value() == 0 || z.value() == 0 {
        lemma_nearest_zero(one());
    } else {
        assert(x.product(z).unsigned_bits() == nearest(num, one()));
        lemma_nearest_doubles(num, one());
    }
}

#[verifier::rlimit(50)]
proof fn lemma_quotient_doubles(x: Scalar, y: Scalar, z: Scalar)
    requires
        twice(x, y),
        roomy_quotient(x, z),
    ensures
        twice(x.quotient(z), y.quotient(z)),
{
    reveal(Scalar::quotient);
    lemma_pow2_pos(149);
    lemma_magnitude_sign(0);
    lemma_magnitude_sign(x.unsigned_bits());
    lemma_magnitude_sign(y.unsigned_bits());
    lemma_magnitude_sign(z.unsigned_bits());
    let num: int = x.size() * one();
    assert(y.size() == 2 * x.size());
    assert(y.size() * one() == 2 * num) by (nonlinear_arith)
        requires
            num == x.size() * one(),
            y.size() == 2 * x.size(),
    ;
    assert(num >= 0 && (x.size() == 0 ==> num == 0)) by (nonlinear_arith)
        requires
            num == x.size() * one(),
            x.size() >= 0,
            one() > 0,
    ;
    let negative = x.negative() != z.negative();
    lemma_rounded_value(negative, num, z.size());
    lemma_rounded_value(negative, 2 * num, z.size());
    if x.value() == 0 {
        lemma_nearest_zero(z.size());
    } else {
        assert(x.quotient(z).unsigned_bits() == nearest(num, z.size()));
        lemma_nearest_doubles(num, z.size());
    }
}

/// Sums double whether they are small or not: below the normal numbers they
/// are exact.
proof fn lemma_nearest_whole_doubles(t: int)
    requires
        t >= 0,
        nearest(t, 1) < 0x7f00_0000,
    ensures
        magnitude(nearest(2 * t, 1)) == 2 * magnitude(nearest(t, 1)),
        nearest(2 * t, 1) < 0x7f80_0000,
{
    if t <= 0x100_0000 {
        lemma_first_magnitudes(t);
        lemma_nearest_exact(t);
        if t < 0x80_0000 {
            lemma_first_magnitudes(2 * t);
            lemma_nearest_exact(2 * t);
        } else {
            lemma_double_magnitude(t);
            lemma_nearest_exact(t + 0x80_0000);
        }
    } else {
        lemma_first_magnitudes(0x100_0000);
        lemma_nearest_exact(0x100_0000);
        lemma_nearest_monotone(0x100_0000, t, 1);
        lemma_nearest_doubles(t, 1);
    }
}

/// A sum of finite numbers, spelled out.
proof fn lemma_sum_form(a: Scalar, c: Scalar)
    requires
        a.finite(),
        c.finite(),
    ensures
        a.value() + c.value() == 0 ==> a.sum(c) == signed(a.negative() && c.negative(), 0),
        a.value() + c.value() != 0 ==> a.sum(c) == rounded(
            a.value() + c.value() < 0,
            absolute(a.value() + c.value()),
            1,
        ),
{
    reveal(Scalar::sum);
}

/// The parts of a rounded number.
proof fn lemma_rounded_parts(negative: bool, num: int)
    requires
        num >= 0,
        nearest(num, 1) < 0x7f80_0000,
    ensures
        rounded(negative, num, 1).finite(),
        rounded(negative, num, 1).negative() == negative,
        rounded(negative, num, 1).unsigned_bits() == nearest(num, 1),
        rounded(negative, num, 1).value() == if negative {
            -magnitude(nearest(num, 1))
        } else {
            magnitude(nearest(num, 1))
        },
{
    lemma_rounded_value(negative, num, 1);
}

proof fn lemma_sum_doubles(a: Scalar, b: Scalar, c: Scalar, d: Scalar)
    requires
        twice(a, b),
        twice(c, d),
        a.sum(c).unsigned_bits() < 0x7f00_0000,
    ensures
        twice(a.sum(c), b.sum(d)),
{
    let total: int = a.value() + c.value();
    let t: int = absolute(total);
    lemma_sum_form(a, c);
    lemma_sum_form(b, d);
    assert(b.value() + d.value() == 2 * total);
    if total == 0 {
        lemma_magnitude_sign(0);
    } else {
        assert(absolute(2 * total) == 2 * t);
        lemma_rounded_value(total < 0, t, 1);
        assert(a.sum(c).unsigned_bits() == nearest(t, 1));
        lemma_nearest_whole_doubles(t);
        lemma_rounded_parts(total < 0, t);
        lemma_rounded_parts(total < 0, 2 * t);
    }
}

/// The second color is twice the first.
pub open spec fn twice_color(c: Xyz, d: Xyz) -> bool {
    twice(c.x, d.x) && twice(c.y, d.y) && twice(c.z, d.z)
}

/// The second image is twice the first.
pub open spec fn twice_image(a: Seq<Xyz>, b: Seq<Xyz>) -> bool {
    a.len() == b.len() && forall|i: int| 0 <= i < a.len() ==> twice_color(#[trigger] a[i], b[i])
}

/// The color has room for the weight in every channel.
pub open spec fn roomy_weighted(c: Xyz, w: Scalar) -> bool {
    &&& roomy_product(c.x, w) && roomy_product(w, c.x)
    &&& roomy_product(c.y, w) && roomy_product(w, c.y)
    &&& roomy_product(c.z, w) && roomy_product(w, c.z)
}

/// The sum of two colors has room to be doubled.
pub open spec fn roomy_total(p: Xyz, c: Xyz) -> bool {
    &&& p.x.sum(c.x).unsigned_bits() < 0x7f00_0000
    &&& p.y.sum(c.y).unsigned_bits() < 0x7f00_0000
    &&& p.z.sum(c.z).unsigned_bits() < 0x7f00_0000
}

proof fn lemma_splatted_doubles(a: Seq<Xyz>, b: Seq<Xyz>, i: int, c: Xyz, d: Xyz)
    requires
        twice_image(a, b),
        0 <= i < a.len(),
        twice_color(c, d),
        roomy_total(a[i], c),
    ensures
        twice_image(splatted(a, i, c), splatted(b, i, d)),
{
    assert(twice_color(a[i], b[i]));
    lemma_sum_doubles(a[i].x, b[i].x, c.x, d.x);
    lemma_sum_doubles(a[i].y, b[i].y, c.y, d.y);
    lemma_sum_doubles(a[i].z, b[i].z, c.z, d.z);
    assert forall|j: int| 0 <= j < a.len() implies twice_color(
        #[trigger] splatted(a, i, c)[j],
        splatted(b, i, d)[j],
    ) by {
        assert(twice_color(a[j], b[j]));
    }
}

/// Twice the weight, or twice the color, gives twice the weighted color.
proof fn lemma_weighted_doubles(c: Xyz, d: Xyz, w: Scalar, v: Scalar)
    requires
        c == d && twice(w, v) || twice_color(c, d) && w == v,
        roomy_weighted(c, w),
    ensures
        twice_color(c.weighted(w), d.weighted(v)),
{
    if c == d && twice(w, v) {
        lemma_product_doubles(w, v, c.x);
        lemma_product_doubles(w, v, c.y);
        lemma_product_doubles(w, v, c.z);
    } else {
        lemma_product_doubles(c.x, d.x, w);
        lemma_product_doubles(c.y, d.y, w);
        lemma_product_doubles(c.z, d.z, w);
    }
}

impl Footprint {
    /// What a row adds has room to be doubled.
    pub open spec fn row_fits(
        self,
        image: Seq<Xyz>,
        width: int,
        color: Xyz,
        inv: Scalar,
        py: int,
        n: nat,
    ) -> bool
        decreases n,
    {
        n == 0 || {
            let before = self.row_spread(image, width, color, inv, py, (n - 1) as nat);
            let px = self.x0 + n - 1;
            let w = self.tent(px, py).product(inv);
            &&& self.row_fits(image, width, color, inv, py, (n - 1) as nat)
            &&& (Scalar { bits: 0 }).below(w) ==> roomy_weighted(color, w) && roomy_total(
                before[py * width + px],
                color.weighted(w),
            )
        }
    }

    /// What the rows add has room to be doubled.
    pub open spec fn spread_fits(
        self,
        image: Seq<Xyz>,
        width: int,
        color: Xyz,
        inv: Scalar,
        n: nat,
    ) -> bool
        decreases n,
    {
        n == 0 || {
            &&& self.spread_fits(image, width, color, inv, (n - 1) as nat)
            &&& self.row_fits(
                self.spread(image, width, color, inv, (n - 1) as nat),
                width,
                color,
                inv,
                self.y0 + n - 1,
                self.columns(),
            )
        }
    }

    proof fn lemma_row_doubles(
        self,
        a: Seq<Xyz>,
        b: Seq<Xyz>,
        width: int,
        height: int,
        c: Xyz,
        d: Xyz,
        inv: Scalar,
        py: int,
        n: nat,
    )
        requires
            self.well_formed(width, height),
            a.len() == width * height,
            width > 0,
            0 <= py < height,
            n <= self.columns(),
            twice_color(c, d),
            twice_image(a, b),
            self.row_fits(a, width, c, inv, py, n),
        ensures
            twice_image(
                self.row_spread(a, width, c, inv, py, n),
                self.row_spread(b, width, d, inv, py, n),
            ),
        decreases n,
    {
        if n > 0 {
            let (m, px) = ((n - 1) as nat, self.x0 + n - 1);
            let w = self.tent(px, py).product(inv);
            self.lemma_row_local(a, width, height, c, inv, py, m);
            self.lemma_row_doubles(a, b, width, height, c, d, inv, py, m);
            lemma_index_in_image(px, py, width, height);
            if (Scalar { bits: 0 }).below(w) {
                lemma_weighted_doubles(c, d, w, w);
                lemma_splatted_doubles(
                    self.row_spread(a, width, c, inv, py, m),
                    self.row_spread(b, width, d, inv, py, m),
                    py * width + px,
                    c.weighted(w),
                    d.weighted(w),
                );
            }
        }
    }

    proof fn lemma_spread_doubles(
        self,
        a: Seq<Xyz>,
        b: Seq<Xyz>,
        width: int,
        height: int,
        c: Xyz,
        d: Xyz,
        inv: Scalar,
        n: nat,
    )
        requires
            self.well_formed(width, height),
            a.len() == width * height,
            width > 0,
            n <= self.rows(),
            twice_color(c, d),
            twice_image(a, b),
            self.spread_fits(a, width, c, inv, n),
        ensures
            twice_image(
                self.spread(a, width, c, inv, n),
                self.spread(b, width, d, inv, n),
            ),
        decreases n,
    {
        if n > 0 {
            let m = (n - 1) as nat;
            self.lemma_spread_local(a, width, height, c, inv, m);
            self.lemma_spread_doubles(a, b, width, height, c, d, inv, m);
            self.lemma_row_doubles(
                self.spread(a, width, c, inv, m),
                self.spread(b, width, d, inv, m),
                width,
                height,
                c,
                d,
                inv,
                self.y0 + n - 1,
                self.columns(),
            );
        }
    }
}

/// What a splat adds has room to be doubled.
pub open spec fn splat_fits(
    image: Seq<Xyz>,
    width: int,
    height: int,
    s: Scalar,
    t: Scalar,
    color: Xyz,
    radius: Scalar,
) -> bool {
    let f = footprint_at(width, height, s, t, radius);
    let total = f.weight(f.rows());
    if total.at_most(Scalar { bits: 0 }) {
        roomy_total(
            image[inside(nearest_integer(f.cy), height) * width + inside(
                nearest_integer(f.cx),
                width,
            )],
            color,
        )
    } else {
        f.spread_fits(
            image,
            width,
            color,
            (Scalar { bits: ONE_BITS }).quotient(total),
            f.rows(),
        )
    }
}

proof fn lemma_splat_doubles(
    a: Seq<Xyz>,
    b: Seq<Xyz>,
    width: int,
    height: int,
    s: Scalar,
    t: Scalar,
    c: Xyz,
    d: Xyz,
    radius: Scalar,
)
    requires
        0 < width <= u64::MAX,
        0 < height <= u64::MAX,
        a.len() == width * height,
        twice_color(c, d),
        twice_image(a, b),
        splat_fits(a, width, height, s, t, c, radius),
    ensures
        twice_image(
            transverse_splat(a, width, height, s, t, c, radius),
            transverse_splat(b, width, height, s, t, d, radius),
        ),
{
    let f = footprint_at(width, height, s, t, radius);
    let total = f.weight(f.rows());
    assert(f.well_formed(width, height));
    if total.at_most(Scalar { bits: 0 }) {
        let px: int = inside(nearest_integer(f.cx), width);
        let py: int = inside(nearest_integer(f.cy), height);
        lemma_index_in_image(px, py, width, height);
        lemma_splatted_doubles(a, b, py * width + px, c, d);
    } else {
        f.lemma_spread_doubles(
            a,
            b,
            width,
            height,
            c,
            d,
            (Scalar { bits: ONE_BITS }).quotient(total),
            f.rows(),
        );
    }
}

/// What a photon scatters toward the eye has room to be doubled.
pub open spec fn connection_fits<P: Fn(Scalar) -> Scalar, E: Fn(Scalar) -> Scalar>(
    h: HazeView<P, E>,
    photon: PhotonState,
    p: Vector,
) -> bool {
    let d = eye_distance(h.view.origin, p);
    let ph = phase(h.medium.g, dot(photon.ray.dir, toward_eye(h.view.origin, p)), h.power);
    let through = result(h.exp, h.medium.sigma_t.negated().product(d));
    let u = photon.power.product(h.medium.sigma_s);
    &&& roomy_product(h.medium.sigma_s, photon.power)
    &&& roomy_product(u, ph)
    &&& roomy_product(u.product(ph), through)
    &&& roomy_quotient(u.product(ph).product(through), d.product(d))
}

/// The same haze with twice the scattering coefficient.
pub open spec fn twice_as_dense<P: Fn(Scalar) -> Scalar, E: Fn(Scalar) -> Scalar>(
    h: HazeView<P, E>,
    k: HazeView<P, E>,
) -> bool {
    &&& 0 < h.width <= u64::MAX
    &&& 0 < h.height <= u64::MAX
    &&& k == (HazeView {
        medium: Medium { sigma_s: k.medium.sigma_s, ..h.medium },
        ..h
    })
    &&& twice(h.medium.sigma_s, k.medium.sigma_s)
}

proof fn lemma_connection_doubles<P: Fn(Scalar) -> Scalar, E: Fn(Scalar) -> Scalar>(
    h: HazeView<P, E>,
    k: HazeView<P, E>,
    photon: PhotonState,
    p: Vector,
)
    requires
        twice_as_dense(h, k),
        connection_fits(h, photon, p),
    ensures
        twice(h.connected(photon, p), k.connected(photon, p)),
{
    let d = eye_distance(h.view.origin, p);
    let ph = phase(h.medium.g, dot(photon.ray.dir, toward_eye(h.view.origin, p)), h.power);
    let through = result(h.exp, h.medium.sigma_t.negated().product(d));
    let u = photon.power.product(h.medium.sigma_s);
    let v = photon.power.product(k.medium.sigma_s);
    lemma_product_doubles(h.medium.sigma_s, k.medium.sigma_s, photon.power);
    lemma_product_doubles(u, v, ph);
    lemma_product_doubles(u.product(ph), v.product(ph), through);
    lemma_quotient_doubles(
        u.product(ph).product(through),
        v.product(ph).product(through),
        d.product(d),
    );
}

/// What the first `n` scatter points add has room to be doubled.
pub open spec fn points_fit<P: Fn(Scalar) -> Scalar, E: Fn(Scalar) -> Scalar>(
    h: HazeView<P, E>,
    photon: PhotonState,
    color: Xyz,
    seg_len: Scalar,
    image: Seq<Xyz>,
    n: nat,
) -> bool
    decreases n,
{
    n == 0 || {
        let before = h.points(photon, color, seg_len, image, (n - 1) as nat);
        let p = drawn_point(photon.ray, seg_len, pcg(advanced(photon.counter, n)));
        let along = h.connected(photon, p).product(seg_len);
        let w = along.quotient(Scalar { bits: SEG_SAMPLES_BITS });
        &&& points_fit(h, photon, color, seg_len, image, (n - 1) as nat)
        &&& h.shown(p) matches Some((s, t)) ==> {
            &&& connection_fits(h, photon, p)
            &&& roomy_product(h.connected(photon, p), seg_len)
            &&& roomy_quotient(along, Scalar { bits: SEG_SAMPLES_BITS })
            &&& roomy_weighted(color, w)
            &&& roomy_total(before[pixel_at(s, t, h.width, h.height)], color.weighted(w))
        }
    }
}

proof fn lemma_points_double<P: Fn(Scalar) -> Scalar, E: Fn(Scalar) -> Scalar>(
    h: HazeView<P, E>,
    k: HazeView<P, E>,
    photon: PhotonState,
    color: Xyz,
    seg_len: Scalar,
    a: Seq<Xyz>,
    b: Seq<Xyz>,
    n: nat,
)
    requires
        twice_as_dense(h, k),
        a.len() == h.width * h.height,
        twice_image(a, b),
        points_fit(h, photon, color, seg_len, a, n),
    ensures
        twice_image(
            h.points(photon, color, seg_len, a, n),
            k.points(photon, color, seg_len, b, n),
        ),
        h.points(photon, color, seg_len, a, n).len() == a.len(),
    decreases n,
{
    if n > 0 {
        let m = (n - 1) as nat;
        lemma_points_double(h, k, photon, color, seg_len, a, b, m);
        let p = drawn_point(photon.ray, seg_len, pcg(advanced(photon.counter, n)));
        let four = Scalar { bits: SEG_SAMPLES_BITS };
        let (u, v) = (h.connected(photon, p), k.connected(photon, p));
        assert(h.shown(p) == k.shown(p));
        if let Some((s, t)) = h.shown(p) {
            lemma_connection_doubles(h, k, photon, p);
            lemma_product_doubles(u, v, seg_len);
            lemma_quotient_doubles(u.product(seg_len), v.product(seg_len), four);
            let (x, y) = (u.product(seg_len).quotient(four), v.product(seg_len).quotient(four));
            lemma_weighted_doubles(color, color, x, y);
            lemma_pixel_in_image(s, t, h.width, h.height);
            lemma_splatted_doubles(
                h.points(photon, color, seg_len, a, m),
                k.points(photon, color, seg_len, b, m),
                pixel_at(s, t, h.width, h.height),
                color.weighted(x),
                color.weighted(y),
            );
        }
    }
}

/// What the first `n` steps add has room to be doubled.
pub open spec fn steps_fit<P: Fn(Scalar) -> Scalar, E: Fn(Scalar) -> Scalar>(
    h: HazeView<P, E>,
    photon: PhotonState,
    color: Xyz,
    ds: Scalar,
    image: Seq<Xyz>,
    n: nat,
) -> bool
    decreases n,
{
    n == 0 || {
        let before = h.steps(photon, color, ds, image, (n - 1) as nat);
        let p = h.step_point(photon.ray, ds, n - 1);
        let w = h.connected(photon, p).product(ds);
        &&& steps_fit(h, photon, color, ds, image, (n - 1) as nat)
        &&& h.shown(p) matches Some((s, t)) ==> {
            &&& connection_fits(h, photon, p)
            &&& roomy_product(h.connected(photon, p), ds)
            &&& roomy_weighted(color, w)
            &&& splat_fits(
                before,
                h.width,
                h.height,
                s,
                t,
                color.weighted(w),
                h.footprint_radius(p, s, t),
            )
        }
    }
}

proof fn lemma_steps_double<P: Fn(Scalar) -> Scalar, E: Fn(Scalar) -> Scalar>(
    h: HazeView<P, E>,
    k: HazeView<P, E>,
    photon: PhotonState,
    color: Xyz,
    ds: Scalar,
    a: Seq<Xyz>,
    b: Seq<Xyz>,
    n: nat,
)
    requires
        twice_as_dense(h, k),
        a.len() == h.width * h.height,
        twice_image(a, b),
        steps_fit(h, photon, color, ds, a, n),
    ensures
        twice_image(h.steps(photon, color, ds, a, n), k.steps(photon, color, ds, b, n)),
        h.steps(photon, color, ds, a, n).len() == a.len(),
    decreases n,
{
    lemma_steps_length(h, photon, color, ds, a, n);
    if n > 0 {
        let m = (n - 1) as nat;
        lemma_steps_double(h, k, photon, color, ds, a, b, m);
        let p = h.step_point(photon.ray, ds, n - 1);
        let (u, v) = (h.connected(photon, p), k.connected(photon, p));
        assert(h.shown(p) == k.shown(p));
        if let Some((s, t)) = h.shown(p) {
            lemma_connection_doubles(h, k, photon, p);
            lemma_product_doubles(u, v, ds);
            lemma_weighted_doubles(color, color, u.product(ds), v.product(ds));
            assert(h.footprint_radius(p, s, t) == k.footprint_radius(p, s, t));
            lemma_splat_doubles(
                h.steps(photon, color, ds, a, m),
                k.steps(photon, color, ds, b, m),
                h.width,
                h.height,
                s,
                t,
                color.weighted(u.product(ds)),
                color.weighted(v.product(ds)),
                h.footprint_radius(p, s, t),
            );
        }
    }
}

/// What a segment adds has room to be doubled.
pub open spec fn segment_fits<P: Fn(Scalar) -> Scalar, E: Fn(Scalar) -> Scalar>(
    h: HazeView<P, E>,
    as_beam: bool,
    photon: PhotonState,
    color: Xyz,
    seg_len: Scalar,
    image: Seq<Xyz>,
) -> bool {
    if as_beam {
        let m = h.march(photon.ray, seg_len);
        steps_fit(h, photon, color, seg_len.quotient(integral(m)), image, m as nat)
    } else {
        points_fit(h, photon, color, seg_len, image, SEG_SAMPLES as nat)
    }
}

/// What a photon adds on at most `segments` more segments has room to be
/// doubled.
pub open spec fn path_fits<
    F: Fn(Scalar) -> (Scalar, Scalar),
    P: Fn(Scalar) -> Scalar,
    E: Fn(Scalar) -> Scalar,
>(
    scene: Scene,
    max_dist: Scalar,
    h: HazeView<P, E>,
    as_beam: bool,
    photon: PhotonState,
    lambda: Scalar,
    color: Xyz,
    image: Seq<Xyz>,
    turn: F,
    segments: nat,
) -> bool
    decreases segments,
{
    segments == 0 || {
        let hit = scene.hit(photon.ray);
        let seg_len = segment_length(hit, max_dist);
        let (left, counter) = deposit_of(h, as_beam)(photon, color, seg_len, image);
        &&& segment_fits(h, as_beam, photon, color, seg_len, image)
        &&& hit matches Some((hh, m)) ==> path_fits(
            scene,
            max_dist,
            h,
            as_beam,
            scattered_on(PhotonState { counter, ..photon }, hh, m, lambda, turn),
            lambda,
            color,
            left,
            turn,
            (segments - 1) as nat,
        )
    }
}

proof fn lemma_path_doubles<
    F: Fn(Scalar) -> (Scalar, Scalar),
    P: Fn(Scalar) -> Scalar,
    E: Fn(Scalar) -> Scalar,
>(
    scene: Scene,
    max_dist: Scalar,
    h: HazeView<P, E>,
    k: HazeView<P, E>,
    as_beam: bool,
    photon: PhotonState,
    lambda: Scalar,
    color: Xyz,
    a: Seq<Xyz>,
    b: Seq<Xyz>,
    turn: F,
    segments: nat,
)
    requires
        twice_as_dense(h, k),
        a.len() == h.width * h.height,
        twice_image(a, b),
        path_fits(scene, max_dist, h, as_beam, photon, lambda, color, a, turn, segments),
    ensures
        ({
            let left = hazed(
                scene,
                max_dist,
                deposit_of(h, as_beam),
                photon,
                lambda,
                color,
                a,
                turn,
                segments,
            );
            let right = hazed(
                scene,
                max_dist,
                deposit_of(k, as_beam),
                photon,
                lambda,
                color,
                b,
                turn,
                segments,
            );
            left.len() == a.len() && twice_image(left, right)
        }),
    decreases segments,
{
    reveal(hazed);
    if segments > 0 {
        let hit = scene.hit(photon.ray);
        let seg_len = segment_length(hit, max_dist);
        let (la, counter) = deposit_of(h, as_beam)(photon, color, seg_len, a);
        let (lb, _) = deposit_of(k, as_beam)(photon, color, seg_len, b);
        if as_beam {
            let m: int = h.march(photon.ray, seg_len);
            assert(k.march(photon.ray, seg_len) == m);
            lemma_steps_double(
                h,
                k,
                photon,
                color,
                seg_len.quotient(integral(m)),
                a,
                b,
                m as nat,
            );
        } else {
            lemma_points_double(h, k, photon, color, seg_len, a, b, SEG_SAMPLES as nat);
        }
        assert(twice_image(la, lb) && la.len() == a.len());
        if let Some((hh, m)) = hit {
            lemma_path_doubles(
                scene,
                max_dist,
                h,
                k,
                as_beam,
                scattered_on(PhotonState { counter, ..photon }, hh, m, lambda, turn),
                lambda,
                color,
                la,
                lb,
                turn,
                (segments - 1) as nat,
            );
        }
    }
}

/// What the first `n` photons of a beam add has room to be doubled.
pub open spec fn photons_fit<
    F: Fn(Scalar) -> (Scalar, Scalar),
    P: Fn(Scalar) -> Scalar,
    E: Fn(Scalar) -> Scalar,
>(
    scene: Scene,
    sensor: Sensor,
    beam: Beam,
    max_dist: Scalar,
    h: HazeView<P, E>,
    as_beam: bool,
    n: nat,
    seed: u32,
    turn: F,
) -> bool
    decreases n,
{
    n == 0 || {
        let e = emission(beam, (n - 1) as u32, seed);
        &&& photons_fit(
            scene,
            sensor,
            beam,
            max_dist,
            h,
            as_beam,
            (n - 1) as nat,
            seed,
            turn,
        )
        &&& path_fits(
            scene,
            max_dist,
            h,
            as_beam,
            PhotonState { ray: e.ray, counter: e.counter, power: Scalar { bits: ONE_BITS } },
            e.lambda,
            sensor.matching(e.lambda),
            haze_image(
                scene,
                sensor,
                beam,
                max_dist,
                deposit_of(h, as_beam),
                (h.width * h.height) as nat,
                (n - 1) as nat,
                seed,
                turn,
            ),
            turn,
            MAX_SEGMENTS as nat,
        )
    }
}

/// A haze of twice the density gives exactly twice the light, in every channel
/// of every pixel, where what is added on the way has room to be doubled.
pub proof fn lemma_light_doubles<
    F: Fn(Scalar) -> (Scalar, Scalar),
    P: Fn(Scalar) -> Scalar,
    E: Fn(Scalar) -> Scalar,
>(
    scene: Scene,
    sensor: Sensor,
    beam: Beam,
    max_dist: Scalar,
    h: HazeView<P, E>,
    k: HazeView<P, E>,
    as_beam: bool,
    n: nat,
    seed: u32,
    turn: F,
)
    requires
        twice_as_dense(h, k),
        photons_fit(scene, sensor, beam, max_dist, h, as_beam, n, seed, turn),
    ensures
        ({
            let pixels = (h.width * h.height) as nat;
            let thin = haze_image(
                scene,
                sensor,
                beam,
                max_dist,
                deposit_of(h, as_beam),
                pixels,
                n,
                seed,
                turn,
            );
            let thick = haze_image(
                scene,
                sensor,
                beam,
                max_dist,
                deposit_of(k, as_beam),
                pixels,
                n,
                seed,
                turn,
            );
            thin.len() == pixels && twice_image(thin, thick)
        }),
    decreases n,
{
    let pixels: int = h.width * h.height;
    assert(pixels > 0) by (nonlinear_arith)
        requires
            pixels == h.width * h.height,
            h.width > 0,
            h.height > 0,
    ;
    if n == 0 {
        lemma_magnitude_sign(0);
    } else {
        let m = (n - 1) as nat;
        lemma_light_doubles(scene, sensor, beam, max_dist, h, k, as_beam, m, seed, turn);
        let e = emission(beam, (n - 1) as u32, seed);
        lemma_path_doubles(
            scene,
            max_dist,
            h,
            k,
            as_beam,
            PhotonState { ray: e.ray, counter: e.counter, power: Scalar { bits: ONE_BITS } },
            e.lambda,
            sensor.matching(e.lambda),
            haze_image(
                scene,
                sensor,
                beam,
                max_dist,
                deposit_of(h, as_beam),
                pixels as nat,
                m,
                seed,
                turn,
            ),
            haze_image(
                scene,
                sensor,
                beam,
                max_dist,
                deposit_of(k, as_beam),
                pixels as nat,
                m,
                seed,
                turn,
            ),
            turn,
            MAX_SEGMENTS as nat,
        );
    }
}

} // verus!
