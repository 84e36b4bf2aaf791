//! What holds of every image of a haze: light only adds up, and a solid in
//! front only takes light away.
use crate::accum::dark_image;
use crate::arith::integral;
use crate::arith::lemma_nearest_zero;
use crate::arith::NAN_BITS;
use crate::cie::Sensor;
use crate::cie::Xyz;
use crate::convert::one;
use crate::geom::lemma_solid_hit_ahead;
use crate::geom::Ray;
use crate::geom::TWO_BITS;
use crate::lighttrace::emission;
use crate::lighttrace::lemma_pixel_in_image;
use crate::lighttrace::pixel_at;
use crate::lighttrace::scattered_on;
use crate::lighttrace::splatted;
use crate::lighttrace::Beam;
use crate::lighttrace::MAX_SEGMENTS;
use crate::lighttrace::PhotonState;
use crate::material::Material;
use crate::order::lemma_integral_not_negative;
use crate::order::lemma_one_size;
use crate::order::lemma_rounded_value;
use crate::order::lemma_square_bounded;
use crate::order::lemma_sum_operands;
use crate::order::lemma_sum_order;
use crate::order::lemma_sum_zero;
use crate::order::lemma_zero_product;
use crate::order::lemma_zero_sum;
use crate::rng::advanced;
use crate::rng::pcg;
use crate::scalar::lemma_magnitude_increases;
use crate::scalar::lemma_magnitude_sign;
use crate::scalar::lemma_negated;
use crate::scalar::ONE_BITS;
use crate::scalar::Scalar;
use crate::scene::distance;
use crate::scene::nearest;
use crate::scene::NEAREST_BITS;
use crate::scene::Primitive;
use crate::scene::Scene;
use crate::scene::Shape;
use crate::splat::footprint_at;
use crate::splat::inside;
use crate::splat::lemma_index_in_image;
use crate::splat::nearest_integer;
use crate::splat::transverse_splat;
use crate::splat::Footprint;
use crate::supplied::result;
use crate::vector::dot;
use crate::vector::Vector;
use crate::volume::drawn_point;
use crate::volume::eye_distance;
use crate::volume::haze_image;
use crate::volume::haze_on;
use crate::volume::hazed;
use crate::volume::lemma_batches;
use crate::volume::phase;
use crate::volume::segment_length;
use crate::volume::toward_eye;
use crate::volume::Deposit;
use crate::volume::FOUR_PI_BITS;
use crate::volume::HazeView;
use crate::volume::PHASE_FLOOR_BITS;
use crate::volume::SEG_SAMPLES;
use crate::volume::SEG_SAMPLES_BITS;
use vstd::arithmetic::power2::lemma_pow2_pos;
use vstd::prelude::*;

verus! {

/// A number with a positive sign, or none.
pub open spec fn light(x: Scalar) -> bool {
    x.nan() || !x.negative()
}

/// A color of light.
pub open spec fn colored(p: Xyz) -> bool {
    light(p.x) && light(p.y) && light(p.z)
}

/// A color whose channels are numbers.
pub open spec fn numeric(p: Xyz) -> bool {
    !p.x.nan() && !p.y.nan() && !p.z.nan()
}

/// An image whose channels are numbers.
pub open spec fn numbers(image: Seq<Xyz>) -> bool {
    forall|i: int| 0 <= i < image.len() ==> numeric(#[trigger] image[i])
}

/// Light that is nowhere more than the other.
pub open spec fn dimmer(p: Xyz, q: Xyz) -> bool {
    &&& numeric(p) && numeric(q)
    &&& colored(p) && colored(q)
    &&& p.x.at_most(q.x) && p.y.at_most(q.y) && p.z.at_most(q.z)
}

/// An image that is nowhere brighter than the other.
pub open spec fn under(a: Seq<Xyz>, b: Seq<Xyz>) -> bool {
    a.len() == b.len() && forall|i: int| 0 <= i < a.len() ==> dimmer(#[trigger] a[i], b[i])
}

proof fn lemma_light_product(x: Scalar, y: Scalar)
    requires
        light(x),
        light(y),
    ensures
        light(x.product(y)),
{
    reveal(Scalar::product);
    lemma_pow2_pos(149);
    lemma_magnitude_sign(x.unsigned_bits());
    lemma_magnitude_sign(y.unsigned_bits());
    assert(x.size() * y.size() >= 0) by (nonlinear_arith)
        requires
            x.size() >= 0,
            y.size() >= 0,
    ;
    lemma_rounded_value(false, x.size() * y.size(), one());
}

proof fn lemma_light_square(x: Scalar)
    ensures
        light(x.product(x)),
{
    reveal(Scalar::product);
    lemma_pow2_pos(149);
    lemma_magnitude_sign(x.unsigned_bits());
    assert(x.size() * x.size() >= 0) by (nonlinear_arith)
        requires
            x.size() >= 0,
    ;
    lemma_rounded_value(false, x.size() * x.size(), one());
}

proof fn lemma_light_quotient(x: Scalar, y: Scalar)
    requires
        light(x),
        light(y),
    ensures
        light(x.quotient(y)),
{
    reveal(Scalar::quotient);
    lemma_pow2_pos(149);
    lemma_magnitude_sign(x.unsigned_bits());
    lemma_magnitude_sign(y.unsigned_bits());
    assert(x.size() * one() >= 0) by (nonlinear_arith)
        requires
            x.size() >= 0,
            one() > 0,
    ;
    if y.size() > 0 {
        lemma_rounded_value(false, x.size() * one(), y.size());
    }
}

proof fn lemma_sum_commutes(x: Scalar, y: Scalar)
    ensures
        x.sum(y) == y.sum(x),
{
    reveal(Scalar::sum);
}

/// Adding light keeps an order, and never darkens.
proof fn lemma_sum_grows(a: Scalar, b: Scalar, c: Scalar)
    requires
        light(a) && light(b) && light(c),
        a.at_most(b),
        !c.nan(),
    ensures
        light(a.sum(c)) && light(b.sum(c)),
        a.sum(c).at_most(b.sum(c)),
        b.at_most(b.sum(c)),
{
    lemma_light_sum(a, c);
    lemma_light_sum(b, c);
    lemma_sum_commutes(a, c);
    lemma_sum_commutes(b, c);
    lemma_sum_order(c, a, b);
    lemma_sum_zero(b);
    lemma_magnitude_sign(0);
    lemma_magnitude_sign(c.unsigned_bits());
    lemma_sum_order(b, Scalar { bits: 0 }, c);
}

proof fn lemma_light_sum(a: Scalar, c: Scalar)
    requires
        light(a) && light(c),
        !a.nan() && !c.nan(),
    ensures
        light(a.sum(c)),
        !a.sum(c).nan(),
{
    reveal(Scalar::sum);
    lemma_magnitude_sign(a.unsigned_bits());
    lemma_magnitude_sign(c.unsigned_bits());
    lemma_rounded_value(false, a.value() + c.value(), 1);
}

proof fn lemma_total_grows(p: Xyz, q: Xyz, c: Xyz)
    requires
        dimmer(p, q),
        colored(c),
        numeric(c),
    ensures
        dimmer(p.total(c), q.total(c)),
        dimmer(p, q.total(c)),
{
    lemma_sum_grows(p.x, q.x, c.x);
    lemma_sum_grows(p.y, q.y, c.y);
    lemma_sum_grows(p.z, q.z, c.z);
}

proof fn lemma_weighted_colored(c: Xyz, w: Scalar)
    requires
        colored(c),
        light(w),
    ensures
        colored(c.weighted(w)),
{
    lemma_light_product(c.x, w);
    lemma_light_product(c.y, w);
    lemma_light_product(c.z, w);
}

/// An image that holds numbers after a splat held numbers before it.
proof fn lemma_splatted_back(b: Seq<Xyz>, i: int, c: Xyz)
    requires
        0 <= i < b.len(),
        numbers(splatted(b, i, c)),
    ensures
        numbers(b),
        numeric(c),
{
    let after = splatted(b, i, c);
    assert(numeric(after[i]));
    lemma_sum_operands(b[i].x, c.x);
    lemma_sum_operands(b[i].y, c.y);
    lemma_sum_operands(b[i].z, c.z);
    assert forall|j: int| 0 <= j < b.len() implies numeric(#[trigger] b[j]) by {
        assert(numeric(after[j]));
    }
}

proof fn lemma_splatted_under(a: Seq<Xyz>, b: Seq<Xyz>, i: int, c: Xyz)
    requires
        under(a, b),
        0 <= i < b.len(),
        colored(c),
        numbers(splatted(b, i, c)),
    ensures
        under(splatted(a, i, c), splatted(b, i, c)),
        under(a, splatted(b, i, c)),
{
    lemma_splatted_back(b, i, c);
    assert(dimmer(a[i], b[i]));
    lemma_total_grows(a[i], b[i], c);
    assert forall|j: int| 0 <= j < a.len() implies dimmer(
        #[trigger] splatted(a, i, c)[j],
        splatted(b, i, c)[j],
    ) by {
        assert(dimmer(a[j], b[j]));
    }
    assert forall|j: int| 0 <= j < a.len() implies dimmer(
        #[trigger] a[j],
        splatted(b, i, c)[j],
    ) by {
        assert(dimmer(a[j], b[j]));
    }
}

impl Footprint {
    proof fn lemma_row_under(
        self,
        a: Seq<Xyz>,
        b: Seq<Xyz>,
        width: int,
        height: int,
        color: Xyz,
        inv: Scalar,
        py: int,
        n: nat,
    )
        requires
            self.well_formed(width, height),
            b.len() == width * height,
            width > 0,
            0 <= py < height,
            n <= self.columns(),
            colored(color),
            numbers(self.row_spread(b, width, color, inv, py, n)),
        ensures
            numbers(b),
            self.row_spread(b, width, color, inv, py, n).len() == b.len(),
            under(a, b) ==> under(
                self.row_spread(a, width, color, inv, py, n),
                self.row_spread(b, width, color, inv, py, n),
            ),
            under(a, b) ==> under(a, self.row_spread(b, width, color, inv, py, n)),
        decreases n,
    {
        if n > 0 {
            let (m, px) = ((n - 1) as nat, self.x0 + n - 1);
            let before = self.row_spread(b, width, color, inv, py, m);
            let w = self.tent(px, py).product(inv);
            let c = color.weighted(w);
            let i: int = py * width + px;
            self.lemma_row_local(b, width, height, color, inv, py, m);
            lemma_index_in_image(px, py, width, height);
            if (Scalar { bits: 0 }).below(w) {
                lemma_magnitude_sign(0);
                lemma_magnitude_sign(w.unsigned_bits());
                lemma_weighted_colored(color, w);
                lemma_splatted_back(before, i, c);
            }
            self.lemma_row_under(a, b, width, height, color, inv, py, m);
            if (Scalar { bits: 0 }).below(w) && under(a, b) {
                lemma_splatted_under(self.row_spread(a, width, color, inv, py, m), before, i, c);
                lemma_splatted_under(a, before, i, c);
            }
        }
    }

    proof fn lemma_spread_under(
        self,
        a: Seq<Xyz>,
        b: Seq<Xyz>,
        width: int,
        height: int,
        color: Xyz,
        inv: Scalar,
        n: nat,
    )
        requires
            self.well_formed(width, height),
            b.len() == width * height,
            width > 0,
            n <= self.rows(),
            colored(color),
            numbers(self.spread(b, width, color, inv, n)),
        ensures
            numbers(b),
            self.spread(b, width, color, inv, n).len() == b.len(),
            under(a, b) ==> under(
                self.spread(a, width, color, inv, n),
                self.spread(b, width, color, inv, n),
            ),
            under(a, b) ==> under(a, self.spread(b, width, color, inv, n)),
        decreases n,
    {
        if n > 0 {
            let m = (n - 1) as nat;
            let py: int = self.y0 + n - 1;
            let before = self.spread(b, width, color, inv, m);
            self.lemma_spread_local(b, width, height, color, inv, m);
            self.lemma_row_under(
                self.spread(a, width, color, inv, m),
                before,
                width,
                height,
                color,
                inv,
                py,
                self.columns(),
            );
            self.lemma_row_under(a, before, width, height, color, inv, py, self.columns());
            self.lemma_spread_under(a, b, width, height, color, inv, m);
        }
    }
}

/// A splat adds the same light to either image.
proof fn lemma_splat_under(
    a: Seq<Xyz>,
    b: Seq<Xyz>,
    width: int,
    height: int,
    s: Scalar,
    t: Scalar,
    color: Xyz,
    radius: Scalar,
)
    requires
        0 < width <= u64::MAX,
        0 < height <= u64::MAX,
        b.len() == width * height,
        colored(color),
        numbers(transverse_splat(b, width, height, s, t, color, radius)),
    ensures
        numbers(b),
        transverse_splat(b, width, height, s, t, color, radius).len() == b.len(),
        under(a, b) ==> under(
            transverse_splat(a, width, height, s, t, color, radius),
            transverse_splat(b, width, height, s, t, color, radius),
        ),
        under(a, b) ==> under(a, transverse_splat(b, width, height, s, t, color, radius)),
{
    let f = footprint_at(width, height, s, t, radius);
    let total = f.weight(f.rows());
    assert(f.well_formed(width, height));
    if total.at_most(Scalar { bits: 0 }) {
        let px: int = inside(nearest_integer(f.cx), width);
        let py: int = inside(nearest_integer(f.cy), height);
        lemma_index_in_image(px, py, width, height);
        lemma_splatted_back(b, py * width + px, color);
        if under(a, b) {
            lemma_splatted_under(a, b, py * width + px, color);
        }
    } else {
        f.lemma_spread_under(
            a,
            b,
            width,
            height,
            color,
            (Scalar { bits: ONE_BITS }).quotient(total),
            f.rows(),
        );
    }
}

/// A haze that scatters light and takes none away.
pub open spec fn scatters<P: Fn(Scalar) -> Scalar, E: Fn(Scalar) -> Scalar>(
    h: HazeView<P, E>,
) -> bool {
    &&& 0 < h.width <= u64::MAX
    &&& 0 < h.height <= u64::MAX
    &&& h.zbuffer.len() >= h.width * h.height
    &&& light(h.medium.sigma_s)
    &&& !h.medium.g.nan() && h.medium.g.size() <= one()
    &&& forall|x: Scalar| light(#[trigger] result(h.power, x))
    &&& forall|x: Scalar| light(#[trigger] result(h.exp, x))
}

/// The same haze with solids nowhere farther.
pub open spec fn more_covered<P: Fn(Scalar) -> Scalar, E: Fn(Scalar) -> Scalar>(
    h: HazeView<P, E>,
    k: HazeView<P, E>,
) -> bool {
    &&& h == (HazeView { zbuffer: h.zbuffer, ..k })
    &&& h.zbuffer.len() >= h.width * h.height
    &&& forall|i: int|
        0 <= i < h.width * h.height ==> (#[trigger] h.zbuffer[i]).nan() || h.zbuffer[i].at_most(
            k.zbuffer[i],
        )
}

proof fn lemma_difference_light(g: Scalar)
    requires
        !g.nan(),
        g.size() <= one(),
    ensures
        light((Scalar { bits: ONE_BITS }).difference(g.product(g))),
{
    let unit = Scalar { bits: ONE_BITS };
    let square = g.product(g);
    lemma_square_bounded(g);
    lemma_one_size();
    lemma_negated(square);
    reveal(Scalar::difference);
    reveal(Scalar::sum);
    lemma_rounded_value(false, unit.value() - square.value(), 1);
    lemma_magnitude_sign(square.unsigned_bits());
    if square.infinite() {
        lemma_magnitude_increases(ONE_BITS as int, 0x7f80_0000);
    }
}

/// What a photon scatters toward the eye is light.
proof fn lemma_connected_light<P: Fn(Scalar) -> Scalar, E: Fn(Scalar) -> Scalar>(
    h: HazeView<P, E>,
    photon: PhotonState,
    p: Vector,
)
    requires
        scatters(h),
        light(photon.power),
    ensures
        light(h.connected(photon, p)),
{
    let d = eye_distance(h.view.origin, p);
    let cos_theta = dot(
        photon.ray.dir,
        toward_eye(h.view.origin, p),
    );
    let one = Scalar { bits: ONE_BITS };
    let g = h.medium.g;
    let g2 = g.product(g);
    let base = one.sum(g2).difference(
        (Scalar { bits: TWO_BITS }).product(g).product(cos_theta),
    ).larger(Scalar { bits: PHASE_FLOOR_BITS });
    let below = (Scalar { bits: FOUR_PI_BITS }).product(result(h.power, base));
    lemma_difference_light(g);
    lemma_light_product(Scalar { bits: FOUR_PI_BITS }, result(h.power, base));
    lemma_light_quotient(one.difference(g2), below);
    let ph = phase(g, cos_theta, h.power);
    let through = result(h.exp, h.medium.sigma_t.negated().product(d));
    let u = photon.power.product(h.medium.sigma_s);
    let v = u.product(ph);
    lemma_light_product(photon.power, h.medium.sigma_s);
    lemma_light_product(u, ph);
    lemma_light_product(v, through);
    lemma_light_square(d);
    lemma_light_quotient(v.product(through), d.product(d));
}

/// What is left by a segment, as a beam or by points.
pub open spec fn deposit_of<P: Fn(Scalar) -> Scalar, E: Fn(Scalar) -> Scalar>(
    h: HazeView<P, E>,
    as_beam: bool,
) -> Deposit {
    if as_beam {
        h.beam_deposit()
    } else {
        h.point_deposit()
    }
}

/// A point that shows behind nearer solids shows behind farther ones, in the
/// same place.
proof fn lemma_shown<P: Fn(Scalar) -> Scalar, E: Fn(Scalar) -> Scalar>(
    h: HazeView<P, E>,
    k: HazeView<P, E>,
    p: Vector,
)
    requires
        scatters(k),
        more_covered(h, k),
    ensures
        h.shown(p) is Some ==> h.shown(p) == k.shown(p),
{
    if let Some((s, t, _)) = h.view.projected(p) {
        lemma_pixel_in_image(s, t, h.width, h.height);
    }
}

proof fn lemma_points_under<P: Fn(Scalar) -> Scalar, E: Fn(Scalar) -> Scalar>(
    h: HazeView<P, E>,
    k: HazeView<P, E>,
    photon: PhotonState,
    color: Xyz,
    seg_len: Scalar,
    a: Seq<Xyz>,
    b: Seq<Xyz>,
    n: nat,
)
    requires
        scatters(k),
        more_covered(h, k),
        light(photon.power),
        light(seg_len),
        colored(color),
        b.len() == k.width * k.height,
        numbers(k.points(photon, color, seg_len, b, n)),
    ensures
        numbers(b),
        k.points(photon, color, seg_len, b, n).len() == b.len(),
        under(a, b) ==> under(
            h.points(photon, color, seg_len, a, n),
            k.points(photon, color, seg_len, b, n),
        ),
    decreases n,
{
    if n > 0 {
        let m = (n - 1) as nat;
        let before = k.points(photon, color, seg_len, b, m);
        lemma_points_length(k, photon, color, seg_len, b, m);
        let p = drawn_point(
            photon.ray,
            seg_len,
            pcg(advanced(photon.counter, n)),
        );
        let w = k.connected(photon, p).product(seg_len).quotient(
            Scalar { bits: SEG_SAMPLES_BITS },
        );
        lemma_shown(h, k, p);
        lemma_connected_light(k, photon, p);
        lemma_light_product(k.connected(photon, p), seg_len);
        lemma_light_quotient(
            k.connected(photon, p).product(seg_len),
            Scalar { bits: SEG_SAMPLES_BITS },
        );
        lemma_weighted_colored(color, w);
        if let Some((s, t)) = k.shown(p) {
            let i: int = pixel_at(s, t, k.width, k.height);
            lemma_pixel_in_image(s, t, k.width, k.height);
            lemma_splatted_back(before, i, color.weighted(w));
            lemma_points_under(h, k, photon, color, seg_len, a, b, m);
            if under(a, b) {
                lemma_splatted_under(
                    h.points(photon, color, seg_len, a, m),
                    before,
                    i,
                    color.weighted(w),
                );
            }
        } else {
            lemma_points_under(h, k, photon, color, seg_len, a, b, m);
        }
    }
}

proof fn lemma_points_length<P: Fn(Scalar) -> Scalar, E: Fn(Scalar) -> Scalar>(
    k: HazeView<P, E>,
    photon: PhotonState,
    color: Xyz,
    seg_len: Scalar,
    b: Seq<Xyz>,
    n: nat,
)
    requires
        0 < k.width,
        0 < k.height,
        b.len() == k.width * k.height,
    ensures
        k.points(photon, color, seg_len, b, n).len() == b.len(),
    decreases n,
{
    if n > 0 {
        lemma_points_length(k, photon, color, seg_len, b, (n - 1) as nat);
        let p = drawn_point(
            photon.ray,
            seg_len,
            pcg(advanced(photon.counter, n)),
        );
        if let Some((s, t)) = k.shown(p) {
            lemma_pixel_in_image(s, t, k.width, k.height);
        }
    }
}

proof fn lemma_steps_under<P: Fn(Scalar) -> Scalar, E: Fn(Scalar) -> Scalar>(
    h: HazeView<P, E>,
    k: HazeView<P, E>,
    photon: PhotonState,
    color: Xyz,
    ds: Scalar,
    a: Seq<Xyz>,
    b: Seq<Xyz>,
    n: nat,
)
    requires
        scatters(k),
        more_covered(h, k),
        light(photon.power),
        light(ds),
        colored(color),
        b.len() == k.width * k.height,
        numbers(k.steps(photon, color, ds, b, n)),
    ensures
        numbers(b),
        k.steps(photon, color, ds, b, n).len() == b.len(),
        under(a, b) ==> under(
            h.steps(photon, color, ds, a, n),
            k.steps(photon, color, ds, b, n),
        ),
    decreases n,
{
    if n > 0 {
        let m = (n - 1) as nat;
        let before = k.steps(photon, color, ds, b, m);
        lemma_steps_length(k, photon, color, ds, b, m);
        let p = k.step_point(photon.ray, ds, n - 1);
        let w = k.connected(photon, p).product(ds);
        lemma_shown(h, k, p);
        lemma_connected_light(k, photon, p);
        lemma_light_product(k.connected(photon, p), ds);
        lemma_weighted_colored(color, w);
        if let Some((s, t)) = k.shown(p) {
            lemma_splat_under(
                h.steps(photon, color, ds, a, m),
                before,
                k.width,
                k.height,
                s,
                t,
                color.weighted(w),
                k.footprint_radius(p, s, t),
            );
        }
        lemma_steps_under(h, k, photon, color, ds, a, b, m);
    }
}

proof fn lemma_splat_length(
    b: Seq<Xyz>,
    width: int,
    height: int,
    s: Scalar,
    t: Scalar,
    color: Xyz,
    radius: Scalar,
)
    requires
        0 < width <= u64::MAX,
        0 < height <= u64::MAX,
        b.len() == width * height,
    ensures
        transverse_splat(b, width, height, s, t, color, radius).len() == b.len(),
{
    let f = footprint_at(width, height, s, t, radius);
    let total = f.weight(f.rows());
    assert(f.well_formed(width, height));
    lemma_index_in_image(
        inside(nearest_integer(f.cx), width),
        inside(nearest_integer(f.cy), height),
        width,
        height,
    );
    if !total.at_most(Scalar { bits: 0 }) {
        f.lemma_spread_local(
            b,
            width,
            height,
            color,
            (Scalar { bits: ONE_BITS }).quotient(total),
            f.rows(),
        );
    }
}

pub proof fn lemma_steps_length<P: Fn(Scalar) -> Scalar, E: Fn(Scalar) -> Scalar>(
    k: HazeView<P, E>,
    photon: PhotonState,
    color: Xyz,
    ds: Scalar,
    b: Seq<Xyz>,
    n: nat,
)
    requires
        0 < k.width <= u64::MAX,
        0 < k.height <= u64::MAX,
        b.len() == k.width * k.height,
    ensures
        k.steps(photon, color, ds, b, n).len() == b.len(),
    decreases n,
{
    if n > 0 {
        let m = (n - 1) as nat;
        let before = k.steps(photon, color, ds, b, m);
        lemma_steps_length(k, photon, color, ds, b, m);
        let p = k.step_point(photon.ray, ds, n - 1);
        if let Some((s, t)) = k.shown(p) {
            lemma_splat_length(
                before,
                k.width,
                k.height,
                s,
                t,
                color.weighted(k.connected(photon, p).product(ds)),
                k.footprint_radius(p, s, t),
            );
        }
    }
}

/// A segment adds the same light, but for what is covered.
proof fn lemma_deposit_under<P: Fn(Scalar) -> Scalar, E: Fn(Scalar) -> Scalar>(
    h: HazeView<P, E>,
    k: HazeView<P, E>,
    as_beam: bool,
    photon: PhotonState,
    color: Xyz,
    seg_len: Scalar,
    a: Seq<Xyz>,
    b: Seq<Xyz>,
)
    requires
        scatters(k),
        more_covered(h, k),
        light(photon.power),
        light(seg_len),
        colored(color),
        b.len() == k.width * k.height,
    ensures
        deposit_of(k, as_beam)(photon, color, seg_len, b).0.len() == b.len(),
        deposit_of(h, as_beam)(photon, color, seg_len, a).1 == deposit_of(k, as_beam)(
            photon,
            color,
            seg_len,
            b,
        ).1,
        numbers(deposit_of(k, as_beam)(photon, color, seg_len, b).0) ==> numbers(b) && (under(a, b)
            ==> under(
            deposit_of(h, as_beam)(photon, color, seg_len, a).0,
            deposit_of(k, as_beam)(photon, color, seg_len, b).0,
        )),
{
    if as_beam {
        let m: int = k.march(photon.ray, seg_len);
        let ds = seg_len.quotient(integral(m));
        assert(h.march(photon.ray, seg_len) == m);
        lemma_integral_not_negative(m);
        lemma_pow2_pos(149);
        assert(m * one() >= 0) by (nonlinear_arith)
            requires
                m >= 1,
                one() > 0,
        ;
        lemma_rounded_value(false, m * one(), 1);
        lemma_light_quotient(seg_len, integral(m));
        lemma_steps_length(k, photon, color, ds, b, m as nat);
        if numbers(k.steps(photon, color, ds, b, m as nat)) {
            lemma_steps_under(h, k, photon, color, ds, a, b, m as nat);
        }
    } else {
        let n = SEG_SAMPLES as nat;
        lemma_points_length(k, photon, color, seg_len, b, n);
        if numbers(k.points(photon, color, seg_len, b, n)) {
            lemma_points_under(h, k, photon, color, seg_len, a, b, n);
        }
    }
}

/// Surfaces that give off no more than light.
pub open spec fn reflects(scene: Scene) -> bool {
    forall|i: int|
        0 <= i < scene.primitives@.len() ==> ((#[trigger] scene.primitives@[i]).material matches
            Material::Lambertian { reflectance } ==> light(reflectance))
}

/// A hit lies ahead, on one of the surfaces.
proof fn lemma_hit_ahead(primitives: Seq<Primitive>, ray: Ray, n: nat)
    requires
        n <= primitives.len(),
    ensures
        nearest(primitives, ray, n) matches Some((h, m)) ==> light(h.t) && exists|i: int|
            0 <= i < n && m == (#[trigger] primitives[i]).material,
    decreases n,
{
    if n > 0 {
        let before = nearest(primitives, ray, (n - 1) as nat);
        lemma_hit_ahead(primitives, ray, (n - 1) as nat);
        let low = Scalar { bits: NEAREST_BITS };
        let p = primitives[n - 1];
        lemma_magnitude_sign(low.unsigned_bits());
        lemma_magnitude_increases(0, low.unsigned_bits());
        if let Some(h) = p.hit(ray, low, distance(before)) {
            lemma_magnitude_sign(h.t.unsigned_bits());
            match p.shape {
                Shape::Sphere(s) => {},
                Shape::Solid(s) => {
                    lemma_solid_hit_ahead(s.planes@, ray, low, distance(before));
                },
            }
            assert(p == primitives[n - 1]);
        }
    }
}

/// A photon adds the same light, but for what is covered.
proof fn lemma_hazed_under<
    F: Fn(Scalar) -> (Scalar, Scalar),
    P: Fn(Scalar) -> Scalar,
    E: Fn(Scalar) -> Scalar,
>(
    scene: Scene,
    max_dist: Scalar,
    h: HazeView<P, E>,
    k: HazeView<P, E>,
    as_beam: bool,
    photon: PhotonState,
    lambda: Scalar,
    color: Xyz,
    a: Seq<Xyz>,
    b: Seq<Xyz>,
    turn: F,
    segments: nat,
)
    requires
        scatters(k),
        more_covered(h, k),
        reflects(scene),
        light(max_dist),
        light(photon.power),
        colored(color),
        b.len() == k.width * k.height,
    ensures
        ({
            let left = hazed(
                scene,
                max_dist,
                deposit_of(h, as_beam),
                photon,
                lambda,
                color,
                a,
                turn,
                segments,
            );
            let right = hazed(
                scene,
                max_dist,
                deposit_of(k, as_beam),
                photon,
                lambda,
                color,
                b,
                turn,
                segments,
            );
            right.len() == b.len() && (numbers(right) ==> numbers(b) && (under(a, b) ==> under(
                left,
                right,
            )))
        }),
    decreases segments,
{
    reveal(hazed);
    if segments > 0 {
        let hit = scene.hit(photon.ray);
        let seg_len = segment_length(hit, max_dist);
        lemma_hit_ahead(scene.primitives@, photon.ray, scene.primitives@.len());
        lemma_deposit_under(h, k, as_beam, photon, color, seg_len, a, b);
        let (la, counter) = deposit_of(h, as_beam)(photon, color, seg_len, a);
        let (lb, _) = deposit_of(k, as_beam)(photon, color, seg_len, b);
        if let Some((hh, m)) = hit {
            let i = choose|i: int|
                0 <= i < scene.primitives@.len() && m == (
                #[trigger] scene.primitives@[i]).material;
            let next = scattered_on(PhotonState { counter, ..photon }, hh, m, lambda, turn);
            let weight = match m {
                Material::Lambertian { reflectance } => reflectance,
                Material::Dielectric { .. } => Scalar { bits: ONE_BITS },
            };
            lemma_light_product(photon.power, weight);
            assert(next.power == photon.power.product(weight));
            lemma_hazed_under(
                scene,
                max_dist,
                h,
                k,
                as_beam,
                next,
                lambda,
                color,
                la,
                lb,
                turn,
                (segments - 1) as nat,
            );
        }
    }
}

/// Solids so near cover every point of the haze.
pub open spec fn all_covered<P: Fn(Scalar) -> Scalar, E: Fn(Scalar) -> Scalar>(
    h: HazeView<P, E>,
) -> bool {
    forall|i: int|
        0 <= i < h.width * h.height ==> !(Scalar { bits: NEAREST_BITS }).below(
            #[trigger] h.zbuffer[i],
        )
}

proof fn lemma_nothing_shown<P: Fn(Scalar) -> Scalar, E: Fn(Scalar) -> Scalar>(
    h: HazeView<P, E>,
    p: Vector,
)
    requires
        all_covered(h),
        h.width > 0,
        h.height > 0,
    ensures
        h.shown(p) is None,
{
    if let Some((s, t, _)) = h.view.projected(p) {
        lemma_pixel_in_image(s, t, h.width, h.height);
        let i: int = pixel_at(s, t, h.width, h.height);
        assert(!(Scalar { bits: NEAREST_BITS }).below(h.zbuffer[i]));
    }
}

proof fn lemma_covered_points<P: Fn(Scalar) -> Scalar, E: Fn(Scalar) -> Scalar>(
    h: HazeView<P, E>,
    photon: PhotonState,
    color: Xyz,
    seg_len: Scalar,
    image: Seq<Xyz>,
    n: nat,
)
    requires
        all_covered(h),
        h.width > 0,
        h.height > 0,
    ensures
        h.points(photon, color, seg_len, image, n) == image,
    decreases n,
{
    if n > 0 {
        lemma_covered_points(h, photon, color, seg_len, image, (n - 1) as nat);
        lemma_nothing_shown(
            h,
            drawn_point(
                photon.ray,
                seg_len,
                pcg(advanced(photon.counter, n)),
            ),
        );
    }
}

proof fn lemma_covered_steps<P: Fn(Scalar) -> Scalar, E: Fn(Scalar) -> Scalar>(
    h: HazeView<P, E>,
    photon: PhotonState,
    color: Xyz,
    ds: Scalar,
    image: Seq<Xyz>,
    n: nat,
)
    requires
        all_covered(h),
        h.width > 0,
        h.height > 0,
    ensures
        h.steps(photon, color, ds, image, n) == image,
    decreases n,
{
    if n > 0 {
        lemma_covered_steps(h, photon, color, ds, image, (n - 1) as nat);
        lemma_nothing_shown(h, h.step_point(photon.ray, ds, n - 1));
    }
}

proof fn lemma_covered_photon<
    F: Fn(Scalar) -> (Scalar, Scalar),
    P: Fn(Scalar) -> Scalar,
    E: Fn(Scalar) -> Scalar,
>(
    scene: Scene,
    max_dist: Scalar,
    h: HazeView<P, E>,
    as_beam: bool,
    photon: PhotonState,
    lambda: Scalar,
    color: Xyz,
    image: Seq<Xyz>,
    turn: F,
    segments: nat,
)
    requires
        all_covered(h),
        h.width > 0,
        h.height > 0,
    ensures
        hazed(
            scene,
            max_dist,
            deposit_of(h, as_beam),
            photon,
            lambda,
            color,
            image,
            turn,
            segments,
        ) == image,
    decreases segments,
{
    reveal(hazed);
    if segments > 0 {
        let hit = scene.hit(photon.ray);
        let seg_len = segment_length(hit, max_dist);
        let m: int = h.march(photon.ray, seg_len);
        lemma_covered_steps(h, photon, color, seg_len.quotient(integral(m)), image, m as nat);
        lemma_covered_points(
            h,
            photon,
            color,
            seg_len,
            image,
            SEG_SAMPLES as nat,
        );
        let (left, counter) = deposit_of(h, as_beam)(photon, color, seg_len, image);
        assert(left == image);
        if let Some((hh, mm)) = hit {
            lemma_covered_photon(
                scene,
                max_dist,
                h,
                as_beam,
                scattered_on(PhotonState { counter, ..photon }, hh, mm, lambda, turn),
                lambda,
                color,
                image,
                turn,
                (segments - 1) as nat,
            );
        }
    }
}

/// Solids within 1e-3 of the eye hide all of the haze: no photon adds to the
/// image.
pub proof fn lemma_covered_image<
    F: Fn(Scalar) -> (Scalar, Scalar),
    P: Fn(Scalar) -> Scalar,
    E: Fn(Scalar) -> Scalar,
>(
    scene: Scene,
    sensor: Sensor,
    beam: Beam,
    max_dist: Scalar,
    h: HazeView<P, E>,
    as_beam: bool,
    image: Seq<Xyz>,
    first: int,
    n: nat,
    seed: u32,
    turn: F,
)
    requires
        all_covered(h),
        h.width > 0,
        h.height > 0,
    ensures
        haze_on(
            scene,
            sensor,
            beam,
            max_dist,
            deposit_of(h, as_beam),
            image,
            first,
            n,
            seed,
            turn,
        ) == image,
    decreases n,
{
    if n > 0 {
        lemma_covered_image(
            scene,
            sensor,
            beam,
            max_dist,
            h,
            as_beam,
            image,
            first,
            (n - 1) as nat,
            seed,
            turn,
        );
        let e = emission(beam, (first + n - 1) as u32, seed);
        lemma_covered_photon(
            scene,
            max_dist,
            h,
            as_beam,
            PhotonState { ray: e.ray, counter: e.counter, power: Scalar { bits: ONE_BITS } },
            e.lambda,
            sensor.matching(e.lambda),
            image,
            turn,
            MAX_SEGMENTS as nat,
        );
    }
}

proof fn lemma_images_under<
    F: Fn(Scalar) -> (Scalar, Scalar),
    P: Fn(Scalar) -> Scalar,
    E: Fn(Scalar) -> Scalar,
>(
    scene: Scene,
    sensor: Sensor,
    beam: Beam,
    max_dist: Scalar,
    h: HazeView<P, E>,
    k: HazeView<P, E>,
    as_beam: bool,
    a: Seq<Xyz>,
    b: Seq<Xyz>,
    first: int,
    n: nat,
    seed: u32,
    turn: F,
)
    requires
        scatters(k),
        more_covered(h, k),
        reflects(scene),
        light(max_dist),
        forall|nm: Scalar| colored(#[trigger] sensor.matching(nm)),
        b.len() == k.width * k.height,
    ensures
        ({
            let left = haze_on(
                scene,
                sensor,
                beam,
                max_dist,
                deposit_of(h, as_beam),
                a,
                first,
                n,
                seed,
                turn,
            );
            let right = haze_on(
                scene,
                sensor,
                beam,
                max_dist,
                deposit_of(k, as_beam),
                b,
                first,
                n,
                seed,
                turn,
            );
            right.len() == b.len() && (numbers(right) ==> numbers(b) && (under(a, b) ==> under(
                left,
                right,
            )))
        }),
    decreases n,
{
    if n > 0 {
        lemma_images_under(
            scene,
            sensor,
            beam,
            max_dist,
            h,
            k,
            as_beam,
            a,
            b,
            first,
            (n - 1) as nat,
            seed,
            turn,
        );
        let e = emission(beam, (first + n - 1) as u32, seed);
        lemma_hazed_under(
            scene,
            max_dist,
            h,
            k,
            as_beam,
            PhotonState { ray: e.ray, counter: e.counter, power: Scalar { bits: ONE_BITS } },
            e.lambda,
            sensor.matching(e.lambda),
            haze_on(
                scene,
                sensor,
                beam,
                max_dist,
                deposit_of(h, as_beam),
                a,
                first,
                (n - 1) as nat,
                seed,
                turn,
            ),
            haze_on(
                scene,
                sensor,
                beam,
                max_dist,
                deposit_of(k, as_beam),
                b,
                first,
                (n - 1) as nat,
                seed,
                turn,
            ),
            turn,
            MAX_SEGMENTS as nat,
        );
    }
}

/// Nearer solids only take light away, and more photons only add light: of two
/// images of a haze that scatters light, the one with nearer solids and no more
/// photons is nowhere brighter, where the other holds numbers.
pub proof fn lemma_nowhere_brighter<
    F: Fn(Scalar) -> (Scalar, Scalar),
    P: Fn(Scalar) -> Scalar,
    E: Fn(Scalar) -> Scalar,
>(
    scene: Scene,
    sensor: Sensor,
    beam: Beam,
    max_dist: Scalar,
    h: HazeView<P, E>,
    k: HazeView<P, E>,
    as_beam: bool,
    fewer: nat,
    more: nat,
    seed: u32,
    turn: F,
)
    requires
        scatters(k),
        more_covered(h, k),
        fewer <= more,
        reflects(scene),
        light(max_dist),
        forall|nm: Scalar| colored(#[trigger] sensor.matching(nm)),
        numbers(
            haze_image(
                scene,
                sensor,
                beam,
                max_dist,
                deposit_of(k, as_beam),
                (k.width * k.height) as nat,
                more,
                seed,
                turn,
            ),
        ),
    ensures
        under(
            haze_image(
                scene,
                sensor,
                beam,
                max_dist,
                deposit_of(h, as_beam),
                (k.width * k.height) as nat,
                fewer,
                seed,
                turn,
            ),
            haze_image(
                scene,
                sensor,
                beam,
                max_dist,
                deposit_of(k, as_beam),
                (k.width * k.height) as nat,
                more,
                seed,
                turn,
            ),
        ),
{
    let pixels: int = k.width * k.height;
    assert(pixels > 0) by (nonlinear_arith)
        requires
            pixels == k.width * k.height,
            k.width > 0,
            k.height > 0,
    ;
    let dark = dark_image(pixels as nat);
    let rest = (more - fewer) as nat;
    lemma_magnitude_sign(0);
    assert(under(dark, dark));
    let left = haze_on(
        scene,
        sensor,
        beam,
        max_dist,
        deposit_of(h, as_beam),
        dark,
        0,
        fewer,
        seed,
        turn,
    );
    let right = haze_on(
        scene,
        sensor,
        beam,
        max_dist,
        deposit_of(k, as_beam),
        dark,
        0,
        fewer,
        seed,
        turn,
    );
    lemma_batches(
        scene,
        sensor,
        beam,
        max_dist,
        deposit_of(k, as_beam),
        dark,
        0,
        fewer,
        rest,
        seed,
        turn,
    );
    let hidden = HazeView {
        zbuffer: Seq::new(pixels as nat, |i: int| Scalar { bits: NAN_BITS }),
        ..k
    };
    lemma_images_under(
        scene,
        sensor,
        beam,
        max_dist,
        h,
        k,
        as_beam,
        dark,
        dark,
        0,
        fewer,
        seed,
        turn,
    );
    lemma_images_under(
        scene,
        sensor,
        beam,
        max_dist,
        hidden,
        k,
        as_beam,
        left,
        right,
        fewer as int,
        rest,
        seed,
        turn,
    );
    lemma_covered_image(
        scene,
        sensor,
        beam,
        max_dist,
        hidden,
        as_beam,
        left,
        fewer as int,
        rest,
        seed,
        turn,
    );
}

/// No light: zero, or not a number.
pub open spec fn blank(x: Scalar) -> bool {
    x.nan() || x.value() == 0
}

/// A color without light.
pub open spec fn unlit(p: Xyz) -> bool {
    blank(p.x) && blank(p.y) && blank(p.z)
}

/// An image without light.
pub open spec fn is_unlit(image: Seq<Xyz>) -> bool {
    forall|i: int| 0 <= i < image.len() ==> unlit(#[trigger] image[i])
}

pub proof fn lemma_blank_product(x: Scalar, y: Scalar)
    requires
        blank(x),
    ensures
        blank(x.product(y)),
        blank(y.product(x)),
{
    if x.nan() {
        reveal(Scalar::product);
    } else {
        lemma_zero_product(x, y);
        reveal(Scalar::product);
        assert(x.size() * y.size() == y.size() * x.size()) by (nonlinear_arith);
    }
}

proof fn lemma_blank_quotient(x: Scalar, y: Scalar)
    requires
        blank(x),
    ensures
        blank(x.quotient(y)),
{
    reveal(Scalar::quotient);
    lemma_magnitude_sign(0);
    lemma_magnitude_sign(x.unsigned_bits());
    lemma_magnitude_sign(y.unsigned_bits());
    if !x.nan() && !y.nan() && y.size() > 0 && !y.infinite() {
        assert(x.size() * one() == 0) by (nonlinear_arith)
            requires
                x.size() == 0,
        ;
        lemma_nearest_zero(y.size());
        lemma_rounded_value(x.negative() != y.negative(), 0, y.size());
    }
    if !x.nan() {
        lemma_magnitude_increases(0, 0x7f80_0000);
    }
}

proof fn lemma_blank_sum(x: Scalar, y: Scalar)
    requires
        blank(x),
        blank(y),
    ensures
        blank(x.sum(y)),
{
    if x.nan() || y.nan() {
        reveal(Scalar::sum);
    } else {
        lemma_zero_sum(x, y);
    }
}

proof fn lemma_unlit_splatted(b: Seq<Xyz>, i: int, c: Xyz)
    requires
        0 <= i < b.len(),
        is_unlit(b),
        unlit(c),
    ensures
        is_unlit(splatted(b, i, c)),
{
    assert(unlit(b[i]));
    lemma_blank_sum(b[i].x, c.x);
    lemma_blank_sum(b[i].y, c.y);
    lemma_blank_sum(b[i].z, c.z);
    assert forall|j: int| 0 <= j < b.len() implies unlit(#[trigger] splatted(b, i, c)[j]) by {
        assert(unlit(b[j]));
    }
}

proof fn lemma_unlit_weighted(c: Xyz, w: Scalar)
    requires
        blank(w) || unlit(c),
    ensures
        unlit(c.weighted(w)),
{
    if blank(w) {
        lemma_blank_product(w, c.x);
        lemma_blank_product(w, c.y);
        lemma_blank_product(w, c.z);
    } else {
        lemma_blank_product(c.x, w);
        lemma_blank_product(c.y, w);
        lemma_blank_product(c.z, w);
    }
}

impl Footprint {
    proof fn lemma_row_unlit(
        self,
        b: Seq<Xyz>,
        width: int,
        height: int,
        color: Xyz,
        inv: Scalar,
        py: int,
        n: nat,
    )
        requires
            self.well_formed(width, height),
            b.len() == width * height,
            width > 0,
            0 <= py < height,
            n <= self.columns(),
            unlit(color),
            is_unlit(b),
        ensures
            is_unlit(self.row_spread(b, width, color, inv, py, n)),
        decreases n,
    {
        if n > 0 {
            let (m, px) = ((n - 1) as nat, self.x0 + n - 1);
            let w = self.tent(px, py).product(inv);
            self.lemma_row_local(b, width, height, color, inv, py, m);
            self.lemma_row_unlit(b, width, height, color, inv, py, m);
            lemma_index_in_image(px, py, width, height);
            lemma_unlit_weighted(color, w);
            lemma_unlit_splatted(
                self.row_spread(b, width, color, inv, py, m),
                py * width + px,
                color.weighted(w),
            );
        }
    }

    proof fn lemma_spread_unlit(
        self,
        b: Seq<Xyz>,
        width: int,
        height: int,
        color: Xyz,
        inv: Scalar,
        n: nat,
    )
        requires
            self.well_formed(width, height),
            b.len() == width * height,
            width > 0,
            n <= self.rows(),
            unlit(color),
            is_unlit(b),
        ensures
            is_unlit(self.spread(b, width, color, inv, n)),
        decreases n,
    {
        if n > 0 {
            let m = (n - 1) as nat;
            self.lemma_spread_local(b, width, height, color, inv, m);
            self.lemma_spread_unlit(b, width, height, color, inv, m);
            self.lemma_row_unlit(
                self.spread(b, width, color, inv, m),
                width,
                height,
                color,
                inv,
                self.y0 + n - 1,
                self.columns(),
            );
        }
    }
}

proof fn lemma_splat_unlit(
    b: Seq<Xyz>,
    width: int,
    height: int,
    s: Scalar,
    t: Scalar,
    color: Xyz,
    radius: Scalar,
)
    requires
        0 < width <= u64::MAX,
        0 < height <= u64::MAX,
        b.len() == width * height,
        unlit(color),
        is_unlit(b),
    ensures
        is_unlit(transverse_splat(b, width, height, s, t, color, radius)),
{
    let f = footprint_at(width, height, s, t, radius);
    let total = f.weight(f.rows());
    assert(f.well_formed(width, height));
    if total.at_most(Scalar { bits: 0 }) {
        let px: int = inside(nearest_integer(f.cx), width);
        let py: int = inside(nearest_integer(f.cy), height);
        lemma_index_in_image(px, py, width, height);
        lemma_unlit_splatted(b, py * width + px, color);
    } else {
        f.lemma_spread_unlit(
            b,
            width,
            height,
            color,
            (Scalar { bits: ONE_BITS }).quotient(total),
            f.rows(),
        );
    }
}

/// A haze that scatters nothing, in an image of some size.
pub open spec fn is_clear<P: Fn(Scalar) -> Scalar, E: Fn(Scalar) -> Scalar>(
    h: HazeView<P, E>,
) -> bool {
    &&& 0 < h.width <= u64::MAX
    &&& 0 < h.height <= u64::MAX
    &&& h.medium.sigma_s.value() == 0
}

proof fn lemma_connected_blank<P: Fn(Scalar) -> Scalar, E: Fn(Scalar) -> Scalar>(
    h: HazeView<P, E>,
    photon: PhotonState,
    p: Vector,
)
    requires
        is_clear(h),
    ensures
        blank(h.connected(photon, p)),
{
    let d = eye_distance(h.view.origin, p);
    let cos_theta = dot(photon.ray.dir, toward_eye(h.view.origin, p));
    let through = result(h.exp, h.medium.sigma_t.negated().product(d));
    let ph = phase(h.medium.g, cos_theta, h.power);
    let u = photon.power.product(h.medium.sigma_s);
    lemma_blank_product(h.medium.sigma_s, photon.power);
    lemma_blank_product(u, ph);
    lemma_blank_product(u.product(ph), through);
    lemma_blank_quotient(u.product(ph).product(through), d.product(d));
}

proof fn lemma_points_unlit<P: Fn(Scalar) -> Scalar, E: Fn(Scalar) -> Scalar>(
    k: HazeView<P, E>,
    photon: PhotonState,
    color: Xyz,
    seg_len: Scalar,
    b: Seq<Xyz>,
    n: nat,
)
    requires
        is_clear(k),
        b.len() == k.width * k.height,
        is_unlit(b),
    ensures
        is_unlit(k.points(photon, color, seg_len, b, n)),
    decreases n,
{
    if n > 0 {
        let m = (n - 1) as nat;
        lemma_points_length(k, photon, color, seg_len, b, m);
        lemma_points_unlit(k, photon, color, seg_len, b, m);
        let p = drawn_point(photon.ray, seg_len, pcg(advanced(photon.counter, n)));
        let w = k.connected(photon, p).product(seg_len);
        lemma_connected_blank(k, photon, p);
        lemma_blank_product(k.connected(photon, p), seg_len);
        lemma_blank_quotient(w, Scalar { bits: SEG_SAMPLES_BITS });
        lemma_unlit_weighted(color, w.quotient(Scalar { bits: SEG_SAMPLES_BITS }));
        if let Some((s, t)) = k.shown(p) {
            lemma_pixel_in_image(s, t, k.width, k.height);
            lemma_unlit_splatted(
                k.points(photon, color, seg_len, b, m),
                pixel_at(s, t, k.width, k.height),
                color.weighted(w.quotient(Scalar { bits: SEG_SAMPLES_BITS })),
            );
        }
    }
}

proof fn lemma_steps_unlit<P: Fn(Scalar) -> Scalar, E: Fn(Scalar) -> Scalar>(
    k: HazeView<P, E>,
    photon: PhotonState,
    color: Xyz,
    ds: Scalar,
    b: Seq<Xyz>,
    n: nat,
)
    requires
        is_clear(k),
        b.len() == k.width * k.height,
        is_unlit(b),
    ensures
        is_unlit(k.steps(photon, color, ds, b, n)),
    decreases n,
{
    if n > 0 {
        let m = (n - 1) as nat;
        lemma_steps_length(k, photon, color, ds, b, m);
        lemma_steps_unlit(k, photon, color, ds, b, m);
        let p = k.step_point(photon.ray, ds, n - 1);
        let w = k.connected(photon, p).product(ds);
        lemma_connected_blank(k, photon, p);
        lemma_blank_product(k.connected(photon, p), ds);
        lemma_unlit_weighted(color, w);
        if let Some((s, t)) = k.shown(p) {
            lemma_splat_unlit(
                k.steps(photon, color, ds, b, m),
                k.width,
                k.height,
                s,
                t,
                color.weighted(w),
                k.footprint_radius(p, s, t),
            );
        }
    }
}

proof fn lemma_photon_unlit<
    F: Fn(Scalar) -> (Scalar, Scalar),
    P: Fn(Scalar) -> Scalar,
    E: Fn(Scalar) -> Scalar,
>(
    scene: Scene,
    max_dist: Scalar,
    k: HazeView<P, E>,
    as_beam: bool,
    photon: PhotonState,
    lambda: Scalar,
    color: Xyz,
    b: Seq<Xyz>,
    turn: F,
    segments: nat,
)
    requires
        is_clear(k),
        b.len() == k.width * k.height,
        is_unlit(b),
    ensures
        ({
            let after = hazed(
                scene,
                max_dist,
                deposit_of(k, as_beam),
                photon,
                lambda,
                color,
                b,
                turn,
                segments,
            );
            after.len() == b.len() && is_unlit(after)
        }),
    decreases segments,
{
    reveal(hazed);
    if segments > 0 {
        let hit = scene.hit(photon.ray);
        let seg_len = segment_length(hit, max_dist);
        let m: int = k.march(photon.ray, seg_len);
        let ds = seg_len.quotient(integral(m));
        lemma_points_unlit(k, photon, color, seg_len, b, SEG_SAMPLES as nat);
        lemma_points_length(k, photon, color, seg_len, b, SEG_SAMPLES as nat);
        lemma_steps_unlit(k, photon, color, ds, b, m as nat);
        lemma_steps_length(k, photon, color, ds, b, m as nat);
        let (left, counter) = deposit_of(k, as_beam)(photon, color, seg_len, b);
        assert(left.len() == b.len() && is_unlit(left));
        if let Some((hh, mm)) = hit {
            lemma_photon_unlit(
                scene,
                max_dist,
                k,
                as_beam,
                scattered_on(PhotonState { counter, ..photon }, hh, mm, lambda, turn),
                lambda,
                color,
                left,
                turn,
                (segments - 1) as nat,
            );
        }
    }
}

/// A haze without density gives no light: every channel of its image is zero,
/// wherever it is a number.
pub proof fn lemma_clear_haze<
    F: Fn(Scalar) -> (Scalar, Scalar),
    P: Fn(Scalar) -> Scalar,
    E: Fn(Scalar) -> Scalar,
>(
    scene: Scene,
    sensor: Sensor,
    beam: Beam,
    max_dist: Scalar,
    k: HazeView<P, E>,
    as_beam: bool,
    n: nat,
    seed: u32,
    turn: F,
)
    requires
        is_clear(k),
    ensures
        ({
            let image = haze_image(
                scene,
                sensor,
                beam,
                max_dist,
                deposit_of(k, as_beam),
                (k.width * k.height) as nat,
                n,
                seed,
                turn,
            );
            image.len() == k.width * k.height && is_unlit(image)
        }),
    decreases n,
{
    let pixels: int = k.width * k.height;
    assert(pixels > 0) by (nonlinear_arith)
        requires
            pixels == k.width * k.height,
            k.width > 0,
            k.height > 0,
    ;
    if n == 0 {
        lemma_magnitude_sign(0);
    } else {
        lemma_clear_haze(
            scene,
            sensor,
            beam,
            max_dist,
            k,
            as_beam,
            (n - 1) as nat,
            seed,
            turn,
        );
        let e = emission(beam, (0 + n - 1) as u32, seed);
        lemma_photon_unlit(
            scene,
            max_dist,
            k,
            as_beam,
            PhotonState { ray: e.ray, counter: e.counter, power: Scalar { bits: ONE_BITS } },
            e.lambda,
            sensor.matching(e.lambda),
            haze_image(
                scene,
                sensor,
                beam,
                max_dist,
                deposit_of(k, as_beam),
                pixels as nat,
                (n - 1) as nat,
                seed,
                turn,
            ),
            turn,
            MAX_SEGMENTS as nat,
        );
    }
}

/// Without photons the image is dark.
pub proof fn lemma_no_photons<
    F: Fn(Scalar) -> (Scalar, Scalar),
    P: Fn(Scalar) -> Scalar,
    E: Fn(Scalar) -> Scalar,
>(
    scene: Scene,
    sensor: Sensor,
    beam: Beam,
    max_dist: Scalar,
    h: HazeView<P, E>,
    as_beam: bool,
    pixels: nat,
    seed: u32,
    turn: F,
)
    ensures
        haze_image(
            scene,
            sensor,
            beam,
            max_dist,
            deposit_of(h, as_beam),
            pixels,
            0,
            seed,
            turn,
        ) == dark_image(pixels),
{
}

} // verus!
