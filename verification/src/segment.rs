//! What a photon leaves on a segment of its way through a haze: where its scatter
//! points lie, and how much each of them counts.
use crate::aperture::lemma_draw_number;
use crate::aperture::share;
use crate::arith::integral;
use crate::camera::ViewBasis;
use crate::cie::Xyz;
use crate::constants::lemma_constant;
use crate::exact::close;
use crate::exact::eps;
use crate::exact::lemma_product_close;
use crate::exact::lemma_sum_close;
use crate::exact::number;
use crate::exact::size;
use crate::fresnel::lemma_half_number;
use crate::geom::point_at;
use crate::geom::Ray;
use crate::inscatter::four_pi;
use crate::lighttrace::pixel_at;
use crate::lighttrace::splatted;
use crate::lighttrace::PhotonState;
use crate::optics::HALF_BITS;
use crate::primaries::is_color;
use crate::raster::lemma_integral_number;
use crate::relative::is_about;
use crate::relative::is_ordinary;
use crate::relative::lemma_about_itself;
use crate::relative::lemma_about_product;
use crate::relative::lemma_about_quotient;
use crate::relative::lemma_about_wider;
use crate::rng::advanced;
use crate::rng::pcg;
use crate::rng::unit_draw;
use crate::scalar::Scalar;
use crate::snell::lemma_small_product;
use crate::splat::transverse_splat;
use crate::triple::apart;
use crate::triple::combined;
use crate::triple::finite;
use crate::triple::lemma_eps;
use crate::triple::triple;
use crate::volume::drawn_point;
use crate::volume::isotropic_deposit;
use crate::volume::isotropic_points;
use crate::volume::isotropic_weight;
use crate::volume::HazeView;
use crate::volume::INV_4PI_BITS;
use crate::volume::SEG_SAMPLES_BITS;
use vstd::arithmetic::power2::lemma2_to64;
use vstd::prelude::*;

verus! {

/// Four, the number of scatter points of a segment.
proof fn lemma_samples()
    ensures
        (Scalar { bits: SEG_SAMPLES_BITS }).finite(),
        number(Scalar { bits: SEG_SAMPLES_BITS }) == 4real,
        is_about(Scalar { bits: SEG_SAMPLES_BITS }, 4real, 0real),
{
    lemma2_to64();
    lemma_constant(SEG_SAMPLES_BITS, 128, 8388608, 2097152real);
}

/// The isotropic phase function: one over four pi.
proof fn lemma_isotropic_phase()
    ensures
        is_about(Scalar { bits: INV_4PI_BITS }, 1real / four_pi(), 1real / 1000000real),
{
    lemma2_to64();
    lemma_constant(INV_4PI_BITS, 122, 10680707, 134217728real);
    let (x, f) = (number(Scalar { bits: INV_4PI_BITS }), four_pi());
    let r = 1real / f;
    assert(r * f == 1real && r > 0real) by (nonlinear_arith)
        requires
            r == 1real / f,
            f == 12566371real / 1000000real,
    ;
    let d = x - r;
    assert(size(x * f - 1real) <= 1real / 10000000real) by (nonlinear_arith)
        requires
            x == 10680707real / 134217728real,
            f == 12566371real / 1000000real,
    ;
    assert(d * f == x * f - 1real) by (nonlinear_arith)
        requires
            d == x - r,
            r * f == 1real,
    ;
    assert(d <= (1real / 1000000real) * r && -d <= (1real / 1000000real) * r) by (nonlinear_arith)
        requires
            d * f <= 1real / 10000000real,
            -(d * f) <= 1real / 10000000real,
            r * f == 1real,
            f == 12566371real / 1000000real,
    ;
}

/// A number from a ten-thousandth to ten thousand.
pub open spec fn is_common(x: Scalar) -> bool {
    x.finite() && 1real / 10000real <= number(x) <= 10000real
}

/// One scatter point in an isotropic haze counts with the photon's power, the
/// scattering coefficient and a quarter of the segment, evenly over the whole
/// sphere of directions: over four pi.
pub proof fn lemma_isotropic_weight(power: Scalar, sigma_s: Scalar, seg_len: Scalar)
    requires
        is_common(power),
        is_common(sigma_s),
        is_common(seg_len),
    ensures
        is_about(
            isotropic_weight(power, sigma_s, seg_len),
            (((number(power) * number(sigma_s)) * number(seg_len)) / 4real) * (1real / four_pi()),
            1real / 100000real,
        ),
{
    let (p, s, l) = (number(power), number(sigma_s), number(seg_len));
    let m = 1real / 1000000real;
    lemma_about_itself(power);
    lemma_about_itself(sigma_s);
    lemma_about_itself(seg_len);
    lemma_samples();
    lemma_isotropic_phase();
    let (lo, hi) = (1real / 10000real, 10000real);
    let ps = p * s;
    assert(1real / 100000000real <= ps <= 100000000real) by (nonlinear_arith)
        requires
            ps == p * s,
            1real / 10000real <= p <= 10000real,
            1real / 10000real <= s <= 10000real,
    ;
    let psl = ps * l;
    assert(1real / 1000000000000real <= psl <= 1000000000000real) by (nonlinear_arith)
        requires
            psl == ps * l,
            1real / 100000000real <= ps <= 100000000real,
            1real / 10000real <= l <= 10000real,
    ;
    lemma_about_product(power, sigma_s, p, s, 0real, 0real);
    let a = power.product(sigma_s);
    lemma_about_product(a, seg_len, ps, l, m, 0real);
    let b = a.product(seg_len);
    lemma_about_quotient(b, Scalar { bits: SEG_SAMPLES_BITS }, psl, 4real, 2real * m, 0real);
    let c = b.quotient(Scalar { bits: SEG_SAMPLES_BITS });
    let (q, i) = (psl / 4real, 1real / four_pi());
    assert(q * i == q / four_pi()) by (nonlinear_arith)
        requires
            i == 1real / four_pi(),
            four_pi() > 0real,
    ;
    assert(is_ordinary(q * i));
    lemma_about_product(c, Scalar { bits: INV_4PI_BITS }, q, i, 3real * m, m);
    lemma_about_wider(
        c.product(Scalar { bits: INV_4PI_BITS }),
        q * i,
        3real * m + m + m,
        1real / 100000real,
    );
}

/// A component of a point of a ray.
proof fn lemma_point_component(o: Scalar, d: Scalar, t: Scalar, exact: real, m: real)
    requires
        o.finite() && d.finite() && t.finite(),
        1real <= m <= 1000000real,
        size(number(o)) <= m,
        size(number(d)) <= 1001real / 1000real,
        0real <= exact <= m,
        size(number(t) - exact) <= m / 200000real,
    ensures
        o.sum(d.product(t)).finite(),
        size(number(o.sum(d.product(t))) - (number(o) + exact * number(d))) <= m / 100000real,
{
    let (x, y, z) = (number(o), number(d), number(t));
    let w = 1001real / 1000real;
    lemma_small_product(y, z, w, (101real / 100real) * m);
    lemma_product_close(d, t, (102real / 100real) * m);
    lemma_eps((102real / 100real) * m);
    lemma_sum_close(o, d.product(t), (203real / 100real) * m);
    lemma_eps((203real / 100real) * m);
    let e = z - exact;
    lemma_small_product(e, y, m / 200000real, w);
    assert(y * z == exact * y + e * y) by (nonlinear_arith)
        requires
            e == z - exact,
    ;
}

/// A ray within bounds: `m` bounds the components of its origin, and its
/// direction has unit length at most.
pub open spec fn is_bounded(ray: Ray, m: real) -> bool {
    &&& finite(ray.origin) && finite(ray.dir)
    &&& 1real <= m <= 1000000real
    &&& size(number(ray.origin.x)) <= m
    &&& size(number(ray.origin.y)) <= m
    &&& size(number(ray.origin.z)) <= m
    &&& size(number(ray.dir.x)) <= 1001real / 1000real
    &&& size(number(ray.dir.y)) <= 1001real / 1000real
    &&& size(number(ray.dir.z)) <= 1001real / 1000real
}

pub proof fn lemma_point(ray: Ray, t: Scalar, exact: real, m: real)
    requires
        is_bounded(ray, m),
        t.finite(),
        0real <= exact <= m,
        size(number(t) - exact) <= m / 200000real,
    ensures
        finite(point_at(ray, t)),
        apart(
            triple(point_at(ray, t)),
            combined(triple(ray.origin), exact, triple(ray.dir)),
            m / 100000real,
        ),
{
    lemma_point_component(ray.origin.x, ray.dir.x, t, exact, m);
    lemma_point_component(ray.origin.y, ray.dir.y, t, exact, m);
    lemma_point_component(ray.origin.z, ray.dir.z, t, exact, m);
}

/// A drawn scatter point lies on the segment, at the draw's part of its length
/// from the start.
pub proof fn lemma_drawn_place(ray: Ray, seg_len: Scalar, draw: u32, m: real)
    requires
        is_bounded(ray, m),
        seg_len.finite(),
        0real <= number(seg_len) <= m,
    ensures
        finite(drawn_point(ray, seg_len, draw)),
        apart(
            triple(drawn_point(ray, seg_len, draw)),
            combined(triple(ray.origin), share(draw) * number(seg_len), triple(ray.dir)),
            m / 100000real,
        ),
{
    assert(eps() == 1real / 16700000real);
    lemma_draw_number(draw);
    let (u, l) = (share(draw), number(seg_len));
    let ul = u * l;
    assert(0real <= ul <= l) by (nonlinear_arith)
        requires
            ul == u * l,
            0real <= u < 1real,
            l >= 0real,
    ;
    lemma_product_close(unit_draw(draw), seg_len, m);
    lemma_eps(m);
    lemma_point(ray, unit_draw(draw).product(seg_len), ul, m);
}

/// The steps of a beam divide its segment evenly, and each is taken at its
/// middle: step `k` of `n` lies at `(k + 1/2) / n` of the length.
pub proof fn lemma_step_place<P: Fn(Scalar) -> Scalar, E: Fn(Scalar) -> Scalar>(
    view: HazeView<P, E>,
    ray: Ray,
    seg_len: Scalar,
    k: int,
    n: int,
    m: real,
)
    requires
        is_bounded(ray, m),
        is_common(seg_len),
        number(seg_len) <= m,
        0 <= k < n <= 4096,
    ensures
        ({
            let ds = seg_len.quotient(integral(n));
            let p = view.step_point(ray, ds, k);
            &&& is_about(ds, number(seg_len) / n as real, 1real / 1000000real)
            &&& finite(p)
            &&& apart(
                triple(p),
                combined(
                    triple(ray.origin),
                    (k as real + 1real / 2real) * (number(seg_len) / n as real),
                    triple(ray.dir),
                ),
                m / 100000real,
            )
        }),
{
    assert(eps() == 1real / 16700000real);
    let (l, x) = (number(seg_len), n as real);
    lemma_integral_number(n);
    lemma_integral_number(k);
    lemma_half_number();
    lemma_about_itself(seg_len);
    lemma_about_itself(integral(n));
    let q = l / x;
    assert(q * x == l) by (nonlinear_arith)
        requires
            q == l / x,
            x > 0real,
    ;
    assert(1real / 100000000real <= q <= 10000real) by (nonlinear_arith)
        requires
            q * x == l,
            1real / 10000real <= l <= 10000real,
            1real <= x <= 4096real,
    ;
    lemma_about_quotient(seg_len, integral(n), l, x, 0real, 0real);
    let ds = seg_len.quotient(integral(n));
    assert(is_about(ds, q, 1real / 1000000real));
    let half = Scalar { bits: HALF_BITS };
    let c = k as real + 1real / 2real;
    lemma_sum_close(integral(k), half, c);
    lemma_eps(c);
    let h = integral(k).sum(half);
    assert(is_about(h, c, 1real / 1000000real));
    let cq = c * q;
    assert(0real < cq <= l) by (nonlinear_arith)
        requires
            cq == c * q,
            q * x == l,
            1real / 2real <= c <= x,
            q > 0real,
    ;
    assert(cq >= 1real / 1000000000real) by (nonlinear_arith)
        requires
            cq == c * q,
            c >= 1real / 2real,
            q >= 1real / 100000000real,
    ;
    lemma_about_product(h, ds, c, q, 1real / 1000000real, 1real / 1000000real);
    let t = h.product(ds);
    let e = 1real / 1000000real + 1real / 1000000real + 1real / 1000000real;
    assert(e * cq <= m / 200000real) by (nonlinear_arith)
        requires
            e == 3real / 1000000real,
            0real < cq <= m,
    ;
    lemma_point(ray, t, cq, m);
}

/// What a scatter point adds: where it shows, the pixel gains the color, weighted
/// by the light sent to the eye and a quarter of the segment; else nothing
/// changes.
pub proof fn lemma_point_adds<P: Fn(Scalar) -> Scalar, E: Fn(Scalar) -> Scalar>(
    view: HazeView<P, E>,
    photon: PhotonState,
    color: Xyz,
    seg_len: Scalar,
    image: Seq<Xyz>,
    n: nat,
) -> (w: Scalar)
    ensures
        ({
            let before = view.points(photon, color, seg_len, image, n);
            let after = view.points(photon, color, seg_len, image, n + 1);
            let p = drawn_point(photon.ray, seg_len, pcg(advanced(photon.counter, n + 1)));
            let c = view.connected(photon, p);
            &&& view.shown(p) is None ==> after == before
            &&& view.shown(p) matches Some((s, t)) ==> after == splatted(
                before,
                pixel_at(s, t, view.width, view.height),
                color.weighted(w),
            )
            &&& is_common(seg_len) && c.finite() && 1real / 100000000000000000000real <= number(c)
                <= 100000000000000000000real ==> is_about(
                w,
                (number(c) * number(seg_len)) / 4real,
                1real / 100000real,
            )
        }),
{
    let p = drawn_point(photon.ray, seg_len, pcg(advanced(photon.counter, n + 1)));
    let c = view.connected(photon, p);
    let four = Scalar { bits: SEG_SAMPLES_BITS };
    let w = c.product(seg_len).quotient(four);
    assert((n + 1 - 1) as nat == n);
    if is_common(seg_len) && c.finite() && 1real / 100000000000000000000real <= number(c)
        <= 100000000000000000000real {
        let m = 1real / 1000000real;
        lemma_samples();
        lemma_about_itself(c);
        lemma_about_itself(seg_len);
        let (x, l) = (number(c), number(seg_len));
        lemma_scaled_range(x, l);
        lemma_about_product(c, seg_len, x, l, 0real, 0real);
        lemma_about_quotient(c.product(seg_len), four, x * l, 4real, m, 0real);
        lemma_about_wider(w, (x * l) / 4real, m + 0real + m, 1real / 100000real);
    }
    w
}

proof fn lemma_scaled_range(x: real, l: real)
    requires
        1real / 100000000000000000000real <= x <= 100000000000000000000real,
        1real / 10000real <= l <= 10000real,
    ensures
        1real / 1000000000000000000000000real <= x * l <= 1000000000000000000000000real,
{
    assert(1real / 1000000000000000000000000real <= x * l <= 1000000000000000000000000real)
        by (nonlinear_arith)
        requires
            1real / 100000000000000000000real <= x <= 100000000000000000000real,
            1real / 10000real <= l <= 10000real,
    ;
}

/// What a step of a beam adds: where it shows, the color, weighted by the light
/// sent to the eye and the length of the step, is spread over the beam's
/// footprint about the place; else nothing changes.
pub proof fn lemma_step_adds<P: Fn(Scalar) -> Scalar, E: Fn(Scalar) -> Scalar>(
    view: HazeView<P, E>,
    photon: PhotonState,
    color: Xyz,
    ds: Scalar,
    image: Seq<Xyz>,
    n: nat,
) -> (w: Scalar)
    ensures
        ({
            let before = view.steps(photon, color, ds, image, n);
            let after = view.steps(photon, color, ds, image, n + 1);
            let p = view.step_point(photon.ray, ds, n as int);
            let c = view.connected(photon, p);
            &&& view.shown(p) is None ==> after == before
            &&& view.shown(p) matches Some((s, t)) ==> after == transverse_splat(
                before,
                view.width,
                view.height,
                s,
                t,
                color.weighted(w),
                view.footprint_radius(p, s, t),
            )
            &&& is_common(ds) && c.finite() && 1real / 100000000000000000000real <= number(c)
                <= 100000000000000000000real ==> is_about(
                w,
                number(c) * number(ds),
                1real / 100000real,
            )
        }),
{
    let p = view.step_point(photon.ray, ds, n as int);
    let c = view.connected(photon, p);
    let w = c.product(ds);
    assert((n + 1 - 1) as nat == n);
    if is_common(ds) && c.finite() && 1real / 100000000000000000000real <= number(c)
        <= 100000000000000000000real {
        lemma_about_itself(c);
        lemma_about_itself(ds);
        let (x, l) = (number(c), number(ds));
        lemma_scaled_range(x, l);
        lemma_about_product(c, ds, x, l, 0real, 0real);
        lemma_about_wider(w, x * l, 0real + 0real + 1real / 1000000real, 1real / 100000real);
    }
    w
}

/// What a scatter point in an isotropic haze adds.
pub proof fn lemma_isotropic_adds(
    view: ViewBasis,
    width: int,
    height: int,
    sigma_s: Scalar,
    photon: PhotonState,
    color: Xyz,
    seg_len: Scalar,
    image: Seq<Xyz>,
    n: nat,
) -> (w: Scalar)
    requires
        is_common(photon.power),
        is_common(sigma_s),
        is_common(seg_len),
    ensures
        ({
            let before = isotropic_points(
                view,
                width,
                height,
                sigma_s,
                photon,
                color,
                seg_len,
                image,
                n,
            );
            let after = isotropic_points(
                view,
                width,
                height,
                sigma_s,
                photon,
                color,
                seg_len,
                image,
                n + 1,
            );
            let p = drawn_point(photon.ray, seg_len, pcg(advanced(photon.counter, n + 1)));
            &&& view.projected(p) is None ==> after == before
            &&& view.projected(p) matches Some((s, t, _)) ==> after == splatted(
                before,
                pixel_at(s, t, width, height),
                color.weighted(w),
            )
            &&& is_about(
                w,
                (((number(photon.power) * number(sigma_s)) * number(seg_len)) / 4real) * (1real
                    / four_pi()),
                1real / 100000real,
            )
        }),
{
    lemma_isotropic_weight(photon.power, sigma_s, seg_len);
    assert((n + 1 - 1) as nat == n);
    isotropic_weight(photon.power, sigma_s, seg_len)
}

/// A segment has four scatter points, with a draw for each; as a beam it has the
/// steps of its march, all of one length, and takes no draw.
pub proof fn lemma_deposits<P: Fn(Scalar) -> Scalar, E: Fn(Scalar) -> Scalar>(
    view: HazeView<P, E>,
    sigma_s: Scalar,
    photon: PhotonState,
    color: Xyz,
    seg_len: Scalar,
    image: Seq<Xyz>,
)
    ensures
        ({
            let by_points = view.point_deposit();
            let as_beam = view.beam_deposit();
            let even = isotropic_deposit(view.view, view.width, view.height, sigma_s);
            let m = view.march(photon.ray, seg_len);
            &&& by_points(photon, color, seg_len, image).0 == view.points(
                photon,
                color,
                seg_len,
                image,
                4,
            )
            &&& by_points(photon, color, seg_len, image).1 == advanced(photon.counter, 4)
            &&& even(photon, color, seg_len, image).0 == isotropic_points(
                view.view,
                view.width,
                view.height,
                sigma_s,
                photon,
                color,
                seg_len,
                image,
                4,
            )
            &&& even(photon, color, seg_len, image).1 == advanced(photon.counter, 4)
            &&& as_beam(photon, color, seg_len, image).0 == view.steps(
                photon,
                color,
                seg_len.quotient(integral(m)),
                image,
                m as nat,
            )
            &&& as_beam(photon, color, seg_len, image).1 == photon.counter
        }),
{
}

/// A splat adds its color to one pixel and leaves the others.
pub proof fn lemma_splat_adds(image: Seq<Xyz>, i: int, color: Xyz, bound: real)
    requires
        0 <= i < image.len(),
        is_color(image[i], bound),
        is_color(color, bound),
    ensures
        ({
            let (old_pixel, new_pixel) = (image[i], splatted(image, i, color)[i]);
            let e = bound / 1000000real;
            &&& splatted(image, i, color).len() == image.len()
            &&& forall|k: int|
                0 <= k < image.len() && k != i ==> #[trigger] splatted(image, i, color)[k]
                    == image[k]
            &&& close(new_pixel.x, number(old_pixel.x) + number(color.x), e)
            &&& close(new_pixel.y, number(old_pixel.y) + number(color.y), e)
            &&& close(new_pixel.z, number(old_pixel.z) + number(color.z), e)
        }),
{
    assert(eps() == 1real / 16700000real);
    let p = image[i];
    lemma_sum_close(p.x, color.x, 2real * bound);
    lemma_sum_close(p.y, color.y, 2real * bound);
    lemma_sum_close(p.z, color.z, 2real * bound);
    lemma_eps(2real * bound);
}

} // verus!
