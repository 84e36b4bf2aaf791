//! How photons leave the source.
use crate::arith::lemma_nearest_exists;
use crate::arith::lemma_nearest_monotone;
use crate::arith::nearest;
use crate::arith::rounded;
use crate::constants::lemma_constant;
use crate::convert::one;
use crate::exact::lemma_one;
use crate::exact::lemma_product_close;
use crate::exact::lemma_sum_close;
use crate::exact::number;
use crate::exact::size;
use crate::lighttrace::emission;
use crate::lighttrace::Beam;
use crate::lobe::lemma_draw_value;
use crate::order::lemma_rounded_value;
use crate::order::lemma_sum_is_number;
use crate::order::lemma_sum_order;
use crate::rng::advanced;
use crate::rng::is_unit;
use crate::rng::lemma_unit_unique;
use crate::rng::pcg;
use crate::rng::stream;
use crate::rng::unit_draw;
use crate::scalar::lemma_magnitude_increases;
use crate::scalar::lemma_magnitude_sign;
use crate::scalar::Scalar;
use crate::snell::lemma_small_product;
use crate::spectrum::LAMBDA_MIN_BITS;
use crate::spectrum::LAMBDA_RANGE_BITS;
use crate::squares::lemma_representable;
use crate::triple::finite;
use crate::triple::lemma_eps;
use crate::triple::triple;
use vstd::arithmetic::power2::lemma2_to64;
use vstd::arithmetic::power2::lemma_pow2_adds;
use vstd::arithmetic::power2::lemma_pow2_pos;
use vstd::arithmetic::power2::pow2;
use vstd::prelude::*;

verus! {

/// The part of one that a raw draw stands for: its upper 24 bits over 2^24.
pub open spec fn share(draw: u32) -> real {
    (draw as int / 256) as real / 16777216real
}

/// The number of a draw.
pub proof fn lemma_draw_number(draw: u32)
    ensures
        unit_draw(draw).finite(),
        number(unit_draw(draw)) == share(draw),
        0real <= share(draw) < 1real,
{
    reveal(number);
    lemma_one();
    let n: int = draw as int / 256;
    let k: int = lemma_representable(n, 125);
    let x = Scalar { bits: k as u32 };
    lemma_pow2_pos(125);
    assert(is_unit(x, draw));
    let u = unit_draw(draw);
    assert(is_unit(u, draw));
    lemma_unit_unique(x, u, draw);
    lemma_pow2_adds(24, 125);
    lemma2_to64();
    let p: int = pow2(125) as int;
    let (a, b, o) = (n as real, p as real, one() as real);
    assert((n * p) as real == a * b) by (nonlinear_arith)
        requires
            a == n as real,
            b == p as real,
    ;
    assert(o == 16777216real * b);
    assert((a * b) / (16777216real * b) == a / 16777216real) by (nonlinear_arith)
        requires
            b > 0real,
    ;
}

/// The wavelengths that photons may have.
proof fn lemma_band()
    ensures
        (Scalar { bits: LAMBDA_MIN_BITS }).finite(),
        number(Scalar { bits: LAMBDA_MIN_BITS }) == 380real,
        (Scalar { bits: LAMBDA_RANGE_BITS }).finite(),
        number(Scalar { bits: LAMBDA_RANGE_BITS }) == 350real,
{
    lemma2_to64();
    lemma_constant(LAMBDA_MIN_BITS, 134, 12451840, 32768real);
    lemma_constant(LAMBDA_RANGE_BITS, 134, 11468800, 32768real);
}

/// The wavelength of a photon is spread over the band by its third draw: it is
/// 380 nanometres and the draw's part of 350 more, to within a ten-thousandth.
/// So photons whose draws differ have different wavelengths, from one end of the
/// band to the other.
pub proof fn lemma_emitted_wavelength(beam: Beam, key: u32, seed: u32)
    ensures
        ({
            let lambda = emission(beam, key, seed).lambda;
            let u = share(stream(key, seed, 2));
            &&& lambda.finite()
            &&& size(number(lambda) - (380real + 350real * u)) <= 1real / 10000real
        }),
{
    reveal(emission);
    let draw: u32 = stream(key, seed, 2);
    let u = unit_draw(draw);
    let range = Scalar { bits: LAMBDA_RANGE_BITS };
    lemma_draw_number(draw);
    lemma_band();
    let x = share(draw);
    assert(number(range) * x == 350real * x) by (nonlinear_arith)
        requires
            number(range) == 350real,
    ;
    lemma_product_close(range, u, 350real);
    lemma_eps(350real);
    lemma_sum_close(Scalar { bits: LAMBDA_MIN_BITS }, range.product(u), 731real);
    lemma_eps(731real);
}

/// Photons whose third draws lie apart have wavelengths apart by the same part
/// of the band, in the same order.
pub proof fn lemma_emitted_order(beam: Beam, k1: u32, s1: u32, k2: u32, s2: u32)
    requires
        share(stream(k1, s1, 2)) + 1real / 1000000real <= share(stream(k2, s2, 2)),
    ensures
        number(emission(beam, k1, s1).lambda) < number(emission(beam, k2, s2).lambda),
        size(
            number(emission(beam, k2, s2).lambda) - number(emission(beam, k1, s1).lambda) - 350real
                * (share(stream(k2, s2, 2)) - share(stream(k1, s1, 2))),
        ) <= 1real / 5000real,
{
    lemma_emitted_wavelength(beam, k1, s1);
    lemma_emitted_wavelength(beam, k2, s2);
}

/// Products with one positive number keep the order of numbers that are not
/// negative.
proof fn lemma_products_ordered(r: Scalar, x: Scalar, y: Scalar)
    requires
        r.finite() && x.finite() && y.finite(),
        !r.negative() && !x.negative() && !y.negative(),
        x.value() <= y.value(),
    ensures
        r.product(x).value() <= r.product(y).value(),
{
    lemma_product_rounds(r, x);
    lemma_product_rounds(r, y);
    let (a, b, c) = (r.size(), x.size(), y.size());
    let (p, q) = (a * b, a * c);
    assert(0 <= p <= q) by (nonlinear_arith)
        requires
            p == a * b,
            q == a * c,
            0 <= a,
            0 <= b <= c,
    ;
    lemma_rounding_ordered(p, q);
}

/// The product of numbers that are not negative.
proof fn lemma_product_rounds(r: Scalar, x: Scalar)
    requires
        r.finite() && x.finite(),
        !r.negative() && !x.negative(),
    ensures
        r.product(x) == rounded(false, r.size() * x.size(), one()),
        0 <= r.size() && r.size() == r.value(),
        0 <= x.size() && x.size() == x.value(),
{
    reveal(Scalar::product);
    lemma_magnitude_sign(r.unsigned_bits());
    lemma_magnitude_sign(x.unsigned_bits());
}

/// Rounding keeps the order.
proof fn lemma_rounding_ordered(p: int, q: int)
    requires
        0 <= p <= q,
    ensures
        rounded(false, p, one()).value() <= rounded(false, q, one()).value(),
{
    lemma_pow2_pos(149);
    let o: int = one();
    lemma_nearest_monotone(p, q, o);
    lemma_nearest_exists(p, o);
    lemma_nearest_exists(q, o);
    let (k, l) = (nearest(p, o), nearest(q, o));
    lemma_rounded_value(false, p, o);
    lemma_rounded_value(false, q, o);
    if k < l {
        lemma_magnitude_increases(k, l);
    }
}

/// A larger third draw never gives a shorter wavelength.
pub proof fn lemma_emitted_monotone(beam: Beam, k1: u32, s1: u32, k2: u32, s2: u32)
    requires
        stream(k1, s1, 2) <= stream(k2, s2, 2),
    ensures
        emission(beam, k1, s1).lambda.at_most(emission(beam, k2, s2).lambda),
{
    reveal(emission);
    let (d1, d2) = (stream(k1, s1, 2), stream(k2, s2, 2));
    lemma_draw_number(d1);
    lemma_draw_number(d2);
    lemma_band();
    let (u1, u2) = (unit_draw(d1), unit_draw(d2));
    lemma_draw_value(d1);
    lemma_draw_value(d2);
    let (n1, n2, p) = (d1 as int / 256, d2 as int / 256, pow2(125) as int);
    assert(n1 * p <= n2 * p) by (nonlinear_arith)
        requires
            n1 <= n2,
            p >= 0,
    ;
    let range = Scalar { bits: LAMBDA_RANGE_BITS };
    lemma_products_ordered(range, u1, u2);
    let (x, y) = (range.product(u1), range.product(u2));
    lemma_product_close(range, u1, 350real);
    lemma_product_close(range, u2, 350real);
    let low = Scalar { bits: LAMBDA_MIN_BITS };
    lemma_sum_is_number(low, x);
    lemma_sum_is_number(low, y);
    lemma_sum_order(low, x, y);
}

/// A component of a point of the aperture.
proof fn lemma_aperture_component(c: Scalar, u: Scalar, v: Scalar, s: Scalar, t: Scalar, m: real)
    requires
        c.finite() && u.finite() && v.finite() && s.finite() && t.finite(),
        size(number(c)) <= m,
        size(number(u)) <= m,
        size(number(v)) <= m,
        1real / 1000000000000real <= m <= 1000000000000real,
        0real <= number(s) <= 1real,
        0real <= number(t) <= 1real,
    ensures
        c.sum(u.product(s)).sum(v.product(t)).finite(),
        size(
            number(c.sum(u.product(s)).sum(v.product(t))) - (number(c) + number(s) * number(u)
                + number(t) * number(v)),
        ) <= m / 1000000real,
{
    let (p, q) = (u.product(s), v.product(t));
    lemma_small_product(number(u), number(s), m, 1real);
    lemma_small_product(number(v), number(t), m, 1real);
    assert(number(u) * number(s) == number(s) * number(u)) by (nonlinear_arith);
    assert(number(v) * number(t) == number(t) * number(v)) by (nonlinear_arith);
    assert(1real * m == m);
    lemma_product_close(u, s, m);
    lemma_product_close(v, t, m);
    lemma_eps(m);
    let wide = (31real / 10real) * m;
    lemma_eps(wide);
    lemma_sum_close(c, p, wide);
    lemma_sum_close(c.sum(p), q, wide);
}

/// A photon leaves from the aperture, spread over it by its first two draws: as
/// far along the first edge as the first draw tells, and along the second as
/// the second does. It goes in the beam's direction.
pub proof fn lemma_emitted_ray(beam: Beam, key: u32, seed: u32, m: real)
    requires
        finite(beam.corner) && finite(beam.u) && finite(beam.v),
        1real / 1000000000000real <= m <= 1000000000000real,
        ({
            let (c, u, v) = (triple(beam.corner), triple(beam.u), triple(beam.v));
            &&& size(c.x) <= m && size(c.y) <= m && size(c.z) <= m
            &&& size(u.x) <= m && size(u.y) <= m && size(u.z) <= m
            &&& size(v.x) <= m && size(v.y) <= m && size(v.z) <= m
        }),
    ensures
        ({
            let ray = emission(beam, key, seed).ray;
            let (c, u, v) = (triple(beam.corner), triple(beam.u), triple(beam.v));
            let (s, t) = (share(stream(key, seed, 0)), share(stream(key, seed, 1)));
            let p = triple(ray.origin);
            &&& ray.dir == beam.dir
            &&& finite(ray.origin)
            &&& size(p.x - (c.x + s * u.x + t * v.x)) <= m / 1000000real
            &&& size(p.y - (c.y + s * u.y + t * v.y)) <= m / 1000000real
            &&& size(p.z - (c.z + s * u.z + t * v.z)) <= m / 1000000real
        }),
{
    reveal(emission);
    let (i, j): (u32, u32) = (stream(key, seed, 0), stream(key, seed, 1));
    let (s, t) = (unit_draw(i), unit_draw(j));
    lemma_draw_number(i);
    lemma_draw_number(j);
    lemma_aperture_component(beam.corner.x, beam.u.x, beam.v.x, s, t, m);
    lemma_aperture_component(beam.corner.y, beam.u.y, beam.v.y, s, t, m);
    lemma_aperture_component(beam.corner.z, beam.u.z, beam.v.z, s, t, m);
}

/// The stream goes on after these three draws.
pub proof fn lemma_emitted_stream(beam: Beam, key: u32, seed: u32, index: nat)
    ensures
        pcg(advanced(emission(beam, key, seed).counter, index + 1)) == stream(key, seed, index + 3),
{
    reveal(emission);
}

} // verus!
