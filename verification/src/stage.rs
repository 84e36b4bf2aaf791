//! The scene of the picture: an equilateral prism, and a thin sheet of light that
//! comes up from the left.
use crate::constants::lemma_constant;
use crate::constants::lemma_negative_constant;
use crate::exact::eps;
use crate::exact::lemma_product_close;
use crate::exact::number;
use crate::exact::size;
use crate::interior::lemma_axis_numbers;
use crate::norm::lemma_inner_short;
use crate::norm::lemma_short_components;
use crate::norm::minus;
use crate::norm::scaled;
use crate::norm::short;
use crate::optics::HALF_BITS;
use crate::picture::prism_beam;
use crate::picture::prism_planes;
use crate::picture::vector_of;
use crate::picture::BEAM_WIDTH_BITS;
use crate::picture::BEAM_X_BITS;
use crate::picture::BEAM_Y_BITS;
use crate::picture::CORNER_X_BITS;
use crate::picture::CORNER_Y_BITS;
use crate::picture::CORNER_Z_BITS;
use crate::picture::FACE_D_BITS;
use crate::picture::NEG_BEAM_Y_BITS;
use crate::picture::NEG_ONE_BITS;
use crate::picture::NEG_SLANT_BITS;
use crate::picture::SHEET_BITS;
use crate::picture::SLANT_BITS;
use crate::projection::lemma_even_short;
use crate::scalar::Scalar;
use crate::snell::lemma_inner_commutes;
use crate::snell::lemma_inner_sum;
use crate::snell::lemma_number_sign;
use crate::snell::lemma_small_product;
use crate::transmission::lemma_inner_scaled;
use crate::triple::apart;
use crate::triple::finite;
use crate::triple::inner;
use crate::triple::lemma_eps;
use crate::triple::lemma_unit_close;
use crate::triple::triple;
use crate::triple::Triple;
use crate::vector::unit;
use crate::vector::vector_scaled;
use vstd::arithmetic::power2::lemma2_to64;
use vstd::prelude::*;

verus! {

/// The prism has three faces along z whose normals are of unit length and a third
/// of a turn apart: one to the left, one to the right and the base below. The
/// slanted ones are 0.9 from the axis and the base one; the caps are one from the
/// middle.
pub proof fn lemma_prism_faces()
    ensures
        ({
            let planes = prism_planes();
            let (l, r, b) = (
                triple(planes[0].normal),
                triple(planes[1].normal),
                triple(planes[2].normal),
            );
            let e = 1real / 1000000real;
            &&& planes.len() == 5
            &&& size(inner(l, l) - 1real) <= e
            &&& size(inner(r, r) - 1real) <= e
            &&& size(inner(l, r) + 1real / 2real) <= e
            &&& size(inner(l, b) + 1real / 2real) <= e
            &&& size(inner(r, b) + 1real / 2real) <= e
            &&& l.x < 0real < r.x
            &&& l.z == 0real && r.z == 0real
            &&& b == (Triple { x: 0real, y: -1real, z: 0real })
            &&& triple(planes[3].normal) == (Triple { x: 0real, y: 0real, z: 1real })
            &&& triple(planes[4].normal) == (Triple { x: 0real, y: 0real, z: -1real })
            &&& size(number(planes[0].d) + 9real / 10real) <= e
            &&& size(number(planes[1].d) + 9real / 10real) <= e
            &&& number(planes[2].d) == -1real
            &&& number(planes[3].d) == -1real
            &&& number(planes[4].d) == -1real
        }),
{
    lemma2_to64();
    lemma_axis_numbers();
    lemma_number_sign(Scalar { bits: 0 });
    lemma_constant(HALF_BITS, 125, 8388608, 16777216real);
    lemma_constant(SLANT_BITS, 125, 14529495, 16777216real);
    lemma_negative_constant(NEG_SLANT_BITS, 125, 14529495, 16777216real);
    lemma_negative_constant(FACE_D_BITS, 125, 15099494, 16777216real);
    lemma_negative_constant(NEG_ONE_BITS, 126, 8388608, 8388608real);
    let s = 14529495real / 16777216real;
    assert(size(s * s - 3real / 4real) <= 1real / 10000000real) by (nonlinear_arith)
        requires
            s == 14529495real / 16777216real,
    ;
    assert((-s) * s == -(s * s) && (-s) * (-s) == s * s) by (nonlinear_arith);
    let h = 1real / 2real;
    assert(h * h == 1real / 4real);
    assert(0real * 0real == 0real);
    let planes = prism_planes();
    let (l, r, b) = (
        triple(planes[0].normal),
        triple(planes[1].normal),
        triple(planes[2].normal),
    );
    assert(l == (Triple { x: -s, y: h, z: 0real }));
    assert(r == (Triple { x: s, y: h, z: 0real }));
    assert(b == (Triple { x: 0real, y: -1real, z: 0real }));
    assert(inner(l, r) == (-s) * s + h * h + 0real * 0real);
    assert(inner(l, b) == (-s) * 0real + h * (-1real) + 0real * 0real);
    assert(inner(r, b) == s * 0real + h * (-1real) + 0real * 0real);
    assert((-s) * 0real == 0real && s * 0real == 0real);
}

/// The sheet of light: it sets out from the left, below and behind the middle of
/// the prism, along a direction of unit length that goes 54 up for every 84 to
/// the right, 1.2 deep along z, and 0.05 wide square to its direction.
pub proof fn lemma_beam_sheet()
    ensures
        ({
            let beam = prism_beam();
            let (c, u, v, d) = (
                triple(beam.corner),
                triple(beam.u),
                triple(beam.v),
                triple(beam.dir),
            );
            let e = 1real / 100000real;
            &&& finite(beam.corner) && finite(beam.u) && finite(beam.v) && finite(beam.dir)
            &&& size(c.x + 26real / 10real) <= e
            &&& size(c.y + 95real / 100real) <= e
            &&& size(c.z + 6real / 10real) <= e
            &&& u.x == 0real && u.y == 0real && size(u.z - 12real / 10real) <= e
            &&& size(inner(d, d) - 1real) <= e
            &&& d.x > 0real && size(84real * d.y - 54real * d.x) <= 1real / 1000real
            &&& size(d.z) <= e
            &&& size(inner(v, d)) <= e
            &&& size(inner(v, v) - 25real / 10000real) <= e
            &&& v.y > 0real
        }),
{
    let e = 1real / 16700000real;
    assert(eps() == e);
    lemma2_to64();
    lemma_number_sign(Scalar { bits: 0 });
    lemma_constant(BEAM_X_BITS, 125, 14092861, 16777216real);
    lemma_constant(BEAM_Y_BITS, 125, 9059697, 16777216real);
    lemma_negative_constant(NEG_BEAM_Y_BITS, 125, 9059697, 16777216real);
    lemma_constant(BEAM_WIDTH_BITS, 121, 13421773, 268435456real);
    lemma_negative_constant(CORNER_X_BITS, 127, 10905190, 4194304real);
    lemma_negative_constant(CORNER_Y_BITS, 125, 15938355, 16777216real);
    lemma_negative_constant(CORNER_Z_BITS, 125, 10066330, 16777216real);
    lemma_constant(SHEET_BITS, 126, 10066330, 8388608real);
    let (x, y) = (14092861real / 16777216real, 9059697real / 16777216real);
    let (ahead, aside) = (
        vector_of(BEAM_X_BITS, BEAM_Y_BITS, 0),
        vector_of(NEG_BEAM_Y_BITS, BEAM_X_BITS, 0),
    );
    let (at, st) = (triple(ahead), triple(aside));
    assert(at == (Triple { x, y, z: 0real }));
    assert(st == (Triple { x: -y, y: x, z: 0real }));
    let q = x * x + y * y;
    assert(99real / 100real <= q <= 1real) by (nonlinear_arith)
        requires
            q == x * x + y * y,
            x == 14092861real / 16777216real,
            y == 9059697real / 16777216real,
    ;
    assert((-y) * (-y) == y * y && 0real * 0real == 0real) by (nonlinear_arith);
    assert(inner(at, at) == q && inner(st, st) == q);
    let k = lemma_unit_close(ahead);
    let j = lemma_unit_close(aside);
    lemma_near_unit(k, q);
    lemma_near_unit(j, q);
    let d = triple(unit(ahead));
    let n = triple(unit(aside));
    assert(k * 0real == 0real && j * 0real == 0real);
    lemma_short_components(d, 1001real / 1000real);
    lemma_short_components(n, 1001real / 1000real);
    // The direction.
    lemma_small_product(k, x, 102real / 100real, 1real);
    assert(k * x > 0real && k * y > 0real) by (nonlinear_arith)
        requires
            k >= 98real / 100real,
            x == 14092861real / 16777216real,
            y == 9059697real / 16777216real,
    ;
    assert(k * x >= 8real / 10real) by (nonlinear_arith)
        requires
            k >= 98real / 100real,
            x == 14092861real / 16777216real,
    ;
    let z = 84real * y - 54real * x;
    assert(84real * (k * y) - 54real * (k * x) == z * k) by (nonlinear_arith)
        requires
            z == 84real * y - 54real * x,
    ;
    lemma_small_product(z, k, 1real / 10000real, 102real / 100real);
    // The sides of the two directions.
    let (kd, jn) = (scaled(k, at), scaled(j, st));
    lemma_sheet_width(d, n, kd, jn, k, j, x, y);
    let width = Scalar { bits: BEAM_WIDTH_BITS };
    let w = number(width);
    let nv = unit(aside);
    lemma_width_component(nv.x, width);
    lemma_width_component(nv.y, width);
    lemma_width_component(nv.z, width);
    let v = triple(vector_scaled(nv, width));
    lemma_scaled_readings(v, n, d, w);
    assert(j * x >= 8real / 10real) by (nonlinear_arith)
        requires
            j >= 98real / 100real,
            x == 14092861real / 16777216real,
    ;
    assert(w * n.y >= 3real / 100real) by (nonlinear_arith)
        requires
            w >= 49real / 1000real,
            n.y >= 79real / 100real,
    ;
}

proof fn lemma_near_unit(k: real, q: real)
    requires
        k > 0real,
        size((k * k) * q - 1real) <= (714real / 100real) * eps(),
        99real / 100real <= q <= 1real,
    ensures
        98real / 100real <= k <= 102real / 100real,
{
    assert(eps() == 1real / 16700000real);
    let kk = k * k;
    assert(kk >= 0real) by (nonlinear_arith)
        requires
            kk == k * k,
    ;
    assert(kk <= 102real / 100real) by (nonlinear_arith)
        requires
            kk * q <= 1real + 1real / 1000000real,
            q >= 99real / 100real,
            kk >= 0real,
    ;
    assert(kk >= 99real / 100real) by (nonlinear_arith)
        requires
            kk * q >= 1real - 1real / 1000000real,
            q <= 1real,
            kk >= 0real,
    ;
    assert(k <= 102real / 100real && k >= 98real / 100real) by (nonlinear_arith)
        requires
            k * k <= 102real / 100real,
            k * k >= 99real / 100real,
            k > 0real,
    ;
}

/// The direction and the side of the sheet are square to each other.
proof fn lemma_sheet_width(
    d: Triple,
    n: Triple,
    kd: Triple,
    jn: Triple,
    k: real,
    j: real,
    x: real,
    y: real,
)
    requires
        kd == (Triple { x: k * x, y: k * y, z: 0real }),
        jn == (Triple { x: j * (-y), y: j * x, z: 0real }),
        apart(d, kd, (101real / 100real) * (1real / 16700000real)),
        apart(n, jn, (101real / 100real) * (1real / 16700000real)),
        0real < k <= 102real / 100real,
        0real < j <= 102real / 100real,
        0real < x <= 1real,
        0real < y <= 1real,
    ensures
        size(inner(n, d)) <= 1real / 1000000real,
{
    let e = (101real / 100real) * (1real / 16700000real);
    let w = 103real / 100real;
    let (p, q) = (k * x, k * y);
    let (r, s) = (j * y, j * x);
    lemma_small_product(k, x, 102real / 100real, 1real);
    lemma_small_product(k, y, 102real / 100real, 1real);
    lemma_small_product(j, x, 102real / 100real, 1real);
    lemma_small_product(j, y, 102real / 100real, 1real);
    assert(j * (-y) == -r) by (nonlinear_arith)
        requires
            r == j * y,
    ;
    let (f1, f2, f3) = (n.x + r, n.y - s, d.z);
    let (g1, g2) = (d.x - p, d.y - q);
    assert(n.x * d.x == -(r * p) + f1 * d.x - r * g1) by (nonlinear_arith)
        requires
            f1 == n.x + r,
            g1 == d.x - p,
    ;
    assert(n.y * d.y == s * q + f2 * d.y + s * g2) by (nonlinear_arith)
        requires
            f2 == n.y - s,
            g2 == d.y - q,
    ;
    assert(r * p == s * q) by (nonlinear_arith)
        requires
            r == j * y,
            p == k * x,
            s == j * x,
            q == k * y,
    ;
    lemma_small_product(f1, d.x, e, w);
    lemma_small_product(f2, d.y, e, w);
    lemma_small_product(g1, r, e, w);
    lemma_small_product(g2, s, e, w);
    assert(r * g1 == g1 * r && s * g2 == g2 * s) by (nonlinear_arith);
    lemma_small_product(n.z, d.z, e, w);
}

proof fn lemma_width_component(x: Scalar, w: Scalar)
    requires
        x.finite() && w.finite(),
        size(number(x)) <= 1001real / 1000real,
        0real <= number(w) <= 51real / 1000real,
    ensures
        x.product(w).finite(),
        size(number(x.product(w)) - number(w) * number(x)) <= 1real / 200000000real,
{
    assert(eps() == 1real / 16700000real);
    lemma_small_product(number(x), number(w), 1001real / 1000real, 51real / 1000real);
    assert(number(x) * number(w) == number(w) * number(x)) by (nonlinear_arith);
    lemma_product_close(x, w, 52real / 1000real);
    lemma_eps(52real / 1000real);
}

/// A side of unit length, scaled to the width.
proof fn lemma_scaled_readings(v: Triple, n: Triple, d: Triple, w: real)
    requires
        size(v.x - w * n.x) <= 1real / 200000000real,
        size(v.y - w * n.y) <= 1real / 200000000real,
        size(v.z - w * n.z) <= 1real / 200000000real,
        w == 13421773real / 268435456real,
        size(inner(n, n) - 1real) <= 1real / 1000000real,
        size(inner(d, d) - 1real) <= 1real / 1000000real,
        size(inner(n, d)) <= 1real / 1000000real,
    ensures
        size(inner(v, d)) <= 1real / 100000real,
        size(inner(v, v) - 25real / 10000real) <= 1real / 100000real,
{
    let wn = scaled(w, n);
    let f = minus(v, wn);
    let k = 1real / 200000000real;
    lemma_even_short(f, k);
    let l = (174real / 100real) * k;
    let one = 1001real / 1000real;
    assert(one * one >= 1002real / 1000real);
    lemma_inner_sum(v, wn, f, d);
    lemma_inner_scaled(w, n, d);
    lemma_inner_short(f, d, l, one);
    let nd = inner(n, d);
    lemma_small_product(nd, w, 1real / 1000000real, 1real);
    assert(w * nd == nd * w) by (nonlinear_arith);
    lemma_inner_sum(v, wn, f, v);
    lemma_inner_sum(v, wn, f, wn);
    lemma_inner_sum(v, wn, f, f);
    lemma_inner_commutes(wn, v);
    lemma_inner_commutes(f, v);
    lemma_inner_commutes(wn, f);
    lemma_inner_scaled(w, n, wn);
    lemma_inner_scaled(w, n, n);
    lemma_inner_commutes(n, wn);
    let nn = inner(n, n);
    let ww = w * w;
    assert(w * (w * nn) == ww + (nn - 1real) * ww) by (nonlinear_arith)
        requires
            ww == w * w,
    ;
    assert(size(ww - 25real / 10000real) <= 1real / 1000000real) by (nonlinear_arith)
        requires
            ww == w * w,
            w == 13421773real / 268435456real,
    ;
    lemma_small_product(nn - 1real, ww, 1real / 1000000real, 1real);
    let small = 51real / 1000real;
    assert(small * small >= 26real / 10000real);
    assert(short(wn, small));
    lemma_inner_short(f, wn, l, small);
    lemma_inner_short(f, f, l, l);
    assert(l * l <= 1real / 1000000real) by (nonlinear_arith)
        requires
            l == (174real / 100real) * (1real / 200000000real),
    ;
    assert(inner(v, v) == inner(wn, wn) + 2real * inner(f, wn) + inner(f, f));
}

} // verus!
