//! A camera's projection undoes its rays.
use crate::camera::in_frame;
use crate::camera::looking_at;
use crate::camera::ViewBasis;
use crate::camera::BEHIND_BITS;
use crate::convert::one;
use crate::exact::close;
use crate::exact::eps;
use crate::exact::lemma_product_close;
use crate::exact::lemma_quotient_close;
use crate::exact::lemma_sum_close;
use crate::exact::number;
use crate::exact::size;
use crate::frame::has_sight;
use crate::frame::lemma_axes;
use crate::fresnel::lemma_half_number;
use crate::geom::point_at;
use crate::geom::Ray;
use crate::geom::TWO_BITS;
use crate::mirror::lemma_scaled_inner;
use crate::norm::lemma_inner_short;
use crate::norm::lemma_short_components;
use crate::norm::lemma_short_longer;
use crate::norm::lemma_short_scaled;
use crate::norm::lemma_short_smaller;
use crate::norm::lemma_short_sum;
use crate::norm::minus;
use crate::norm::scaled;
use crate::norm::short;
use crate::optics::HALF_BITS;
use crate::scalar::Scalar;
use crate::scalar::ONE_BITS;
use crate::snell::lemma_inner_combined;
use crate::snell::lemma_inner_commutes;
use crate::snell::lemma_inner_sum;
use crate::snell::lemma_negated_number;
use crate::snell::lemma_small_product;
use crate::transmission::lemma_inner_scaled;
use crate::triple::apart;
use crate::triple::combined;
use crate::triple::finite;
use crate::triple::inner;
use crate::triple::lemma_eps;
use crate::triple::lemma_one_number;
use crate::triple::lemma_products_summed;
use crate::triple::lemma_reciprocal_length;
use crate::triple::lemma_unit_close;
use crate::triple::triple;
use crate::triple::Triple;
use crate::vector::cross;
use crate::vector::dot;
use crate::vector::length;
use crate::vector::unit;
use crate::vector::vector_difference;
use crate::vector::vector_quotient;
use crate::vector::vector_scaled;
use crate::vector::vector_sum;
use crate::vector::Vector;
use crate::viewport::are_edges;
use crate::viewport::girth;
use crate::viewport::lemma_aim_component;
use crate::viewport::lemma_backward_component;
use crate::viewport::lemma_corner_component;
use crate::viewport::lemma_edge;
use crate::viewport::lemma_edges;
use crate::viewport::lemma_way_component;
use vstd::prelude::*;

verus! {

/// The direction through the viewport, exactly: `sigma` and `tau` are measured
/// from its centre.
pub open spec fn aim(w: Triple, h: Triple, v: Triple, sigma: real, tau: real) -> Triple {
    combined(combined(scaled(-1real, w), sigma, h), tau, v)
}

/// A bound on the length of the directions through a viewport.
pub open spec fn span(a: real, b: real) -> real {
    1real + (a + b) / 2real
}

/// The inner products of the direction with the edges and the line of sight.
pub proof fn lemma_aim(
    w: Triple,
    h: Triple,
    v: Triple,
    sigma: real,
    tau: real,
    a: real,
    b: real,
)
    requires
        are_edges(h, v, w, a, b),
        size(sigma) <= 1real / 2real,
        size(tau) <= 1real / 2real,
        1real / 16real <= a <= 14real,
        1real / 16real <= b <= 14real,
        span(a, b) <= 8real,
    ensures
        ({
            let d = aim(w, h, v, sigma, tau);
            &&& size(inner(d, w) + 1real) <= 1real / 10000real
            &&& size(inner(d, h) - sigma * inner(h, h)) <= a * ((1real + b / 2real) / 80000real)
            &&& size(inner(d, v) - tau * inner(v, v)) <= b * ((1real + a / 2real) / 80000real)
            &&& short(d, (1001real / 1000real) * span(a, b))
            &&& inner(d, d) >= 98real / 100real
        }),
{
    let d = aim(w, h, v, sigma, tau);
    let back = scaled(-1real, w);
    let first = combined(back, sigma, h);
    let one = 100001real / 100000real;
    lemma_inner_scaled(-1real, w, w);
    lemma_inner_scaled(-1real, w, h);
    lemma_inner_scaled(-1real, w, v);
    lemma_inner_combined(back, sigma, h, w);
    lemma_inner_combined(first, tau, v, w);
    lemma_inner_combined(back, sigma, h, h);
    lemma_inner_combined(first, tau, v, h);
    lemma_inner_combined(back, sigma, h, v);
    lemma_inner_combined(first, tau, v, v);
    lemma_inner_commutes(w, h);
    lemma_inner_commutes(w, v);
    lemma_inner_commutes(v, h);
    let (hw, vw, hv) = (inner(h, w), inner(v, w), inner(h, v));
    let ab = a * b;
    lemma_small_product(hw, sigma, a / 80000real, 1real / 2real);
    lemma_small_product(vw, tau, b / 80000real, 1real / 2real);
    lemma_small_product(hv, sigma, ab / 80000real, 1real / 2real);
    lemma_small_product(hv, tau, ab / 80000real, 1real / 2real);
    assert(hw * sigma == sigma * hw) by (nonlinear_arith);
    assert(vw * tau == tau * vw) by (nonlinear_arith);
    assert(hv * sigma == sigma * hv) by (nonlinear_arith);
    assert(hv * tau == tau * hv) by (nonlinear_arith);
    assert(a * ((1real + b / 2real) / 80000real) == a / 80000real + (a * b) / 160000real)
        by (nonlinear_arith);
    assert(b * ((1real + a / 2real) / 80000real) == b / 80000real + (a * b) / 160000real)
        by (nonlinear_arith);
    // The length.
    lemma_short_scaled(-1real, w, one, 1real);
    let (la, lb) = ((10001real / 10000real) * a, (10001real / 10000real) * b);
    lemma_short_sum(back, sigma, h, 1real * one, la);
    lemma_short_sum(first, tau, v, 1real * one + size(sigma) * la, lb);
    assert(size(sigma) * la <= la / 2real) by (nonlinear_arith)
        requires
            0real <= size(sigma) <= 1real / 2real,
            0real <= la,
    ;
    assert(size(tau) * lb <= lb / 2real) by (nonlinear_arith)
        requires
            0real <= size(tau) <= 1real / 2real,
            0real <= lb,
    ;
    lemma_short_longer(
        d,
        1real * one + size(sigma) * la + size(tau) * lb,
        (1001real / 1000real) * span(a, b),
    );
    if inner(d, d) < 98real / 100real {
        assert(short(d, 99real / 100real));
        lemma_inner_short(d, w, 99real / 100real, one);
    }
}

/// A number that lies near one, by its square.
proof fn lemma_near_one(x: real)
    requires
        x > 0real,
        size(x * x - 1real) <= 1real / 70000real,
    ensures
        size(x - 1real) <= 1real / 100000real,
{
    assert(x <= 1real + 1real / 100000real) by (nonlinear_arith)
        requires
            x > 0real,
            x * x <= 1real + 1real / 70000real,
    ;
    assert(x >= 1real - 1real / 100000real) by (nonlinear_arith)
        requires
            x > 0real,
            x * x >= 1real - 1real / 70000real,
    ;
}

/// The factor that brings an edge to unit length, and the length of the edge.
proof fn lemma_edge_scale(k: real, l: real, hh: real, a: real)
    requires
        k > 0real,
        l > 0real,
        a > 0real,
        size((k * k) * hh - 1real) <= 1real / 2000000real,
        size(l * l - hh) <= hh / 3000000real,
        size(hh - a * a) <= (a * a) / 80000real,
    ensures
        size(k * a - 1real) <= 1real / 100000real,
        size(l - a) <= a / 100000real,
        size(k * hh - a) <= a / 40000real,
{
    let aa = a * a;
    let kk = k * k;
    assert(aa > 0real) by (nonlinear_arith)
        requires
            aa == a * a,
            a > 0real,
    ;
    let x = k * a;
    assert(x > 0real) by (nonlinear_arith)
        requires
            x == k * a,
            k > 0real,
            a > 0real,
    ;
    let xx = x * x;
    assert(xx == kk * aa) by (nonlinear_arith)
        requires
            xx == x * x,
            x == k * a,
            kk == k * k,
            aa == a * a,
    ;
    assert(kk > 0real) by (nonlinear_arith)
        requires
            kk == k * k,
            k > 0real,
    ;
    let f = hh - aa;
    assert(kk * hh == xx + kk * f) by (nonlinear_arith)
        requires
            f == hh - aa,
            xx == kk * aa,
    ;
    assert(size(kk * f) <= xx / 80000real) by (nonlinear_arith)
        requires
            -(aa / 80000real) <= f <= aa / 80000real,
            kk > 0real,
            xx == kk * aa,
    ;
    lemma_near_one(x);
    // The length.
    let y = l / a;
    assert(y * a == l && y > 0real) by (nonlinear_arith)
        requires
            y == l / a,
            a > 0real,
            l > 0real,
    ;
    let yy = y * y;
    assert(yy * aa == l * l) by (nonlinear_arith)
        requires
            yy == y * y,
            aa == a * a,
            y * a == l,
    ;
    let g = yy - 1real;
    assert(g * aa == l * l - aa) by (nonlinear_arith)
        requires
            g == yy - 1real,
            yy * aa == l * l,
    ;
    assert(g <= 1real / 70000real && -g <= 1real / 70000real) by (nonlinear_arith)
        requires
            g * aa <= aa / 75000real,
            -(g * aa) <= aa / 75000real,
            aa > 0real,
    ;
    lemma_near_one(y);
    let z = y - 1real;
    assert(z * a == l - a) by (nonlinear_arith)
        requires
            z == y - 1real,
            y * a == l,
    ;
    assert(size(z * a) <= a / 100000real) by (nonlinear_arith)
        requires
            -1real / 100000real <= z <= 1real / 100000real,
            a > 0real,
    ;
    // The product of the factor and the squared length.
    let w = k * f;
    assert(k * hh == x * a + w) by (nonlinear_arith)
        requires
            w == k * f,
            f == hh - aa,
            aa == a * a,
            x == k * a,
    ;
    assert(size(w) <= (x * a) / 80000real) by (nonlinear_arith)
        requires
            w == k * f,
            -(aa / 80000real) <= f <= aa / 80000real,
            k > 0real,
            aa == a * a,
            x == k * a,
    ;
    let xa = x * a;
    assert(size(xa - a) <= a / 100000real) by (nonlinear_arith)
        requires
            xa == x * a,
            -1real / 100000real <= x - 1real <= 1real / 100000real,
            a > 0real,
    ;
}

/// A vector whose components are all small.
pub proof fn lemma_even_short(c: Triple, k: real)
    requires
        k >= 0real,
        size(c.x) <= k,
        size(c.y) <= k,
        size(c.z) <= k,
    ensures
        short(c, (174real / 100real) * k),
{
    let even = Triple { x: k, y: k, z: k };
    let l = (174real / 100real) * k;
    assert(k * k + k * k + k * k <= l * l) by (nonlinear_arith)
        requires
            l == (174real / 100real) * k,
    ;
    lemma_short_smaller(c, even, l);
}

/// The way to a point, as a multiple of the exact direction and a rest: `l`
/// bounds the length of the direction, and `blur` the rest.
pub open spec fn is_way(p: Triple, d: Triple, scale: real, l: real, blur: real) -> bool {
    &&& 1real / 100000real <= scale <= 10000000real
    &&& 1real <= l <= 8real
    &&& 0real <= blur <= 1real / 4000real
    &&& short(minus(p, scaled(scale, d)), scale * blur)
    &&& short(d, (1001real / 1000real) * l)
}

proof fn lemma_way_short(p: Triple, d: Triple, scale: real, l: real, blur: real)
    requires
        is_way(p, d, scale, l, blur),
    ensures
        short(p, scale * ((1002real / 1000real) * l)),
{
    let c = minus(p, scaled(scale, d));
    let (x, y) = ((1001real / 1000real) * l, (1002real / 1000real) * l);
    lemma_short_sum(c, scale, d, scale * blur, x);
    assert(combined(c, scale, d) == p);
    assert(scale * blur + size(scale) * x <= scale * y) by {
        assert(scale * blur + scale * x == scale * (blur + x)) by (nonlinear_arith);
        let z = blur + x;
        assert(scale * z <= scale * y) by (nonlinear_arith)
            requires
                z <= y,
                scale > 0real,
        ;
    }
    lemma_short_longer(p, scale * blur + size(scale) * x, scale * y);
}

/// The inner product of the way with a vector.
proof fn lemma_way_inner(
    p: Triple,
    d: Triple,
    x: Triple,
    scale: real,
    l: real,
    blur: real,
    b: real,
)
    requires
        is_way(p, d, scale, l, blur),
        short(x, b),
    ensures
        size(inner(p, x) - scale * inner(d, x)) <= scale * (blur * b),
{
    let sd = scaled(scale, d);
    let c = minus(p, sd);
    lemma_inner_sum(p, sd, c, x);
    lemma_inner_scaled(scale, d, x);
    lemma_inner_short(c, x, scale * blur, b);
    assert((scale * blur) * b == scale * (blur * b)) by (nonlinear_arith);
}

/// The rounded inner product of the way with a unit vector.
proof fn lemma_way_dot(p: Vector, u: Vector, d: Triple, scale: real, l: real, blur: real)
    requires
        finite(p),
        finite(u),
        is_way(triple(p), d, scale, l, blur),
        inner(triple(u), triple(u)) <= 1001real / 1000real,
    ensures
        close(dot(p, u), inner(triple(p), triple(u)), scale * (l / 5000000real)),
{
    let (a, b) = (triple(p), triple(u));
    lemma_way_short(a, d, scale, l, blur);
    let y = (1002real / 1000real) * l;
    let sy = scale * y;
    let sl = scale * l;
    assert(sy == (1002real / 1000real) * sl) by (nonlinear_arith)
        requires
            sy == scale * y,
            y == (1002real / 1000real) * l,
            sl == scale * l,
    ;
    assert(1real / 100000real <= sl <= 80000000real) by (nonlinear_arith)
        requires
            sl == scale * l,
            1real / 100000real <= scale <= 10000000real,
            1real <= l <= 8real,
    ;
    lemma_scaled_inner(a, b, sy);
    let wide = (104real / 100real) * sl;
    assert((1001real / 1000real) * sy <= wide) by (nonlinear_arith)
        requires
            sy == (1002real / 1000real) * sl,
            wide == (104real / 100real) * sl,
            sl > 0real,
    ;
    lemma_products_summed(p, u, a.x * b.x, a.y * b.y, a.z * b.z, wide);
    lemma_eps((31real / 10real) * wide);
    assert(scale * (l / 5000000real) == sl / 5000000real) by (nonlinear_arith)
        requires
            sl == scale * l,
    ;
}

/// How an edge compares to the errors: it is long enough for its reading.
pub open spec fn is_legible(a: real, slip: real, l: real, blur: real) -> bool {
    &&& 1real / 16real <= a <= 14real
    &&& 0real <= slip <= a / 5000real
    &&& 0real <= blur <= a / 4000real
    &&& l <= 160real * a
}

/// The inner product of the way with an edge brought to unit length, against
/// the place of the point.
proof fn lemma_edge_reading(
    p: Vector,
    h: Vector,
    d: Triple,
    scale: real,
    sigma: real,
    a: real,
    slip: real,
    l: real,
    blur: real,
)
    requires
        finite(p),
        finite(h),
        is_way(triple(p), d, scale, l, blur),
        is_legible(a, slip, l, blur),
        size(inner(triple(h), triple(h)) - a * a) <= (a * a) / 80000real,
        short(triple(h), (10001real / 10000real) * a),
        size(inner(d, triple(h)) - sigma * inner(triple(h), triple(h))) <= a * slip,
        size(sigma) <= 1real / 2real,
    ensures
        dot(p, unit(h)).finite(),
        length(h).finite(),
        size(number(length(h)) - a) <= a / 100000real,
        size(number(dot(p, unit(h))) - sigma * (scale * a)) <= (52real / 100000real) * (scale * a),
{
    let e = eps();
    assert(e == 1real / 16700000real);
    let (pt, ht) = (triple(p), triple(h));
    let hh = inner(ht, ht);
    let aa = a * a;
    assert(1real / 256real <= aa <= 196real) by (nonlinear_arith)
        requires
            aa == a * a,
            1real / 16real <= a <= 14real,
    ;
    let k1 = lemma_reciprocal_length(h);
    let len = number(length(h));
    assert(e * hh == hh / 16700000real) by (nonlinear_arith)
        requires
            e == 1real / 16700000real,
    ;
    let k = lemma_unit_close(h);
    lemma_edge_scale(k, len, hh, a);
    let u = unit(h);
    let ut = triple(u);
    let kh = scaled(k, ht);
    let g = minus(ut, kh);
    lemma_even_short(g, (101real / 100real) * e);
    // The exact inner product.
    lemma_inner_sum(ut, kh, g, pt);
    lemma_inner_scaled(k, ht, pt);
    lemma_inner_commutes(ut, pt);
    lemma_inner_commutes(ht, pt);
    lemma_way_short(pt, d, scale, l, blur);
    let y = (1002real / 1000real) * l;
    let lg = (174real / 100real) * ((101real / 100real) * e);
    lemma_inner_short(g, pt, lg, scale * y);
    lemma_way_inner(pt, d, ht, scale, l, blur, (10001real / 10000real) * a);
    lemma_way_dot(p, u, d, scale, l, blur);
    let sa = scale * a;
    assert(sa > 0real) by (nonlinear_arith)
        requires
            sa == scale * a,
            scale > 0real,
            a > 0real,
    ;
    let sl = scale * l;
    assert(sl > 0real) by (nonlinear_arith)
        requires
            sl == scale * l,
            scale > 0real,
            l > 0real,
    ;
    assert(sl <= 160real * sa) by (nonlinear_arith)
        requires
            sl == scale * l,
            sa == scale * a,
            l <= 160real * a,
            scale > 0real,
    ;
    assert(lg * (scale * y) == (lg * (1002real / 1000real)) * sl) by (nonlinear_arith)
        requires
            y == (1002real / 1000real) * l,
            sl == scale * l,
    ;
    assert((lg * (1002real / 1000real)) * sl <= sl / 9000000real) by (nonlinear_arith)
        requires
            lg == (174real / 100real) * ((101real / 100real) * (1real / 16700000real)),
            sl > 0real,
    ;
    assert(scale * (l / 5000000real) == sl / 5000000real) by (nonlinear_arith)
        requires
            sl == scale * l,
    ;
    lemma_reading_sum(k, hh, inner(pt, ht), inner(d, ht), scale, sigma, a, slip, blur);
}

/// The sum of the errors of a reading.
proof fn lemma_reading_sum(
    k: real,
    hh: real,
    ph: real,
    dh: real,
    scale: real,
    sigma: real,
    a: real,
    slip: real,
    blur: real,
)
    requires
        k > 0real,
        scale > 0real,
        a > 0real,
        size(k * a - 1real) <= 1real / 100000real,
        size(k * hh - a) <= a / 40000real,
        size(ph - scale * dh) <= scale * (blur * ((10001real / 10000real) * a)),
        size(dh - sigma * hh) <= a * slip,
        0real <= slip <= a / 5000real,
        0real <= blur <= a / 4000real,
        size(sigma) <= 1real / 2real,
    ensures
        size(k * ph - sigma * (scale * a)) <= (465real / 1000000real) * (scale * a),
{
    let y = scale * a;
    assert(y > 0real) by (nonlinear_arith)
        requires
            y == scale * a,
            scale > 0real,
            a > 0real,
    ;
    // k ph = k scale sigma hh + k scale (dh - sigma hh) + k (ph - scale dh).
    let (e1, e2) = (dh - sigma * hh, ph - scale * dh);
    let ka = k * a;
    let b = blur * ((10001real / 10000real) * a);
    lemma_small_product(e2, k, scale * b, k);
    assert(k * (scale * b) == scale * (k * b)) by (nonlinear_arith);
    assert(e2 * k == k * e2) by (nonlinear_arith);
    assert(k * b == (10001real / 10000real) * (ka * blur)) by (nonlinear_arith)
        requires
            b == blur * ((10001real / 10000real) * a),
            ka == k * a,
    ;
    assert(ka * blur <= (10001real / 10000real) * blur) by (nonlinear_arith)
        requires
            ka <= 10001real / 10000real,
            blur >= 0real,
    ;
    let kb = k * b;
    assert(kb <= (1001real / 1000real) * (a / 4000real));
    let sb = scale * kb;
    assert(sb <= (1001real / 1000real) * (y / 4000real)) by (nonlinear_arith)
        requires
            sb == scale * kb,
            kb <= (1001real / 1000real) * (a / 4000real),
            scale > 0real,
            y == scale * a,
    ;
    lemma_small_product(e1, k, a * slip, k);
    assert(k * (a * slip) == (k * a) * slip) by (nonlinear_arith);
    assert(e1 * k == k * e1) by (nonlinear_arith);
    assert(ka * slip <= (10001real / 10000real) * slip) by (nonlinear_arith)
        requires
            ka <= 10001real / 10000real,
            slip >= 0real,
    ;
    let k1 = k * e1;
    let bound = (1001real / 1000real) * (a / 5000real);
    assert(size(k1) <= bound);
    lemma_small_product(k1, scale, bound, scale);
    assert(scale * ((1001real / 1000real) * (a / 5000real)) == (1001real / 1000real) * ((scale * a)
        / 5000real)) by (nonlinear_arith);
    assert(k1 * scale == scale * k1) by (nonlinear_arith);
    let f = k * hh - a;
    let sf = sigma * f;
    lemma_small_product(f, sigma, a / 40000real, 1real / 2real);
    assert(f * sigma == sf) by (nonlinear_arith)
        requires
            sf == sigma * f,
    ;
    lemma_small_product(sf, scale, a / 80000real, scale);
    assert(scale * (a / 80000real) == (scale * a) / 80000real) by (nonlinear_arith);
    assert(sf * scale == scale * sf) by (nonlinear_arith);
    lemma_reading_form(k, hh, ph, dh, scale, sigma, a);
}

proof fn lemma_reading_form(
    k: real,
    hh: real,
    ph: real,
    dh: real,
    scale: real,
    sigma: real,
    a: real,
)
    ensures
        k * ph == sigma * (scale * a) + scale * (sigma * (k * hh - a)) + scale * (k * (dh - sigma
            * hh)) + k * (ph - scale * dh),
{
    assert(scale * (sigma * (k * hh - a)) == scale * (sigma * (k * hh)) - sigma * (scale * a))
        by (nonlinear_arith);
    assert(scale * (k * (dh - sigma * hh)) == scale * (k * dh) - scale * (k * (sigma * hh)))
        by (nonlinear_arith);
    assert(k * (ph - scale * dh) == k * ph - k * (scale * dh)) by (nonlinear_arith);
    assert(scale * (sigma * (k * hh)) == scale * (k * (sigma * hh))) by (nonlinear_arith);
    assert(scale * (k * dh) == k * (scale * dh)) by (nonlinear_arith);
}

/// A coordinate of a point in the image, from the centre.
proof fn lemma_coordinate(n: Scalar, depth: Scalar, l: Scalar, scale: real, sigma: real, a: real)
    requires
        n.finite(),
        depth.finite(),
        l.finite(),
        1real / 100000real <= scale <= 10000000real,
        1real / 16real <= a <= 14real,
        size(sigma) <= 1real / 2real,
        size(number(l) - a) <= a / 100000real,
        size(number(depth) - scale) <= scale / 1600real,
        size(number(n) - sigma * (scale * a)) <= (52real / 100000real) * (scale * a),
    ensures
        close(n.quotient(depth.product(l)), sigma, 9real / 10000real),
{
    let e = eps();
    assert(e == 1real / 16700000real);
    let y = scale * a;
    assert(1real / 1600000real <= y <= 140000000real) by (nonlinear_arith)
        requires
            y == scale * a,
            1real / 100000real <= scale <= 10000000real,
            1real / 16real <= a <= 14real,
    ;
    let (p, q) = (number(depth), number(l));
    let pq = p * q;
    let (u, w) = (p - scale, q - a);
    assert(p * q == scale * a + u * a + w * scale + u * w) by (nonlinear_arith)
        requires
            u == p - scale,
            w == q - a,
    ;
    lemma_small_product(u, a, scale / 1600real, a);
    lemma_small_product(w, scale, a / 100000real, scale);
    lemma_small_product(u, w, scale / 1600real, a / 100000real);
    assert(a * (scale / 1600real) == (scale * a) / 1600real) by (nonlinear_arith);
    assert(scale * (a / 100000real) == (scale * a) / 100000real) by (nonlinear_arith);
    assert((a / 100000real) * (scale / 1600real) == (scale * a) / 160000000real)
        by (nonlinear_arith);
    assert(size(pq - y) <= y / 1570real);
    let bound = y + y / 1570real;
    lemma_product_close(depth, l, bound);
    lemma_eps(bound);
    let m = depth.product(l);
    let x = number(m);
    assert(size(x - y) <= y / 1560real);
    let r = number(n) / x;
    assert(r * x == number(n)) by (nonlinear_arith)
        requires
            r == number(n) / x,
            x > 0real,
    ;
    let f = r - sigma;
    lemma_small_product(x - y, sigma, y / 1560real, 1real / 2real);
    assert(f * x == (number(n) - sigma * y) - (x - y) * sigma) by (nonlinear_arith)
        requires
            f == r - sigma,
            r * x == number(n),
    ;
    let b = (52real / 100000real) * y + y / 3120real;
    assert(f <= 89real / 100000real && -f <= 89real / 100000real) by (nonlinear_arith)
        requires
            f * x <= b,
            -(f * x) <= b,
            b == (52real / 100000real) * y + y / 3120real,
            x >= y - y / 1560real,
            y > 0real,
    ;
    lemma_quotient_close(n, m, 1real);
    lemma_eps(1real);
}

/// How far rounding moves a point of the image, in units of the distance at
/// which the viewport stands: `m` bounds the components of the eye's place, `z`
/// is the distance of the point, and `a` and `b` are the lengths of the edges.
pub open spec fn blur(m: real, z: real, a: real, b: real) -> real {
    (16real * girth(m, a, b) + 2real * (span(a, b) * (m / z + 5real))) / 16700000real
}

/// A camera and a distance at which the image is sharp: the viewport is neither
/// narrow nor wide, and rounding moves a point by a small part of it.
pub open spec fn is_sharp(m: real, z: real, a: real, b: real) -> bool {
    &&& 1real <= m <= 1000real
    &&& 1real / 1000real <= z <= 1000000real
    &&& 1real / 16real <= a <= 14real
    &&& 1real / 16real <= b <= 14real
    &&& span(a, b) <= 8real
    &&& 1real + b / 2real <= 16real * a
    &&& 1real + a / 2real <= 16real * b
    &&& span(a, b) * blur(m, z, a, b) <= 1real / 4000real
    &&& span(a, b) * blur(m, z, a, b) <= a / 4000real
    &&& span(a, b) * blur(m, z, a, b) <= b / 4000real
}

/// What a sharp image means for its parts.
pub proof fn lemma_sharp(m: real, z: real, a: real, b: real)
    requires
        is_sharp(m, z, a, b),
    ensures
        ({
            let (l, t, g) = (span(a, b), blur(m, z, a, b), girth(m, a, b));
            &&& 1real <= l
            &&& m / z > 0real
            &&& 0real <= t <= 1real / 4000real
            &&& t <= a / 4000real
            &&& t <= b / 4000real
            &&& l <= 160real * a
            &&& l <= 160real * b
            &&& 16real * (g / 16700000real) <= t
            &&& g >= 2real
        }),
{
    let (l, t, g) = (span(a, b), blur(m, z, a, b), girth(m, a, b));
    let r = m / z;
    assert(r > 0real) by (nonlinear_arith)
        requires
            r == m / z,
            m > 0real,
            z > 0real,
    ;
    let lr = l * (r + 5real);
    assert(lr >= 5real) by (nonlinear_arith)
        requires
            lr == l * (r + 5real),
            l >= 1real,
            r > 0real,
    ;
    assert(t >= 42real / 16700000real);
    let lt = l * t;
    assert(lt >= t) by (nonlinear_arith)
        requires
            lt == l * t,
            l >= 1real,
            t >= 0real,
    ;
    assert(lt >= l * (42real / 16700000real)) by (nonlinear_arith)
        requires
            lt == l * t,
            t >= 42real / 16700000real,
            l >= 1real,
    ;
}

/// A number that is less is an encoding below.
pub proof fn lemma_number_order(x: Scalar, y: Scalar)
    requires
        x.finite(),
        y.finite(),
        number(x) < number(y),
    ensures
        x.value() < y.value(),
{
    reveal(number);
    vstd::arithmetic::power2::lemma_pow2_pos(149);
    let (v, w, o) = (x.value() as real, y.value() as real, one() as real);
    assert(v < w) by (nonlinear_arith)
        requires
            v / o < w / o,
            o > 0real,
    ;
}

/// The bound on the product with the backward axis is little below zero.
proof fn lemma_behind_bound()
    ensures
        (Scalar { bits: BEHIND_BITS }).finite(),
        number(Scalar { bits: BEHIND_BITS }) > -1real / 500000real,
{
    reveal(number);
    vstd::arithmetic::power2::lemma2_to64();
    vstd::arithmetic::power2::lemma2_to64_rest();
    vstd::arithmetic::power2::lemma_pow2_adds(106, 43);
    vstd::arithmetic::power2::lemma_pow2_pos(106);
    let b = Scalar { bits: BEHIND_BITS };
    let p: int = vstd::arithmetic::power2::pow2(106) as int;
    assert(b.value() == -(0x86_37bd * p));
    assert(one() == p * 0x800_0000_0000);
    let (v, o, q) = (b.value() as real, one() as real, p as real);
    assert((0x86_37bd * p) as real == 8796093real * q);
    assert((p * 0x800_0000_0000) as real == q * 8796093022208real);
    assert(v / o > -1real / 500000real) by (nonlinear_arith)
        requires
            v == -(8796093real * q),
            o == q * 8796093022208real,
            q > 0real,
    ;
}

/// The way from the eye to a point on a ray.
proof fn lemma_way(
    vec: Vector,
    origin: Vector,
    k: Scalar,
    d: Triple,
    m: real,
    a: real,
    b: real,
) -> (scale: real)
    requires
        finite(vec),
        finite(origin),
        size(number(origin.x)) <= m,
        size(number(origin.y)) <= m,
        size(number(origin.z)) <= m,
        k.finite(),
        is_sharp(m, number(k), a, b),
        apart(triple(vec), d, 9real * (girth(m, a, b) / 16700000real)),
        short(d, (1001real / 1000real) * span(a, b)),
        inner(d, d) >= 98real / 100real,
    ensures
        ({
            let ray = Ray { origin, dir: unit(vec) };
            let way = vector_difference(point_at(ray, k), origin);
            finite(way) && is_way(
                triple(way),
                d,
                scale,
                span(a, b),
                blur(m, number(k), a, b),
            )
        }),
{
    assert(eps() == 1real / 16700000real);
    let z = number(k);
    let (l, t, g) = (span(a, b), blur(m, z, a, b), girth(m, a, b));
    lemma_sharp(m, z, a, b);
    let vt = triple(vec);
    let c = minus(vt, d);
    let ge = 9real * (g / 16700000real);
    lemma_even_short(c, ge);
    lemma_short_longer(c, (174real / 100real) * ge, t);
    let j = lemma_unit_factor(vec, d, l, t);
    let u = unit(vec);
    let ut = triple(u);
    lemma_short_components(ut, 1001real / 1000real);
    lemma_way_component(origin.x, u.x, k, m);
    lemma_way_component(origin.y, u.y, k, m);
    lemma_way_component(origin.z, u.z, k, m);
    let scale = z * j;
    assert(1real / 100000real <= scale <= 10000000real) by (nonlinear_arith)
        requires
            scale == z * j,
            1real / 1000real <= z <= 1000000real,
            1real / 10real <= j <= 102real / 100real,
    ;
    let way = vector_difference(point_at(Ray { origin, dir: u }, k), origin);
    let p = triple(way);
    let r = minus(p, scaled(scale, d));
    lemma_way_error(p.x, ut.x, vt.x, d.x, z, j, scale, m, l, g);
    lemma_way_error(p.y, ut.y, vt.y, d.y, z, j, scale, m, l, g);
    lemma_way_error(p.z, ut.z, vt.z, d.z, z, j, scale, m, l, g);
    let q = (9real * g + (103real / 100real) * (l * (m / z + 5real))) / 16700000real;
    let lr = l * (m / z + 5real);
    assert(lr > 0real) by (nonlinear_arith)
        requires
            lr == l * (m / z + 5real),
            l > 0real,
            m / z > 0real,
    ;
    let sq = scale * q;
    assert(sq >= 0real) by (nonlinear_arith)
        requires
            sq == scale * q,
            scale > 0real,
            q >= 0real,
    ;
    lemma_even_short(r, sq);
    assert((174real / 100real) * (scale * q) == scale * ((174real / 100real) * q))
        by (nonlinear_arith);
    let x = (174real / 100real) * q;
    assert(x <= t);
    assert(scale * x <= scale * t) by (nonlinear_arith)
        requires
            x <= t,
            scale > 0real,
    ;
    lemma_short_longer(r, (174real / 100real) * sq, scale * t);
    scale
}

/// The factor that brings the direction through the viewport to unit length.
pub proof fn lemma_unit_factor(vec: Vector, d: Triple, l: real, t: real) -> (j: real)
    requires
        finite(vec),
        1real <= l <= 8real,
        0real <= t <= 1real / 4000real,
        l * t <= 1real / 4000real,
        short(minus(triple(vec), d), t),
        short(d, (1001real / 1000real) * l),
        inner(d, d) >= 98real / 100real,
    ensures
        finite(unit(vec)),
        1real / 10real <= j <= 102real / 100real,
        j * l >= 997real / 1000real,
        short(triple(unit(vec)), 1001real / 1000real),
        apart(
            triple(unit(vec)),
            scaled(j, triple(vec)),
            (101real / 100real) * (1real / 16700000real),
        ),
{
    assert(eps() == 1real / 16700000real);
    let v = triple(vec);
    let c = minus(v, d);
    let x = (1001real / 1000real) * l;
    lemma_inner_sum(v, d, c, v);
    lemma_inner_sum(v, d, c, d);
    lemma_inner_sum(v, d, c, c);
    lemma_inner_commutes(d, v);
    lemma_inner_commutes(c, v);
    lemma_inner_commutes(d, c);
    lemma_inner_short(c, d, t, x);
    lemma_inner_short(c, c, t, t);
    assert(t * x <= 1real / 3900real) by (nonlinear_arith)
        requires
            x == (1001real / 1000real) * l,
            l * t <= 1real / 4000real,
    ;
    assert(t * t <= 1real / 4000real) by (nonlinear_arith)
        requires
            0real <= t <= 1real / 4000real,
    ;
    let (vv, dd) = (inner(v, v), inner(d, d));
    assert(vv == dd + 2real * inner(c, d) + inner(c, c));
    let y = (1002real / 1000real) * l;
    assert(x * x + 1real / 1000real <= y * y) by (nonlinear_arith)
        requires
            x == (1001real / 1000real) * l,
            y == (1002real / 1000real) * l,
            l >= 1real,
    ;
    assert(97real / 100real <= vv <= y * y);
    assert(y * y <= 65real) by (nonlinear_arith)
        requires
            0real <= y <= 802real / 100real,
    ;
    let j = lemma_unit_close(vec);
    let jj = j * j;
    assert(jj >= 0real) by (nonlinear_arith)
        requires
            jj == j * j,
    ;
    assert(jj <= 1033real / 1000real) by (nonlinear_arith)
        requires
            jj * vv <= 1001real / 1000real,
            vv >= 97real / 100real,
            jj >= 0real,
    ;
    assert(j <= 102real / 100real) by (nonlinear_arith)
        requires
            j * j <= 1033real / 1000real,
            j > 0real,
    ;
    let yy = y * y;
    assert(jj * yy >= 99999real / 100000real) by (nonlinear_arith)
        requires
            jj * vv >= 99999real / 100000real,
            vv <= yy,
            jj >= 0real,
    ;
    let jy = j * y;
    assert(jy * jy == jj * yy && jy > 0real) by (nonlinear_arith)
        requires
            jy == j * y,
            jj == j * j,
            yy == y * y,
            j > 0real,
            y > 0real,
    ;
    assert(jy >= 9999real / 10000real) by (nonlinear_arith)
        requires
            jy * jy >= 99999real / 100000real,
            jy > 0real,
    ;
    let jl = j * l;
    assert(jy == (1002real / 1000real) * jl) by (nonlinear_arith)
        requires
            jy == j * y,
            y == (1002real / 1000real) * l,
            jl == j * l,
    ;
    assert(jl >= 9979real / 10000real);
    assert(j >= 1real / 10real) by (nonlinear_arith)
        requires
            j * l >= 9979real / 10000real,
            l <= 8real,
            j > 0real,
    ;
    j
}

/// The error of one component of the way.
proof fn lemma_way_error(
    p: real,
    u: real,
    t: real,
    d: real,
    z: real,
    j: real,
    scale: real,
    m: real,
    l: real,
    g: real,
)
    requires
        z > 0real,
        m > 0real,
        l > 0real,
        j > 0real,
        scale == z * j,
        j * l >= 997real / 1000real,
        size(t - d) <= 9real * (g / 16700000real),
        size(u - j * t) <= (101real / 100real) * (1real / 16700000real),
        size(p - z * u) <= ((101real / 100real) * m + (32real / 10real) * z) / 16700000real,
    ensures
        size(p - scale * d) <= scale * ((9real * g + (103real / 100real) * (l * (m / z + 5real)))
            / 16700000real),
{
    let e = 1real / 16700000real;
    let (f, h) = (u - j * t, t - d);
    // p - scale d = (p - z u) + z f + scale h.
    assert(z * u == z * f + z * (j * t)) by (nonlinear_arith)
        requires
            f == u - j * t,
    ;
    assert(z * (j * t) == (z * j) * t) by (nonlinear_arith);
    assert(scale * t == scale * d + scale * h) by (nonlinear_arith)
        requires
            h == t - d,
    ;
    lemma_small_product(f, z, (101real / 100real) * e, z);
    assert(f * z == z * f) by (nonlinear_arith);
    assert(scale > 0real) by (nonlinear_arith)
        requires
            scale == z * j,
            z > 0real,
            j > 0real,
    ;
    lemma_small_product(h, scale, 9real * (g / 16700000real), scale);
    assert(h * scale == scale * h) by (nonlinear_arith);
    assert(z * ((101real / 100real) * e) == (101real / 100real) * (z / 16700000real))
        by (nonlinear_arith)
        requires
            e == 1real / 16700000real,
    ;
    // z <= scale l / 0.997, and m = z (m / z).
    let r = m / z;
    assert(z * r == m && r > 0real) by (nonlinear_arith)
        requires
            r == m / z,
            z > 0real,
            m > 0real,
    ;
    let sl = scale * l;
    assert(sl >= (997real / 1000real) * z) by (nonlinear_arith)
        requires
            sl == (z * j) * l,
            j * l >= 997real / 1000real,
            z > 0real,
    ;
    let n = (101real / 100real) * r + 421real / 100real;
    assert((101real / 100real) * m + (421real / 100real) * z == z * n) by (nonlinear_arith)
        requires
            z * r == m,
            n == (101real / 100real) * r + 421real / 100real,
    ;
    assert((997real / 1000real) * (z * n) <= sl * n) by (nonlinear_arith)
        requires
            sl >= (997real / 1000real) * z,
            n > 0real,
    ;
    let o = r + 5real;
    assert(n <= (102real / 100real) * o);
    assert(sl > 0real);
    assert(sl * n <= (102real / 100real) * (sl * o)) by (nonlinear_arith)
        requires
            n <= (102real / 100real) * o,
            sl > 0real,
    ;
    assert(sl * o == scale * (l * o)) by (nonlinear_arith)
        requires
            sl == scale * l,
    ;
    let lo = l * o;
    assert(scale * ((9real * g + (103real / 100real) * lo) / 16700000real) == 9real * ((scale * g)
        / 16700000real) + (103real / 100real) * ((scale * lo) / 16700000real)) by (nonlinear_arith);
    assert(scale * (9real * (g / 16700000real)) == 9real * ((scale * g) / 16700000real))
        by (nonlinear_arith);
    let zn = z * n;
    assert(size(p - scale * d) <= zn / 16700000real + 9real * ((scale * g) / 16700000real));
    assert(zn <= (103real / 100real) * (scale * lo));
}

/// How far behind the eye a point on a ray is.
proof fn lemma_depth(
    p: Vector,
    b: Vector,
    w: Triple,
    d: Triple,
    scale: real,
    l: real,
    t: real,
    g: real,
)
    requires
        finite(p),
        finite(b),
        is_way(triple(p), d, scale, l, t),
        l * t <= 1real / 4000real,
        0real <= 16real * (g / 16700000real) <= t,
        short(w, 100001real / 100000real),
        apart(triple(b), w, (75real / 10real) * (g / 16700000real)),
        size(inner(d, w) + 1real) <= 1real / 10000real,
    ensures
        close(dot(p, b), -scale, scale / 1600real),
{
    let (pt, bt) = (triple(p), triple(b));
    let c = minus(bt, w);
    let gb = (75real / 10real) * (g / 16700000real);
    lemma_even_short(c, gb);
    let lc = (82real / 100real) * t;
    lemma_short_longer(c, (174real / 100real) * gb, lc);
    let one = 100001real / 100000real;
    lemma_short_sum(w, 1real, c, one, lc);
    assert(combined(w, 1real, c) == bt) by {
        assert(1real * c.x == c.x && 1real * c.y == c.y && 1real * c.z == c.z);
    }
    assert(size(1real) * lc == lc) by (nonlinear_arith)
        requires
            size(1real) == 1real,
    ;
    lemma_short_longer(bt, one + size(1real) * lc, 10003real / 10000real);
    lemma_way_dot(p, b, d, scale, l, t);
    // p b = p w + p c.
    lemma_inner_sum(bt, w, c, pt);
    lemma_inner_commutes(bt, pt);
    lemma_inner_commutes(w, pt);
    lemma_way_inner(pt, d, w, scale, l, t, one);
    lemma_way_short(pt, d, scale, l, t);
    let y = (1002real / 1000real) * l;
    lemma_inner_short(c, pt, lc, scale * y);
    let lt = l * t;
    assert(lc * (scale * y) == scale * ((82real / 100real) * ((1002real / 1000real) * lt)))
        by (nonlinear_arith)
        requires
            lc == (82real / 100real) * t,
            y == (1002real / 1000real) * l,
            lt == l * t,
    ;
    let f = inner(d, w) + 1real;
    lemma_small_product(f, scale, 1real / 10000real, scale);
    let dw = inner(d, w);
    assert(scale * dw == f * scale - scale) by (nonlinear_arith)
        requires
            f == dw + 1real,
    ;
    let q = t * one;
    let v = (82real / 100real) * ((1002real / 1000real) * lt);
    let total = 1real / 10000real + q + v + l / 5000000real;
    assert(q <= 101real / 400000real) by (nonlinear_arith)
        requires
            q == t * one,
            one == 100001real / 100000real,
            0real <= t <= 1real / 4000real,
    ;
    assert(total <= 1real / 1600real);
    assert(scale * (1real / 10000real) + scale * q + scale * v + scale * (l / 5000000real) == scale
        * total) by (nonlinear_arith)
        requires
            total == 1real / 10000real + q + v + l / 5000000real,
    ;
    assert(scale * total <= scale / 1600real) by (nonlinear_arith)
        requires
            total <= 1real / 1600real,
            scale > 0real,
    ;
}

/// A place in the image, and that it is in the frame.
proof fn lemma_place(q: Scalar, sigma: real)
    requires
        close(q, sigma, 9real / 10000real),
        size(sigma) <= 49real / 100real,
    ensures
        ({
            let s = (Scalar { bits: HALF_BITS }).sum(q);
            &&& s.finite()
            &&& size(number(s) - (sigma + 1real / 2real)) < 1real / 1000real
            &&& in_frame(s)
        }),
{
    assert(eps() == 1real / 16700000real);
    lemma_half_number();
    lemma_one_number();
    let half = Scalar { bits: HALF_BITS };
    lemma_sum_close(half, q, 1real);
    lemma_eps(1real);
    let s = half.sum(q);
    lemma_number_order(Scalar { bits: 0 }, s);
    lemma_number_order(s, Scalar { bits: ONE_BITS });
}

/// The lengths of the edges of a camera's viewport.
pub open spec fn edge_lengths(half_tan: Scalar, aspect: Scalar) -> (real, real) {
    let h = (Scalar { bits: TWO_BITS }).product(half_tan);
    (number(aspect.product(h)), number(h))
}

/// The edges and the line of sight of a camera.
pub proof fn lemma_camera_parts(
    origin: Vector,
    target: Vector,
    up: Vector,
    half_tan: Scalar,
    aspect: Scalar,
)
    requires
        has_sight(origin, target, up),
        (Scalar { bits: TWO_BITS }).product(half_tan).finite(),
        aspect.product((Scalar { bits: TWO_BITS }).product(half_tan)).finite(),
        1real / 16real <= edge_lengths(half_tan, aspect).0 <= 14real,
        1real / 16real <= edge_lengths(half_tan, aspect).1 <= 14real,
    ensures
        ({
            let basis = looking_at(origin, target, up, half_tan, aspect);
            let w = unit(vector_difference(origin, target));
            let (a, b) = edge_lengths(half_tan, aspect);
            &&& finite(basis.horizontal) && finite(basis.vertical) && finite(w)
            &&& are_edges(triple(basis.horizontal), triple(basis.vertical), triple(w), a, b)
        }),
{
    let w = unit(vector_difference(origin, target));
    let u = unit(cross(up, w));
    let v = cross(w, u);
    lemma_axes(origin, target, up);
    let vh = (Scalar { bits: TWO_BITS }).product(half_tan);
    let vw = aspect.product(vh);
    let one = 100001real / 100000real;
    assert(short(triple(u), one) && short(triple(v), one));
    lemma_edge(u, vw);
    lemma_edge(v, vh);
    lemma_edges(
        triple(vector_scaled(u, vw)),
        triple(vector_scaled(v, vh)),
        triple(u),
        triple(v),
        triple(w),
        number(vw),
        number(vh),
    );
}

/// The rounded direction through the viewport and the rounded backward axis,
/// against the exact ones.
pub proof fn lemma_basis_close(
    basis: ViewBasis,
    w: Vector,
    s: Scalar,
    t: Scalar,
    m: real,
    a: real,
    b: real,
)
    requires
        finite(basis.origin) && finite(basis.horizontal) && finite(basis.vertical) && finite(w),
        1real <= m <= 1000real,
        size(number(basis.origin.x)) <= m,
        size(number(basis.origin.y)) <= m,
        size(number(basis.origin.z)) <= m,
        are_edges(triple(basis.horizontal), triple(basis.vertical), triple(w), a, b),
        1real / 16real <= a <= 14real,
        1real / 16real <= b <= 14real,
        s.finite() && t.finite(),
        0real <= number(s) <= 1real,
        0real <= number(t) <= 1real,
        basis.lower_left == vector_difference(
            vector_difference(
                vector_difference(
                    basis.origin,
                    vector_quotient(basis.horizontal, Scalar { bits: TWO_BITS }),
                ),
                vector_quotient(basis.vertical, Scalar { bits: TWO_BITS }),
            ),
            w,
        ),
    ensures
        ({
            let vec = vector_difference(
                vector_sum(
                    vector_sum(basis.lower_left, vector_scaled(basis.horizontal, s)),
                    vector_scaled(basis.vertical, t),
                ),
                basis.origin,
            );
            let d = aim(
                triple(w),
                triple(basis.horizontal),
                triple(basis.vertical),
                number(s) - 1real / 2real,
                number(t) - 1real / 2real,
            );
            let g = girth(m, a, b) / 16700000real;
            &&& finite(vec)
            &&& apart(triple(vec), d, 9real * g)
            &&& finite(basis.backward())
            &&& apart(triple(basis.backward()), triple(w), (75real / 10real) * g)
        }),
{
    let (o, h, v, c) = (basis.origin, basis.horizontal, basis.vertical, basis.lower_left);
    lemma_short_components(triple(h), (10001real / 10000real) * a);
    lemma_short_components(triple(v), (10001real / 10000real) * b);
    lemma_short_components(triple(w), 100001real / 100000real);
    lemma_corner_component(o.x, h.x, v.x, w.x, m, a, b);
    lemma_corner_component(o.y, h.y, v.y, w.y, m, a, b);
    lemma_corner_component(o.z, h.z, v.z, w.z, m, a, b);
    lemma_aim_component(o.x, h.x, v.x, c.x, s, t, number(w.x), m, a, b);
    lemma_aim_component(o.y, h.y, v.y, c.y, s, t, number(w.y), m, a, b);
    lemma_aim_component(o.z, h.z, v.z, c.z, s, t, number(w.z), m, a, b);
    lemma_backward_component(o.x, h.x, v.x, c.x, number(w.x), m, a, b);
    lemma_backward_component(o.y, h.y, v.y, c.y, number(w.y), m, a, b);
    lemma_backward_component(o.z, h.z, v.z, c.z, number(w.z), m, a, b);
}

/// Projection undoes the ray through a place of the image: a point on the ray
/// shows at that place, to within a thousandth, and in front of the camera. The
/// number `m` bounds the components of the eye's place; where the eye is too far
/// out for the distance of the point, or the viewport too narrow or too wide,
/// rounding moves the point by more.
pub proof fn lemma_project_inverts(
    origin: Vector,
    target: Vector,
    up: Vector,
    half_tan: Scalar,
    aspect: Scalar,
    s: Scalar,
    t: Scalar,
    k: Scalar,
    m: real,
)
    requires
        has_sight(origin, target, up),
        finite(origin),
        size(number(origin.x)) <= m,
        size(number(origin.y)) <= m,
        size(number(origin.z)) <= m,
        (Scalar { bits: TWO_BITS }).product(half_tan).finite(),
        aspect.product((Scalar { bits: TWO_BITS }).product(half_tan)).finite(),
        s.finite() && t.finite() && k.finite(),
        1real / 100real <= number(s) <= 99real / 100real,
        1real / 100real <= number(t) <= 99real / 100real,
        is_sharp(
            m,
            number(k),
            edge_lengths(half_tan, aspect).0,
            edge_lengths(half_tan, aspect).1,
        ),
    ensures
        ({
            let basis = looking_at(origin, target, up, half_tan, aspect);
            let p = point_at(Ray { origin, dir: basis.direction(s, t) }, k);
            basis.projected(p) matches Some((across, upward, depth)) && size(
                number(across) - number(s),
            ) < 1real / 1000real && size(number(upward) - number(t)) < 1real / 1000real
                && depth.finite() && number(depth) > 0real
        }),
{
    let basis = looking_at(origin, target, up, half_tan, aspect);
    let w = unit(vector_difference(origin, target));
    let (a, b) = edge_lengths(half_tan, aspect);
    let (sigma, tau) = (number(s) - 1real / 2real, number(t) - 1real / 2real);
    let (l, f, g) = (span(a, b), blur(m, number(k), a, b), girth(m, a, b));
    lemma_sharp(m, number(k), a, b);
    lemma_camera_parts(origin, target, up, half_tan, aspect);
    lemma_basis_close(basis, w, s, t, m, a, b);
    let (wt, h, v) = (triple(w), triple(basis.horizontal), triple(basis.vertical));
    lemma_aim(wt, h, v, sigma, tau, a, b);
    let d = aim(wt, h, v, sigma, tau);
    let vec = vector_difference(
        vector_sum(
            vector_sum(basis.lower_left, vector_scaled(basis.horizontal, s)),
            vector_scaled(basis.vertical, t),
        ),
        basis.origin,
    );
    let scale = lemma_way(vec, origin, k, d, m, a, b);
    let p = point_at(Ray { origin, dir: basis.direction(s, t) }, k);
    let way = vector_difference(p, origin);
    lemma_depth(way, basis.backward(), wt, d, scale, l, f, g);
    let behind = basis.behind(p);
    let depth = behind.negated();
    lemma_negated_number(behind);
    lemma_behind_bound();
    lemma_number_order(behind, Scalar { bits: BEHIND_BITS });
    let (slip_a, slip_b) = ((1real + b / 2real) / 80000real, (1real + a / 2real) / 80000real);
    lemma_edge_reading(way, basis.horizontal, d, scale, sigma, a, slip_a, l, f);
    lemma_edge_reading(way, basis.vertical, d, scale, tau, b, slip_b, l, f);
    let (x, y) = (dot(way, unit(basis.horizontal)), dot(way, unit(basis.vertical)));
    lemma_coordinate(x, depth, length(basis.horizontal), scale, sigma, a);
    lemma_coordinate(y, depth, length(basis.vertical), scale, tau, b);
    lemma_place(x.quotient(depth.product(length(basis.horizontal))), sigma);
    lemma_place(y.quotient(depth.product(length(basis.vertical))), tau);
}

} // verus!
