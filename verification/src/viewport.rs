//! The edges of a camera's viewport, and the directions through it.
use crate::exact::close;
use crate::exact::lemma_difference_close;
use crate::exact::lemma_product_close;
use crate::exact::lemma_quotient_close;
use crate::exact::lemma_sum_close;
use crate::exact::number;
use crate::exact::size;
use crate::frame::are_axes;
use crate::fresnel::lemma_half_number;
use crate::geom::TWO_BITS;
use crate::norm::lemma_inner_short;
use crate::norm::lemma_short_components;
use crate::norm::lemma_short_longer;
use crate::norm::lemma_short_sizes;
use crate::norm::lemma_short_smaller;
use crate::norm::lemma_short_sum;
use crate::norm::minus;
use crate::norm::scaled;
use crate::norm::short;
use crate::norm::sizes;
use crate::optics::HALF_BITS;
use crate::scalar::Scalar;
use crate::snell::lemma_inner_commutes;
use crate::snell::lemma_inner_sum;
use crate::snell::lemma_small_product;
use crate::snell::lemma_two_number;
use crate::transmission::lemma_inner_scaled;
use crate::triple::combined;
use crate::triple::finite;
use crate::triple::inner;
use crate::triple::lemma_eps;
use crate::triple::triple;
use crate::triple::Triple;
use crate::vector::vector_scaled;
use crate::vector::Vector;
use vstd::prelude::*;

verus! {

/// An edge that is an axis scaled by `a`, but for rounding.
pub open spec fn is_edge(h: Triple, u: Triple, a: real) -> bool {
    short(minus(h, scaled(a, u)), (102real / 100real) * (a / 16700000real))
}

/// A component of an edge, as it is rounded.
proof fn lemma_edge_component(x: Scalar, k: Scalar)
    requires
        x.finite(),
        k.finite(),
        size(number(k) * number(x)) <= 20real,
    ensures
        close(
            x.product(k),
            number(k) * number(x),
            (size(number(k) * number(x)) + 1real / 10000real) / 16700000real,
        ),
{
    let p = number(k) * number(x);
    assert(number(x) * number(k) == p) by (nonlinear_arith)
        requires
            p == number(k) * number(x),
    ;
    let bound = size(p) + 1real / 10000real;
    lemma_product_close(x, k, bound);
    lemma_eps(bound);
}

/// An edge, as it is rounded.
pub proof fn lemma_edge(u: Vector, k: Scalar)
    requires
        finite(u),
        k.finite(),
        1real / 16real <= number(k) <= 14real,
        short(triple(u), 100001real / 100000real),
    ensures
        finite(vector_scaled(u, k)),
        is_edge(triple(vector_scaled(u, k)), triple(u), number(k)),
{
    let a = number(k);
    let t = triple(u);
    let au = scaled(a, t);
    let one = 100001real / 100000real;
    crate::norm::lemma_short_scaled(a, t, one, a);
    let l = a * one;
    assert(l <= 15real) by (nonlinear_arith)
        requires
            l == a * one,
            a <= 14real,
            one == 100001real / 100000real,
            a > 0real,
    ;
    lemma_short_components(au, l);
    lemma_edge_component(u.x, k);
    lemma_edge_component(u.y, k);
    lemma_edge_component(u.z, k);
    lemma_short_sizes(au, l);
    let c = minus(triple(vector_scaled(u, k)), au);
    let e = 1real / 16700000real;
    let z = (1real / 10000real) / 16700000real;
    let even = Triple { x: z, y: z, z: z };
    assert(z * z + z * z + z * z <= (2real * z) * (2real * z)) by (nonlinear_arith);
    lemma_short_sum(even, e, sizes(au), 2real * z, l);
    let s = combined(even, e, sizes(au));
    assert(size(e) * l == l / 16700000real) by (nonlinear_arith)
        requires
            size(e) == 1real / 16700000real,
    ;
    lemma_short_smaller(c, s, 2real * z + size(e) * l);
    assert(l <= (101real / 100real) * a) by (nonlinear_arith)
        requires
            l == a * one,
            one == 100001real / 100000real,
            a > 0real,
    ;
    lemma_short_longer(c, 2real * z + size(e) * l, (102real / 100real) * (a / 16700000real));
}

/// The inner product of an edge with a vector.
proof fn lemma_edge_with(h: Triple, u: Triple, x: Triple, a: real, b: real, t: real)
    requires
        is_edge(h, u, a),
        a > 0real,
        short(x, b),
        size(inner(u, x)) <= t,
    ensures
        size(inner(h, x)) <= a * t + a * (b / 16000000real),
{
    let au = scaled(a, u);
    let f = minus(h, au);
    let l = (102real / 100real) * (a / 16700000real);
    lemma_inner_sum(h, au, f, x);
    lemma_inner_scaled(a, u, x);
    lemma_inner_short(f, x, l, b);
    lemma_small_product(inner(u, x), a, t, a);
    let ux = inner(u, x);
    assert(ux * a == a * ux) by (nonlinear_arith);
    assert(l * b <= a * (b / 16000000real)) by (nonlinear_arith)
        requires
            l == (102real / 100real) * (a / 16700000real),
            a > 0real,
            b >= 0real,
    ;
}

/// The length of an edge.
proof fn lemma_edge_length(h: Triple, u: Triple, a: real)
    requires
        is_edge(h, u, a),
        a > 0real,
        size(inner(u, u) - 1real) <= 1real / 200000real,
    ensures
        size(inner(h, h) - a * a) <= (a * a) / 80000real,
        short(h, (10001real / 10000real) * a),
{
    let au = scaled(a, u);
    let f = minus(h, au);
    let one = 100001real / 100000real;
    assert(short(u, one));
    let l = (102real / 100real) * (a / 16700000real);
    lemma_inner_sum(h, au, f, h);
    lemma_inner_sum(h, au, f, au);
    lemma_inner_sum(h, au, f, f);
    lemma_inner_commutes(au, h);
    lemma_inner_commutes(f, h);
    lemma_inner_commutes(au, f);
    lemma_inner_scaled(a, u, au);
    lemma_inner_commutes(u, au);
    lemma_inner_scaled(a, u, u);
    lemma_inner_scaled(a, u, f);
    lemma_inner_short(u, f, one, l);
    lemma_inner_short(f, f, l, l);
    let (uu, uf, ff, aa) = (inner(u, u), inner(u, f), inner(f, f), a * a);
    assert(inner(h, h) == a * (a * uu) + 2real * (a * uf) + ff);
    let z = uu - 1real;
    assert(a * (a * uu) == aa + aa * z) by (nonlinear_arith)
        requires
            z == uu - 1real,
            aa == a * a,
    ;
    assert(aa > 0real) by (nonlinear_arith)
        requires
            aa == a * a,
            a > 0real,
    ;
    lemma_small_product(z, aa, 1real / 200000real, aa);
    assert(z * aa == aa * z) by (nonlinear_arith);
    lemma_small_product(uf, a, one * l, a);
    assert(uf * a == a * uf) by (nonlinear_arith);
    assert(a * (one * l) <= aa / 16000000real) by (nonlinear_arith)
        requires
            l == (102real / 100real) * (a / 16700000real),
            one == 100001real / 100000real,
            aa == a * a,
            aa > 0real,
    ;
    assert(l * l <= aa / 16000000real) by (nonlinear_arith)
        requires
            l == (102real / 100real) * (a / 16700000real),
            aa == a * a,
            aa > 0real,
    ;
    let b = (10001real / 10000real) * a;
    assert(b * b >= aa + aa / 10000real) by (nonlinear_arith)
        requires
            b == (10001real / 10000real) * a,
            aa == a * a,
            aa > 0real,
    ;
}

/// Edges of lengths `a` and `b` that are square to each other and to the line of
/// sight, but for rounding.
pub open spec fn are_edges(h: Triple, v: Triple, w: Triple, a: real, b: real) -> bool {
    &&& size(inner(w, w) - 1real) <= 1real / 200000real
    &&& size(inner(h, h) - a * a) <= (a * a) / 80000real
    &&& size(inner(v, v) - b * b) <= (b * b) / 80000real
    &&& size(inner(h, w)) <= a / 80000real
    &&& size(inner(v, w)) <= b / 80000real
    &&& size(inner(h, v)) <= (a * b) / 80000real
    &&& short(h, (10001real / 10000real) * a)
    &&& short(v, (10001real / 10000real) * b)
    &&& short(w, 100001real / 100000real)
}

pub proof fn lemma_edges(h: Triple, v: Triple, u: Triple, y: Triple, w: Triple, a: real, b: real)
    requires
        are_axes(u, y, w),
        is_edge(h, u, a),
        is_edge(v, y, b),
        a > 0real,
        b > 0real,
    ensures
        are_edges(h, v, w, a, b),
{
    let one = 100001real / 100000real;
    let t = 1real / 200000real;
    assert(short(w, one) && short(u, one) && short(y, one));
    lemma_edge_length(h, u, a);
    lemma_edge_length(v, y, b);
    lemma_edge_with(h, u, w, a, one, t);
    lemma_edge_with(v, y, w, b, one, t);
    lemma_inner_commutes(y, u);
    lemma_edge_with(v, y, u, b, one, t);
    lemma_inner_commutes(u, v);
    let s = b * t + b * (one / 16000000real);
    let l = (10001real / 10000real) * b;
    lemma_edge_with(h, u, v, a, l, s);
    assert(a * t + a * (one / 16000000real) <= a / 80000real) by (nonlinear_arith)
        requires
            t == 1real / 200000real,
            one == 100001real / 100000real,
            a > 0real,
    ;
    assert(s <= b / 190000real) by (nonlinear_arith)
        requires
            s == b * t + b * (one / 16000000real),
            t == 1real / 200000real,
            one == 100001real / 100000real,
            b > 0real,
    ;
    assert(l / 16000000real <= b / 15000000real) by (nonlinear_arith)
        requires
            l == (10001real / 10000real) * b,
            b > 0real,
    ;
    let q = s + l / 16000000real;
    assert(a * s + a * (l / 16000000real) == a * q) by (nonlinear_arith)
        requires
            q == s + l / 16000000real,
    ;
    assert(a * q <= (a * b) / 80000real) by (nonlinear_arith)
        requires
            q <= b / 80000real,
            a > 0real,
    ;
    assert(b * t + b * (one / 16000000real) <= b / 80000real);
}

/// The size of what enters a component: that of the eye's place, and of the
/// viewport.
pub open spec fn girth(m: real, a: real, b: real) -> real {
    m + a + b + 1real
}

/// Components of the eye's place, of the edges and of the line of sight.
pub open spec fn are_components(o: Scalar, h: Scalar, v: Scalar, w: real, m: real, a: real, b: real)
    -> bool {
    &&& o.finite() && h.finite() && v.finite()
    &&& 1real <= m <= 1000real
    &&& 1real / 16real <= a <= 14real
    &&& 1real / 16real <= b <= 14real
    &&& size(number(o)) <= m
    &&& size(number(h)) <= (10001real / 10000real) * a
    &&& size(number(v)) <= (10001real / 10000real) * b
    &&& size(w) <= 10001real / 10000real
}

/// A corner component, as it is rounded.
pub proof fn lemma_corner_component(
    o: Scalar,
    h: Scalar,
    v: Scalar,
    w: Scalar,
    m: real,
    a: real,
    b: real,
)
    requires
        are_components(o, h, v, number(w), m, a, b),
        w.finite(),
    ensures
        ({
            let two = Scalar { bits: TWO_BITS };
            close(
                o.difference(h.quotient(two)).difference(v.quotient(two)).difference(w),
                number(o) - number(h) / 2real - number(v) / 2real - number(w),
                (36real / 10real) * (girth(m, a, b) / 16700000real),
            )
        }),
{
    lemma_two_number();
    let g = girth(m, a, b);
    let wide = (101real / 100real) * g;
    let two = Scalar { bits: TWO_BITS };
    let (p, q) = (h.quotient(two), v.quotient(two));
    lemma_quotient_close(h, two, (51real / 100real) * a);
    lemma_quotient_close(v, two, (51real / 100real) * b);
    lemma_eps((51real / 100real) * a);
    lemma_eps((51real / 100real) * b);
    lemma_eps(wide);
    lemma_difference_close(o, p, wide);
    lemma_difference_close(o.difference(p), q, wide);
    lemma_difference_close(o.difference(p).difference(q), w, wide);
}

/// A component of the direction through the viewport, as it is rounded.
pub proof fn lemma_aim_component(
    o: Scalar,
    h: Scalar,
    v: Scalar,
    corner: Scalar,
    s: Scalar,
    t: Scalar,
    w: real,
    m: real,
    a: real,
    b: real,
)
    requires
        are_components(o, h, v, w, m, a, b),
        s.finite() && t.finite(),
        0real <= number(s) <= 1real,
        0real <= number(t) <= 1real,
        close(
            corner,
            number(o) - number(h) / 2real - number(v) / 2real - w,
            (36real / 10real) * (girth(m, a, b) / 16700000real),
        ),
    ensures
        close(
            corner.sum(h.product(s)).sum(v.product(t)).difference(o),
            -w + (number(s) - 1real / 2real) * number(h) + (number(t) - 1real / 2real) * number(v),
            9real * (girth(m, a, b) / 16700000real),
        ),
{
    let (p, q) = (h.product(s), v.product(t));
    let (la, lb) = ((10001real / 10000real) * a, (10001real / 10000real) * b);
    lemma_small_product(number(h), number(s), la, 1real);
    lemma_small_product(number(v), number(t), lb, 1real);
    lemma_product_close(h, s, (101real / 100real) * a);
    lemma_product_close(v, t, (101real / 100real) * b);
    lemma_eps((101real / 100real) * a);
    lemma_eps((101real / 100real) * b);
    let (x, y, z, c) = (number(h), number(v), number(s), number(t));
    let (sh, tv) = ((z - 1real / 2real) * x, (c - 1real / 2real) * y);
    assert(sh == x * z - x / 2real) by (nonlinear_arith)
        requires
            sh == (z - 1real / 2real) * x,
    ;
    assert(tv == y * c - y / 2real) by (nonlinear_arith)
        requires
            tv == (c - 1real / 2real) * y,
    ;
    lemma_small_product(z - 1real / 2real, x, 1real / 2real, la);
    lemma_small_product(c - 1real / 2real, y, 1real / 2real, lb);
    let corner_at = number(o) - x / 2real - y / 2real - w;
    lemma_aim_sum(corner, p, q, o, corner_at, x * z, y * c, m, a, b);
}

/// The sums that make up a component of the direction.
proof fn lemma_aim_sum(
    corner: Scalar,
    p: Scalar,
    q: Scalar,
    o: Scalar,
    c: real,
    x: real,
    y: real,
    m: real,
    a: real,
    b: real,
)
    requires
        o.finite(),
        1real <= m <= 1000real,
        1real / 16real <= a <= 14real,
        1real / 16real <= b <= 14real,
        size(number(o)) <= m,
        close(corner, c, (36real / 10real) * (girth(m, a, b) / 16700000real)),
        close(p, x, ((101real / 100real) * a) / 16700000real),
        close(q, y, ((101real / 100real) * b) / 16700000real),
        size(c + x) <= (151real / 100real) * girth(m, a, b),
        size(c + x + y) <= (151real / 100real) * girth(m, a, b),
        size(c + x + y - number(o)) <= (1001real / 1000real) * girth(m, a, b),
    ensures
        close(
            corner.sum(p).sum(q).difference(o),
            c + x + y - number(o),
            9real * (girth(m, a, b) / 16700000real),
        ),
{
    let g = girth(m, a, b);
    let wide = (152real / 100real) * g;
    let last = (101real / 100real) * g;
    lemma_eps(wide);
    lemma_eps(last);
    lemma_sum_close(corner, p, wide);
    lemma_sum_close(corner.sum(p), q, wide);
    lemma_difference_close(corner.sum(p).sum(q), o, last);
}

/// A component of the axis back to the eye, as it is rounded.
pub proof fn lemma_backward_component(
    o: Scalar,
    h: Scalar,
    v: Scalar,
    corner: Scalar,
    w: real,
    m: real,
    a: real,
    b: real,
)
    requires
        are_components(o, h, v, w, m, a, b),
        close(
            corner,
            number(o) - number(h) / 2real - number(v) / 2real - w,
            (36real / 10real) * (girth(m, a, b) / 16700000real),
        ),
    ensures
        ({
            let half = Scalar { bits: HALF_BITS };
            close(
                o.difference(h.product(half)).difference(v.product(half)).difference(corner),
                w,
                (75real / 10real) * (girth(m, a, b) / 16700000real),
            )
        }),
{
    lemma_half_number();
    let g = girth(m, a, b);
    let half = Scalar { bits: HALF_BITS };
    let (p, q) = (h.product(half), v.product(half));
    let (x, y) = (number(h), number(v));
    assert(x * number(half) == x / 2real) by (nonlinear_arith)
        requires
            number(half) == 1real / 2real,
    ;
    assert(y * number(half) == y / 2real) by (nonlinear_arith)
        requires
            number(half) == 1real / 2real,
    ;
    lemma_product_close(h, half, (51real / 100real) * a);
    lemma_product_close(v, half, (51real / 100real) * b);
    lemma_eps((51real / 100real) * a);
    lemma_eps((51real / 100real) * b);
    let wide = (101real / 100real) * g;
    lemma_eps(wide);
    lemma_difference_close(o, p, wide);
    lemma_difference_close(o.difference(p), q, wide);
    lemma_difference_close(o.difference(p).difference(q), corner, wide);
}

/// A component of the way from the eye to a point on a ray, as it is rounded.
pub proof fn lemma_way_component(o: Scalar, d: Scalar, k: Scalar, m: real)
    requires
        o.finite() && d.finite() && k.finite(),
        1real <= m <= 1000real,
        size(number(o)) <= m,
        size(number(d)) <= 101real / 100real,
        1real / 1000real <= number(k) <= 1000000real,
    ensures
        close(
            o.sum(d.product(k)).difference(o),
            number(k) * number(d),
            ((101real / 100real) * m + (32real / 10real) * number(k)) / 16700000real,
        ),
{
    let (x, z) = (number(d), number(k));
    let p = x * z;
    assert(p == z * x) by (nonlinear_arith)
        requires
            p == x * z,
    ;
    let b = (102real / 100real) * z;
    lemma_small_product(x, z, 101real / 100real, z);
    assert(z * (101real / 100real) == (101real / 100real) * z) by (nonlinear_arith);
    lemma_product_close(d, k, b);
    lemma_eps(b);
    let q = d.product(k);
    let c = m + b;
    lemma_sum_close(o, q, c);
    lemma_eps(c);
    let f = b + m / 1000real;
    lemma_difference_close(o.sum(q), o, f);
    lemma_eps(f);
}

} // verus!
