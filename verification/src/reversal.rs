//! Light retraces its way: refraction undone by refraction.
use crate::exact::eps;
use crate::exact::number;
use crate::exact::size;
use crate::norm::along_surface;
use crate::norm::lemma_along_short;
use crate::norm::lemma_along_square;
use crate::norm::lemma_inner_short;
use crate::norm::lemma_short_longer;
use crate::norm::lemma_short_sum;
use crate::norm::minus;
use crate::norm::scaled;
use crate::norm::short;
use crate::optics::refracted;
use crate::refraction::are_media;
use crate::refraction::cosine_square;
use crate::refraction::grain;
use crate::refraction::lemma_grain;
use crate::refraction::lemma_reflection_threshold;
use crate::scalar::Scalar;
use crate::snell::is_unit_vector;
use crate::snell::lemma_inner_commutes;
use crate::snell::lemma_inner_sum;
use crate::snell::lemma_small_product;
use crate::transmission::lemma_snell;
use crate::triple::combined;
use crate::triple::inner;
use crate::triple::lemma_eps;
use crate::triple::triple;
use crate::triple::Triple;
use crate::vector::Vector;
use vstd::prelude::*;

verus! {

/// The unit of the errors of a refraction there and back: that of the way back,
/// and that of the way there, carried back.
pub open spec fn round_trip(there: real, back: real) -> real {
    grain(back) + back * grain(there)
}

/// The ratios of the two ways.
proof fn lemma_ratios(n1: Scalar, n2: Scalar)
    requires
        are_media(n1, n2),
        are_media(n2, n1),
    ensures
        (number(n1) / number(n2)) * (number(n2) / number(n1)) == 1real,
        0real < number(n1) / number(n2) <= 32real,
        0real < number(n2) / number(n1) <= 32real,
{
    let (a, b) = (number(n1), number(n2));
    let (p, q) = (a / b, b / a);
    assert(p * b == a && p > 0real) by (nonlinear_arith)
        requires
            p == a / b,
            a > 0real,
            b > 0real,
    ;
    assert(q * a == b && q > 0real) by (nonlinear_arith)
        requires
            q == b / a,
            a > 0real,
            b > 0real,
    ;
    assert((p * q) * a == a) by (nonlinear_arith)
        requires
            p * b == a,
            q * a == b,
    ;
    let r = p * q;
    assert(r == 1real) by (nonlinear_arith)
        requires
            r * a == a,
            a > 0real,
    ;
    assert(p <= 32real) by (nonlinear_arith)
        requires
            p * b == a,
            b > 0real,
            a <= 32real * b,
    ;
    assert(q <= 32real) by (nonlinear_arith)
        requires
            q * a == b,
            a > 0real,
            b <= 32real * a,
    ;
}

/// The units of the two ways.
proof fn lemma_round_trip(there: real, back: real)
    requires
        there * back == 1real,
        0real < there <= 32real,
        0real < back <= 32real,
    ensures
        (back * back) * grain(there) == grain(back),
        grain(back) <= round_trip(there, back),
        eps() <= round_trip(there, back) <= 1real / 400real,
        back * grain(there) >= 0real,
{
    lemma_grain(there);
    lemma_grain(back);
    let (e, f) = (grain(there), grain(back));
    let (tt, bb) = (there * there, back * back);
    assert(tt * bb == 1real) by (nonlinear_arith)
        requires
            tt == there * there,
            bb == back * back,
            there * back == 1real,
    ;
    lemma_eps(tt);
    lemma_eps(bb);
    if there <= 1real {
        assert(back >= 1real) by (nonlinear_arith)
            requires
                there * back == 1real,
                0real < there <= 1real,
        ;
        if back == 1real {
            assert(bb == 1real);
        }
    } else {
        assert(back <= 1real) by (nonlinear_arith)
            requires
                there * back == 1real,
                there >= 1real,
        ;
        assert(bb * (tt * eps()) == (tt * bb) * eps()) by (nonlinear_arith);
    }
    let c = back * e;
    assert(0real <= c <= 1real / 500real) by (nonlinear_arith)
        requires
            c == back * e,
            0real < back <= 32real,
            0real <= e <= 1real / 16000real,
    ;
}

/// The way back leads to the cosine of incidence.
proof fn lemma_cosine_back(there: real, back: real, q: real, x: real, e: real, f: real)
    requires
        there * back == 1real,
        (back * back) * e == f,
        size(x * x - cosine_square(there, q)) <= 120real * e,
    ensures
        size(cosine_square(back, x) - q * q) <= 120real * f,
{
    let (tt, bb, z) = (there * there, back * back, 1real - q * q);
    let u = cosine_square(there, q) - x * x;
    assert(tt * bb == 1real) by (nonlinear_arith)
        requires
            tt == there * there,
            bb == back * back,
            there * back == 1real,
    ;
    assert(bb * (tt * z) == z) by (nonlinear_arith)
        requires
            tt * bb == 1real,
    ;
    assert(1real - x * x == tt * z + u);
    assert(bb * (tt * z + u) == bb * (tt * z) + bb * u) by (nonlinear_arith);
    assert(bb >= 0real) by (nonlinear_arith)
        requires
            bb == back * back,
    ;
    lemma_small_product(u, bb, 120real * e, bb);
    assert(bb * (120real * e) == 120real * (bb * e)) by (nonlinear_arith);
    assert(u * bb == bb * u) by (nonlinear_arith);
}

/// What lies along the surface, there and back.
proof fn lemma_along_back(a: Triple, t: Triple, b: Triple, there: real, back: real, e: real, f: real)
    requires
        there * back == 1real,
        back > 0real,
        e >= 0real,
        f >= 0real,
        short(minus(t, scaled(there, a)), 44real * e),
        short(minus(b, scaled(back, t)), 44real * f),
    ensures
        short(minus(b, a), 44real * (f + back * e)),
{
    let (u, v) = (minus(b, scaled(back, t)), minus(t, scaled(there, a)));
    lemma_short_sum(u, back, v, 44real * f, 44real * e);
    lemma_back_component(a.x, t.x, b.x, there, back);
    lemma_back_component(a.y, t.y, b.y, there, back);
    lemma_back_component(a.z, t.z, b.z, there, back);
    assert(combined(u, back, v) == minus(b, a));
    assert(size(back) * (44real * e) == 44real * (back * e)) by (nonlinear_arith)
        requires
            size(back) == back,
    ;
}

proof fn lemma_back_component(a: real, t: real, b: real, there: real, back: real)
    requires
        there * back == 1real,
    ensures
        (b - back * t) + back * (t - there * a) == b - a,
{
    assert(back * (there * a) == a) by (nonlinear_arith)
        requires
            there * back == 1real,
    ;
    assert(back * (t - there * a) == back * t - back * (there * a)) by (nonlinear_arith);
}

/// The squares of the components along the normal.
proof fn lemma_normal_squares(a: Triple, b: Triple, m: Triple, l: real)
    requires
        size(inner(a, a) - 1real) <= 10real / 16700000real,
        size(inner(b, b) - 1real) <= 10real / 16700000real,
        size(inner(m, m) - 1real) <= 10real / 16700000real,
        1real / 16700000real <= l <= 1real / 400real,
        short(minus(along_surface(b, m), along_surface(a, m)), 44real * l),
    ensures
        size(inner(b, m) * inner(b, m) - inner(a, m) * inner(a, m)) <= (1083real / 10real) * l,
{
    let (u, v) = (along_surface(b, m), along_surface(a, m));
    let c = minus(u, v);
    let one = 100001real / 100000real;
    assert(short(a, one) && short(b, one));
    lemma_along_short(a, m, one);
    lemma_along_short(b, m, one);
    lemma_inner_short(c, u, 44real * l, one);
    lemma_inner_short(c, v, 44real * l, one);
    lemma_inner_sum(u, v, c, u);
    lemma_inner_sum(u, v, c, v);
    lemma_inner_commutes(v, u);
    assert(inner(u, u) - inner(v, v) == inner(c, u) + inner(c, v));
    lemma_along_square(a, m);
    lemma_along_square(b, m);
    let (p, q) = (inner(b, m) * inner(b, m), inner(a, m) * inner(a, m));
    let z = 2real - inner(m, m);
    let d = p - q;
    assert(d * z == p * z - q * z) by (nonlinear_arith)
        requires
            d == p - q,
    ;
    let g = (10811real / 100real) * l;
    assert(size(d * z) <= g);
    assert(d <= (1083real / 10real) * l && -d <= (1083real / 10real) * l) by (nonlinear_arith)
        requires
            d * z <= g,
            -(d * z) <= g,
            z >= 999999real / 1000000real,
            g == (10811real / 100real) * l,
            l > 0real,
    ;
}

/// Numbers of one sign with near squares.
proof fn lemma_near_roots(y: real, q: real, l: real)
    requires
        l > 0real,
        size(y * y - q * q) <= (1083real / 10real) * l,
        q * q >= 310real * l,
        y > 0real <==> q > 0real,
        y != 0real,
        q != 0real,
    ensures
        size(y - q) * size(q) <= (602real / 10real) * l,
{
    let (a, b) = (size(y), size(q));
    assert(a * a == y * y) by (nonlinear_arith)
        requires
            a == y || a == -y,
    ;
    assert(b * b == q * q) by (nonlinear_arith)
        requires
            b == q || b == -q,
    ;
    let h = (8real / 10real) * b;
    assert(h * h == (64real / 100real) * (b * b)) by (nonlinear_arith)
        requires
            h == (8real / 10real) * b,
    ;
    assert(a * a >= h * h);
    assert(a >= h) by (nonlinear_arith)
        requires
            a * a >= h * h,
            a >= 0real,
            h >= 0real,
    ;
    let x = a - b;
    let s = a + b;
    assert(x * s == a * a - b * b) by (nonlinear_arith)
        requires
            x == a - b,
            s == a + b,
    ;
    let g = (1083real / 10real) * l;
    let z = size(x);
    assert(z * s <= g) by (nonlinear_arith)
        requires
            z == x || z == -x,
            x * s <= g,
            -(x * s) <= g,
    ;
    assert(z * ((18real / 10real) * b) <= z * s) by (nonlinear_arith)
        requires
            s >= (18real / 10real) * b,
            z >= 0real,
    ;
    assert(z * ((18real / 10real) * b) == (18real / 10real) * (z * b)) by (nonlinear_arith);
    assert(size(y - q) == z);
}

/// A vector from its parts along the surface and along the normal.
proof fn lemma_whole_back(a: Triple, b: Triple, m: Triple, l: real)
    requires
        l > 0real,
        short(m, 100001real / 100000real),
        short(minus(along_surface(b, m), along_surface(a, m)), 44real * l),
        size(inner(b, m) - inner(a, m)) * size(inner(a, m)) <= (602real / 10real) * l,
        0real < size(inner(a, m)) <= 1001real / 1000real,
    ensures
        short(minus(b, a), 105real * (l / size(inner(a, m)))),
{
    let (p, q) = (inner(b, m), inner(a, m));
    let f = p - q;
    let u = minus(along_surface(b, m), along_surface(a, m));
    let one = 100001real / 100000real;
    lemma_short_sum(u, f, m, 44real * l, one);
    lemma_whole_component(a.x, b.x, m.x, p, q);
    lemma_whole_component(a.y, b.y, m.y, p, q);
    lemma_whole_component(a.z, b.z, m.z, p, q);
    assert(combined(u, f, m) == minus(b, a));
    let s = size(q);
    let k = l / s;
    assert(k * s == l && k > 0real) by (nonlinear_arith)
        requires
            k == l / s,
            s > 0real,
            l > 0real,
    ;
    let z = size(f);
    assert(z <= (602real / 10real) * k) by (nonlinear_arith)
        requires
            z * s <= (602real / 10real) * l,
            k * s == l,
            s > 0real,
    ;
    assert(l <= (1001real / 1000real) * k) by (nonlinear_arith)
        requires
            k * s == l,
            s <= 1001real / 1000real,
            k > 0real,
    ;
    lemma_short_longer(minus(b, a), 44real * l + z * one, 105real * k);
}

proof fn lemma_whole_component(a: real, b: real, m: real, p: real, q: real)
    ensures
        ((b + (-p) * m) - (a + (-q) * m)) + (p - q) * m == b - a,
{
    assert((-p) * m == -(p * m) && (-q) * m == -(q * m) && (p - q) * m == p * m - q * m)
        by (nonlinear_arith);
}

/// A square above one rounding belongs to a number above four of them.
proof fn lemma_not_grazing(x: real)
    requires
        x * x >= 1real / 16700000real,
    ensures
        size(x) >= 4real / 16700000real,
{
    let a = size(x);
    assert(a * a == x * x) by (nonlinear_arith)
        requires
            a == x || a == -x,
    ;
    assert(a >= 4real / 16700000real) by (nonlinear_arith)
        requires
            a * a >= 1real / 16700000real,
            a >= 0real,
    ;
}

/// Refraction is reversible: what is transmitted from the first medium into the
/// second comes back, when it is sent on with the indices exchanged, as the
/// direction that it set out with. The error grows as the incidence nears
/// grazing. Both cosines are away from zero by more than the errors.
pub proof fn lemma_refraction_reverses(d: Vector, n: Vector, n1: Scalar, n2: Scalar)
    requires
        is_unit_vector(d),
        is_unit_vector(n),
        are_media(n1, n2),
        are_media(n2, n1),
        ({
            let (there, back) = (number(n1) / number(n2), number(n2) / number(n1));
            let q = inner(triple(d), triple(n));
            &&& q * q >= 310real * round_trip(there, back)
            &&& cosine_square(there, q) >= 121real * grain(there)
        }),
    ensures
        refracted(d, n, n1, n2) matches Some(t) && (refracted(t, n, n2, n1) matches Some(b)
            && short(
            minus(triple(b), triple(d)),
            105real * (round_trip(number(n1) / number(n2), number(n2) / number(n1)) / size(
                inner(triple(d), triple(n)),
            )),
        )),
{
    let (there, back) = (number(n1) / number(n2), number(n2) / number(n1));
    let (e, f, l) = (grain(there), grain(back), round_trip(there, back));
    let (a, m) = (triple(d), triple(n));
    let q = inner(a, m);
    assert(eps() == 1real / 16700000real);
    lemma_ratios(n1, n2);
    lemma_grain(there);
    lemma_grain(back);
    lemma_round_trip(there, back);
    lemma_not_grazing(q);
    lemma_reflection_threshold(d, n, n1, n2);
    lemma_snell(d, n, n1, n2);
    if let Some(t) = refracted(d, n, n1, n2) {
        let u = triple(t);
        let x = inner(u, m);
        lemma_cosine_back(there, back, q, x, e, f);
        lemma_not_grazing(x);
        lemma_reflection_threshold(t, n, n2, n1);
        lemma_snell(t, n, n2, n1);
        if let Some(b) = refracted(t, n, n2, n1) {
            let v = triple(b);
            lemma_along_back(
                along_surface(a, m),
                along_surface(u, m),
                along_surface(v, m),
                there,
                back,
                e,
                f,
            );
            lemma_normal_squares(a, v, m, l);
            lemma_near_roots(inner(v, m), q, l);
            let one = 100001real / 100000real;
            assert(short(a, one) && short(m, one));
            lemma_inner_short(a, m, one, one);
            lemma_whole_back(a, v, m, l);
        }
    }
}

} // verus!
