//! Single-precision arithmetic: sum, difference, product, quotient and square
//! root, each the exact result rounded to the nearest number, ties to even.
use crate::convert::one;
use crate::scalar::lemma_magnitude_increases;
use crate::scalar::lemma_magnitude_sign;
use crate::scalar::magnitude;
use crate::scalar::Scalar;
use crate::scalar::INFINITY_BITS;
use vstd::arithmetic::div_mod::lemma_fundamental_div_mod;
use vstd::arithmetic::power2::lemma2_to64;
use vstd::arithmetic::power2::lemma2_to64_rest;
use vstd::arithmetic::power2::lemma_pow2_adds;
use vstd::arithmetic::power2::lemma_pow2_pos;
use vstd::arithmetic::power2::lemma_pow2_strictly_increases;
use vstd::arithmetic::power2::lemma_pow2_unfold;
use vstd::arithmetic::power2::pow2;
use vstd::prelude::*;
use vstd::std_specs::bits::u64_leading_zeros;

verus! {

/// Encoding of the result of an operation that has none. The other encodings
/// of what is not a number are never produced.
pub const NAN_BITS: u32 = 0x7fc0_0000;

/// The unsigned encoding `k` is nearest to `num / den`: that lies between the
/// midpoints to both neighbours, and on a midpoint only if `k` is even.
/// Infinity stands for the number after the largest.
pub open spec fn is_nearest(k: int, num: int, den: int) -> bool {
    &&& 0 <= k <= 0x7f80_0000
    &&& k > 0 ==> {
        let low = (magnitude(k - 1) + magnitude(k)) * den;
        low <= 2 * num && (low == 2 * num ==> k % 2 == 0)
    }
    &&& k < 0x7f80_0000 ==> {
        let high = (magnitude(k) + magnitude(k + 1)) * den;
        2 * num <= high && (2 * num == high ==> k % 2 == 0)
    }
}

/// The unsigned encoding nearest to `num / den`, in units of 2^-149.
pub open spec fn nearest(num: int, den: int) -> int {
    choose|k: int| is_nearest(k, num, den)
}

/// A sign put before an unsigned encoding.
pub open spec fn signed(negative: bool, k: int) -> Scalar {
    Scalar {
        bits: if negative {
            (k + 0x8000_0000) as u32
        } else {
            k as u32
        },
    }
}

/// The number nearest to `num / den`, with the given sign.
pub open spec fn rounded(negative: bool, num: int, den: int) -> Scalar {
    signed(negative, nearest(num, den))
}

/// Nothing else is as near.
pub proof fn lemma_nearest_unique(a: int, b: int, num: int, den: int)
    requires
        den > 0,
        is_nearest(a, num, den),
        is_nearest(b, num, den),
    ensures
        a == b,
{
    if a < b {
        lemma_nearest_not_below(a, b, num, den);
    }
    if b < a {
        lemma_nearest_not_below(b, a, num, den);
    }
}

proof fn lemma_nearest_not_below(a: int, b: int, num: int, den: int)
    requires
        den > 0,
        a < b,
        is_nearest(a, num, den),
    ensures
        !is_nearest(b, num, den),
{
    let above: int = magnitude(a) + magnitude(a + 1);
    let under: int = magnitude(b - 1) + magnitude(b);
    if b > a + 1 {
        lemma_magnitude_increases(a, b - 1);
        lemma_magnitude_increases(a + 1, b);
        assert(above * den < under * den) by (nonlinear_arith)
            requires
                above < under,
                den > 0,
        ;
    }
}

/// `num / den` is not below the midpoint under `k`, nor on it if `k` is odd.
spec fn reaches(k: int, num: int, den: int) -> bool {
    let low = (magnitude(k - 1) + magnitude(k)) * den;
    k <= 0 || low < 2 * num || (low == 2 * num && k % 2 == 0)
}

proof fn lemma_nearest_below(k: int, num: int, den: int)
    requires
        den > 0,
        num >= 0,
        0 <= k <= 0x7f80_0000,
        k < 0x7f80_0000 ==> !reaches(k + 1, num, den),
    ensures
        is_nearest(nearest(num, den), num, den),
    decreases k,
{
    if reaches(k, num, den) {
        assert(is_nearest(k, num, den));
    } else {
        lemma_nearest_below(k - 1, num, den);
    }
}

/// Every quotient has a nearest number.
pub proof fn lemma_nearest_exists(num: int, den: int)
    requires
        den > 0,
        num >= 0,
    ensures
        is_nearest(nearest(num, den), num, den),
{
    lemma_nearest_below(0x7f80_0000, num, den);
}

/// Rounding keeps the order.
pub proof fn lemma_nearest_monotone(a: int, b: int, den: int)
    requires
        den > 0,
        0 <= a <= b,
    ensures
        nearest(a, den) <= nearest(b, den),
{
    lemma_nearest_exists(a, den);
    lemma_nearest_exists(b, den);
    let ka: int = nearest(a, den);
    let kb: int = nearest(b, den);
    if ka > kb {
        let low: int = magnitude(ka - 1) + magnitude(ka);
        let high: int = magnitude(kb) + magnitude(kb + 1);
        if ka > kb + 1 {
            lemma_magnitude_increases(kb, ka - 1);
            lemma_magnitude_increases(kb + 1, ka);
            assert(high * den < low * den) by (nonlinear_arith)
                requires
                    high < low,
                    den > 0,
            ;
        }
    }
}

/// A number is nearest to itself.
pub proof fn lemma_nearest_exact(k: int)
    requires
        0 <= k <= 0x7f80_0000,
    ensures
        nearest(magnitude(k), 1) == k,
{
    if k > 0 {
        lemma_magnitude_increases(k - 1, k);
    }
    lemma_magnitude_increases(k, k + 1);
    lemma_nearest_found(k, magnitude(k), 1);
}

/// A number is nearest to itself in a finer unit.
pub proof fn lemma_nearest_multiple(k: int, unit: int)
    requires
        0 <= k <= 0x7f80_0000,
        unit > 0,
    ensures
        nearest(magnitude(k) * unit, unit) == k,
{
    let num: int = magnitude(k) * unit;
    if k > 0 {
        lemma_magnitude_increases(k - 1, k);
        assert((magnitude(k - 1) + magnitude(k)) * unit < 2 * num) by (nonlinear_arith)
            requires
                magnitude(k - 1) < magnitude(k),
                num == magnitude(k) * unit,
                unit > 0,
        ;
    }
    lemma_magnitude_increases(k, k + 1);
    assert(2 * num < (magnitude(k) + magnitude(k + 1)) * unit) by (nonlinear_arith)
        requires
            magnitude(k) < magnitude(k + 1),
            num == magnitude(k) * unit,
            unit > 0,
    ;
    lemma_nearest_found(k, num, unit);
}

/// The encoding that a rounding found is the nearest.
proof fn lemma_nearest_found(k: int, num: int, den: int)
    requires
        den > 0,
        is_nearest(k, num, den),
    ensures
        nearest(num, den) == k,
{
    lemma_nearest_unique(nearest(num, den), k, num, den);
}

impl Scalar {
    pub open spec fn infinite(self) -> bool {
        self.unsigned_bits() == 0x7f80_0000
    }

    pub open spec fn finite(self) -> bool {
        self.unsigned_bits() < 0x7f80_0000
    }

    /// The size of the number in units of 2^-149.
    pub open spec fn size(self) -> int {
        magnitude(self.unsigned_bits())
    }

    fn is_infinite(self) -> (r: bool)
        ensures
            r == self.infinite(),
    {
        self.bits % 0x8000_0000 == INFINITY_BITS
    }

    fn is_zero(self) -> (r: bool)
        ensures
            r == (self.size() == 0),
    {
        proof {
            lemma_magnitude_sign(self.unsigned_bits());
        }
        self.bits % 0x8000_0000 == 0
    }

    /// Significand and exponent: the size is `s * 2^e`.
    pub fn unpack(self) -> (r: (u32, u32))
        requires
            self.finite(),
        ensures
            self.size() == r.0 * pow2(r.1 as nat),
            r.0 < 0x100_0000,
            r.1 <= 253,
            r.1 > 0 ==> r.0 >= 0x80_0000,
            r.0 == 0 <==> self.size() == 0,
    {
        let m: u32 = self.bits % 0x8000_0000;
        proof {
            lemma2_to64();
            lemma_magnitude_sign(m as int);
            assert(m * pow2(0) == m) by (nonlinear_arith)
                requires
                    pow2(0) == 1,
            ;
        }
        if m < 0x80_0000 {
            (m, 0)
        } else {
            (0x80_0000 + m % 0x80_0000, m / 0x80_0000 - 1)
        }
    }
}

/// The number of bits of `p`.
proof fn lemma_leading_zeros(p: u64)
    requires
        p > 0,
    ensures
        0 <= u64_leading_zeros(p) <= 63,
        pow2((63 - u64_leading_zeros(p)) as nat) <= p < pow2((64 - u64_leading_zeros(p)) as nat),
    decreases p,
{
    reveal(u64_leading_zeros);
    lemma2_to64();
    lemma2_to64_rest();
    let h: u64 = p / 2;
    if h > 0 {
        lemma_leading_zeros(h);
        let z: int = u64_leading_zeros(h);
        if z == 0 {
            assert(h >= pow2(63));
        }
        lemma_pow2_unfold((64 - z) as nat);
        lemma_pow2_unfold((65 - z) as nat);
    } else {
        assert(u64_leading_zeros(0u64) == 64);
    }
}

/// The exact number lies from `p * 2^e` up to, but not at, `(p + 1) * 2^e`, and
/// is `p * 2^e` itself unless `sticky`; `k` is nearest to every such number.
/// The two sides are scaled by 2^300, so that `e` may be negative.
spec fn settles(k: int, p: int, e: int, sticky: bool) -> bool {
    let u = pow2((e + 300) as nat) as int;
    let c = pow2(300) as int;
    &&& 0 <= k <= 0x7f80_0000
    &&& k > 0 ==> {
        let low = (magnitude(k - 1) + magnitude(k)) * c;
        low <= 2 * p * u && (low == 2 * p * u && !sticky ==> k % 2 == 0)
    }
    &&& k < 0x7f80_0000 ==> {
        let high = (magnitude(k) + magnitude(k + 1)) * c;
        if sticky {
            2 * (p + 1) * u <= high
        } else {
            2 * p * u <= high && (2 * p * u == high ==> k % 2 == 0)
        }
    }
}

/// The encoding with significand `q` and exponent `f`, and its successor.
pub proof fn lemma_encodings(q: int, f: nat)
    requires
        0 <= q < 0x100_0000,
        f > 0 ==> q >= 0x80_0000,
    ensures
        magnitude(f * 0x80_0000 + q) == q * pow2(f),
        magnitude(f * 0x80_0000 + q + 1) == (q + 1) * pow2(f),
{
    let k: int = f * 0x80_0000 + q;
    lemma2_to64();
    if q >= 0x80_0000 {
        assert(k / 0x80_0000 == f + 1);
        assert(k % 0x80_0000 == q - 0x80_0000);
    }
    if q + 1 == 0x100_0000 {
        assert((k + 1) / 0x80_0000 == f + 2);
        assert((k + 1) % 0x80_0000 == 0);
        lemma_pow2_unfold(f + 1);
        assert(0x80_0000 * (2 * pow2(f)) == 0x100_0000 * pow2(f)) by (nonlinear_arith);
    } else if q + 1 >= 0x80_0000 {
        assert((k + 1) / 0x80_0000 == f + 1);
        assert((k + 1) % 0x80_0000 == q + 1 - 0x80_0000);
    }
}

/// Rounding `p * 2^e` to the significand `q` at exponent `f`, where `t = f - e`
/// bits are dropped: down below the half, up above it, to even on it.
proof fn lemma_settles(q: int, f: int, p: int, e: int, t: int, sticky: bool, up: bool)
    requires
        0 <= q < 0x100_0000,
        0 <= f <= 253,
        f > 0 ==> q >= 0x80_0000,
        -200 <= e,
        f == e + t,
        p >= 0,
        sticky ==> t >= 1,
        t >= 1 ==> q * pow2(t as nat) <= p && p + 1 <= (q + 1) * pow2(t as nat),
        t < 1 ==> q == p * pow2((-t) as nat) && !up,
        t >= 1 ==> (up <==> {
            let twice = 2 * (p - q * pow2(t as nat));
            twice > pow2(t as nat) || twice == pow2(t as nat) && (sticky || q % 2 == 1)
        }),
    ensures
        settles(
            f * 0x80_0000 + q + if up {
                1int
            } else {
                0
            },
            p,
            e,
            sticky,
        ),
{
    let k: int = f * 0x80_0000 + q;
    let u: int = pow2((e + 300) as nat) as int;
    let c: int = pow2(300) as int;
    let pf: int = pow2(f as nat) as int;
    lemma_encodings(q, f as nat);
    lemma_pow2_pos((e + 300) as nat);
    lemma_pow2_pos(300);
    lemma_pow2_pos(f as nat);
    lemma_pow2_adds(f as nat, 300);
    if t >= 1 {
        let w: int = pow2(t as nat) as int;
        lemma_pow2_pos(t as nat);
        lemma_pow2_adds(t as nat, (e + 300) as nat);
        lemma_pow2_unfold(t as nat);
        assert(pf * c == w * u);
        lemma_settles_dropped(k, q, p, u, c, pf, w, sticky, up);
    } else {
        let w: int = pow2((-t) as nat) as int;
        lemma_pow2_pos((-t) as nat);
        lemma_pow2_adds((-t) as nat, (f + 300) as nat);
        assert(u == w * (pf * c));
        assert(p * (w * (pf * c)) == (p * w) * pf * c) by (nonlinear_arith);
        assert(2 * p * u == 2 * (q * pf) * c) by (nonlinear_arith)
            requires
                p * u == (p * w) * pf * c,
                q == p * w,
        ;
        if k > 0 {
            lemma_magnitude_increases(k - 1, k);
            assert((magnitude(k - 1) + q * pf) * c < 2 * (q * pf) * c) by (nonlinear_arith)
                requires
                    magnitude(k - 1) < q * pf,
                    c > 0,
            ;
        }
        assert(2 * (q * pf) * c < (q * pf + (q + 1) * pf) * c) by (nonlinear_arith)
            requires
                pf > 0,
                c > 0,
        ;
    }
}

proof fn lemma_settles_dropped(
    k: int,
    q: int,
    p: int,
    u: int,
    c: int,
    pf: int,
    w: int,
    sticky: bool,
    up: bool,
)
    requires
        0 <= k < 0x7f80_0000,
        k % 2 == q % 2,
        0 <= q,
        0 <= p,
        u > 0,
        c > 0,
        pf > 0,
        w > 0,
        w % 2 == 0,
        pf * c == w * u,
        magnitude(k) == q * pf,
        magnitude(k + 1) == (q + 1) * pf,
        q * w <= p,
        p + 1 <= (q + 1) * w,
        up <==> (2 * (p - q * w) > w || 2 * (p - q * w) == w && (sticky || q % 2 == 1)),
    ensures
        ({
            let r = k + if up {
                1int
            } else {
                0
            };
            &&& r > 0 ==> {
                let low = (magnitude(r - 1) + magnitude(r)) * c;
                low <= 2 * p * u && (low == 2 * p * u && !sticky ==> r % 2 == 0)
            }
            &&& r < 0x7f80_0000 ==> {
                let high = (magnitude(r) + magnitude(r + 1)) * c;
                if sticky {
                    2 * (p + 1) * u <= high
                } else {
                    2 * p * u <= high && (2 * p * u == high ==> r % 2 == 0)
                }
            }
        }),
{
    // The midpoint between the two candidates.
    let mid: int = (2 * q + 1) * w;
    assert((q * pf + (q + 1) * pf) * c == mid * u) by (nonlinear_arith)
        requires
            pf * c == w * u,
            mid == (2 * q + 1) * w,
    ;
    assert((q * pf) * c == (q * w) * u) by (nonlinear_arith)
        requires
            pf * c == w * u,
    ;
    assert(((q + 1) * pf) * c == ((q + 1) * w) * u) by (nonlinear_arith)
        requires
            pf * c == w * u,
    ;
    assert(mid == 2 * (q * w) + w) by (nonlinear_arith)
        requires
            mid == (2 * q + 1) * w,
    ;
    if up {
        assert(2 * p >= mid);
        assert(mid * u <= 2 * p * u) by (nonlinear_arith)
            requires
                2 * p >= mid,
                u > 0,
        ;
        if mid * u == 2 * p * u {
            assert(2 * p == mid) by (nonlinear_arith)
                requires
                    mid * u == 2 * p * u,
                    u > 0,
            ;
        }
        if k + 1 < 0x7f80_0000 {
            lemma_magnitude_increases(k + 1, k + 2);
            let next: int = magnitude(k + 2);
            assert(((q + 1) * pf + next) * c > 2 * (((q + 1) * pf) * c)) by (nonlinear_arith)
                requires
                    next > (q + 1) * pf,
                    c > 0,
            ;
            assert(2 * (p + 1) * u <= 2 * (((q + 1) * w) * u)) by (nonlinear_arith)
                requires
                    p + 1 <= (q + 1) * w,
                    u > 0,
            ;
            assert(2 * p * u <= 2 * (p + 1) * u) by (nonlinear_arith)
                requires
                    u > 0,
            ;
        }
    } else {
        assert(2 * p <= mid);
        assert(2 * p * u <= mid * u) by (nonlinear_arith)
            requires
                2 * p <= mid,
                u > 0,
        ;
        if 2 * p * u == mid * u {
            assert(2 * p == mid) by (nonlinear_arith)
                requires
                    2 * p * u == mid * u,
                    u > 0,
            ;
        }
        if sticky {
            assert(2 * p < mid);
            assert(mid % 2 == 0) by (nonlinear_arith)
                requires
                    mid == 2 * (q * w) + w,
                    w % 2 == 0,
            ;
            assert(2 * (p + 1) <= mid);
            assert(2 * (p + 1) * u <= mid * u) by (nonlinear_arith)
                requires
                    2 * (p + 1) <= mid,
                    u > 0,
            ;
        }
        if k > 0 {
            lemma_magnitude_increases(k - 1, k);
            let prev: int = magnitude(k - 1);
            assert((prev + q * pf) * c < 2 * ((q * pf) * c)) by (nonlinear_arith)
                requires
                    prev < q * pf,
                    c > 0,
            ;
            assert(2 * ((q * w) * u) <= 2 * p * u) by (nonlinear_arith)
                requires
                    q * w <= p,
                    u > 0,
            ;
        }
    }
}

/// The quotient lies between two bounds that the dividend respects.
proof fn lemma_quotient_between(p: int, unit: int, low: int, high: int)
    requires
        unit > 0,
        low * unit <= p < high * unit,
    ensures
        low <= p / unit < high,
        p == (p / unit) * unit + p % unit,
        0 <= p % unit < unit,
{
    lemma_fundamental_div_mod(p, unit);
    let q: int = p / unit;
    let r: int = p % unit;
    assert(low <= q) by (nonlinear_arith)
        requires
            low * unit <= p,
            p == unit * q + r,
            r < unit,
            unit > 0,
    ;
    assert(q < high) by (nonlinear_arith)
        requires
            p < high * unit,
            p == unit * q + r,
            0 <= r,
            unit > 0,
    ;
    assert(unit * q == q * unit) by (nonlinear_arith);
}

proof fn lemma_pow2_monotone(a: nat, b: nat)
    requires
        a <= b,
    ensures
        pow2(a) <= pow2(b),
{
    if a < b {
        lemma_pow2_strictly_increases(a, b);
    }
}

/// A number of 2^277 units or more is nearest to infinity.
proof fn lemma_settles_infinity(p: int, e: int, sticky: bool, n: int)
    requires
        1 <= n,
        pow2((n - 1) as nat) <= p,
        -200 <= e,
        n + e >= 278,
    ensures
        settles(0x7f80_0000, p, e, sticky),
{
    let u: int = pow2((e + 300) as nat) as int;
    let c: int = pow2(300) as int;
    let top: int = magnitude(0x7f80_0000);
    let prev: int = magnitude(0x7f80_0000 - 1);
    lemma_magnitude_increases(0x7f80_0000 - 1, 0x7f80_0000);
    lemma2_to64();
    lemma_pow2_adds(23, 254);
    assert(top == pow2(277));
    lemma_pow2_adds(277, 300);
    lemma_pow2_adds((n - 1) as nat, (e + 300) as nat);
    lemma_pow2_monotone(577, (n - 1 + e + 300) as nat);
    lemma_pow2_pos(300);
    lemma_pow2_pos((e + 300) as nat);
    let lead: int = pow2((n - 1) as nat) as int;
    assert((prev + top) * c < 2 * (top * c)) by (nonlinear_arith)
        requires
            prev < top,
            c > 0,
    ;
    assert(2 * (lead * u) <= 2 * p * u) by (nonlinear_arith)
        requires
            lead <= p,
            u > 0,
    ;
}

/// Rounds `p * 2^e`, or with `sticky` anything above it and below
/// `(p + 1) * 2^e`, to an unsigned encoding.
fn assemble(p: u64, e: i32, sticky: bool) -> (k: u32)
    requires
        0 < p < 0x4000_0000_0000_0000,
        -200 <= e <= 600,
        sticky ==> p >= 0x200_0000,
    ensures
        settles(k as int, p as int, e as int, sticky),
{
    proof {
        lemma_leading_zeros(p);
        lemma2_to64();
        lemma2_to64_rest();
        if u64_leading_zeros(p) <= 1 {
            lemma_pow2_monotone(62, (63 - u64_leading_zeros(p)) as nat);
        }
        if u64_leading_zeros(p) >= 39 {
            lemma_pow2_monotone((64 - u64_leading_zeros(p)) as nat, 25);
        }
    }
    let n: i32 = 64 - p.leading_zeros() as i32;
    let top: i32 = n + e - 24;
    let f: i32 = if top > 0 {
        top
    } else {
        0
    };
    if f >= 254 {
        proof {
            lemma_settles_infinity(p as int, e as int, sticky, n as int);
        }
        return INFINITY_BITS;
    }
    let t: i32 = f - e;
    if t < 1 {
        let back: u64 = (-t) as u64;
        proof {
            let w: int = pow2(back as nat) as int;
            lemma_pow2_pos(back as nat);
            lemma_pow2_adds(n as nat, back as nat);
            lemma_pow2_monotone((n + back) as nat, 24);
            assert(p * w < 0x100_0000) by (nonlinear_arith)
                requires
                    p < pow2(n as nat),
                    w > 0,
                    pow2(n as nat) * w <= 0x100_0000,
            ;
            if f > 0 {
                lemma_pow2_adds((n - 1) as nat, back as nat);
                assert(p * w >= 0x80_0000) by (nonlinear_arith)
                    requires
                        p >= pow2((n - 1) as nat),
                        w > 0,
                        pow2((n - 1) as nat) * w == 0x80_0000,
                ;
            }
            vstd::bits::lemma_u64_shl_is_mul(p, back);
            lemma_settles(p * w, f as int, p as int, e as int, t as int, sticky, false);
        }
        let q: u64 = p << back;
        return f as u32 * 0x80_0000 + q as u32;
    }
    if t >= 63 {
        proof {
            lemma_pow2_monotone(63, t as nat);
            lemma_settles(0, f as int, p as int, e as int, t as int, sticky, false);
        }
        return 0;
    }
    let unit: u64 = 1u64 << (t as u64);
    proof {
        lemma_pow2_monotone(t as nat, 62);
        assert(1 * pow2(t as nat) == pow2(t as nat));
        vstd::bits::lemma_u64_shl_is_mul(1, t as u64);
        lemma_pow2_pos(t as nat);
        lemma_pow2_adds(24, t as nat);
        lemma_pow2_monotone(n as nat, (24 + t) as nat);
        if f > 0 {
            lemma_pow2_adds(23, t as nat);
            lemma_quotient_between(p as int, unit as int, 0x80_0000, 0x100_0000);
        } else {
            lemma_quotient_between(p as int, unit as int, 0, 0x100_0000);
        }
    }
    let q: u64 = p >> (t as u64);
    proof {
        vstd::bits::lemma_u64_shr_is_div(p, t as u64);
        assert(q * unit <= p);
    }
    let rest: u64 = p - q * unit;
    let up: bool = 2 * rest > unit || (2 * rest == unit && (sticky || q % 2 == 1));
    proof {
        assert((q + 1) * unit == q * unit + unit) by (nonlinear_arith);
        lemma_settles(q as int, f as int, p as int, e as int, t as int, sticky, up);
    }
    if up {
        f as u32 * 0x80_0000 + q as u32 + 1
    } else {
        f as u32 * 0x80_0000 + q as u32
    }
}

/// The rounding settles the number `num / den` that lies where it said.
proof fn lemma_settled(k: int, p: int, e: int, sticky: bool, num: int, den: int)
    requires
        settles(k, p, e, sticky),
        den > 0,
        sticky ==> den * p * pow2((e + 300) as nat) < num * pow2(300),
        sticky ==> num * pow2(300) < den * (p + 1) * pow2((e + 300) as nat),
        !sticky ==> den * p * pow2((e + 300) as nat) == num * pow2(300),
    ensures
        nearest(num, den) == k,
{
    let u: int = pow2((e + 300) as nat) as int;
    let c: int = pow2(300) as int;
    lemma_pow2_pos((e + 300) as nat);
    lemma_pow2_pos(300);
    let x: int = num * c;
    assert(den * p * u <= x);
    if k > 0 {
        let low: int = magnitude(k - 1) + magnitude(k);
        assert(low * den <= 2 * num) by (nonlinear_arith)
            requires
                low * c <= 2 * p * u,
                den * p * u <= num * c,
                den > 0,
                c > 0,
        {
            assert(low * c * den <= 2 * p * u * den);
            assert(2 * p * u * den == 2 * (den * p * u));
            assert(low * c * den == low * den * c);
        }
        if low * den == 2 * num {
            assert(low * c == 2 * p * u && !(den * p * u < num * c)) by (nonlinear_arith)
                requires
                    low * den == 2 * num,
                    low * c <= 2 * p * u,
                    den * p * u <= num * c,
                    den > 0,
                    c > 0,
            {
                assert(low * c * den == low * den * c);
                assert(low * c * den == 2 * (num * c));
                assert(2 * p * u * den == 2 * (den * p * u));
                assert(low * c * den <= 2 * p * u * den);
                assert(low * c * den >= 2 * p * u * den);
            }
        }
    }
    if k < 0x7f80_0000 {
        let high: int = magnitude(k) + magnitude(k + 1);
        if sticky {
            assert(2 * num < high * den) by (nonlinear_arith)
                requires
                    2 * (p + 1) * u <= high * c,
                    num * c < den * (p + 1) * u,
                    den > 0,
                    c > 0,
            {
                assert(2 * (p + 1) * u * den <= high * c * den);
                assert(2 * (p + 1) * u * den == 2 * (den * (p + 1) * u));
                assert(high * c * den == high * den * c);
            }
        } else {
            assert(2 * num <= high * den) by (nonlinear_arith)
                requires
                    2 * p * u <= high * c,
                    num * c == den * p * u,
                    den > 0,
                    c > 0,
            {
                assert(2 * p * u * den <= high * c * den);
                assert(2 * p * u * den == 2 * (den * p * u));
                assert(high * c * den == high * den * c);
            }
            if 2 * num == high * den {
                assert(2 * p * u == high * c) by (nonlinear_arith)
                    requires
                        2 * num == high * den,
                        num * c == den * p * u,
                        den > 0,
                {
                    assert(2 * (num * c) == high * den * c);
                    assert(2 * p * u * den == 2 * (den * p * u));
                    assert(high * c * den == high * den * c);
                }
            }
        }
    }
    lemma_nearest_found(k, num, den);
}

/// Zero is nearest to zero.
pub proof fn lemma_nearest_zero(den: int)
    requires
        den > 0,
    ensures
        nearest(0, den) == 0,
{
    lemma_magnitude_increases(0, 1);
    assert((magnitude(0) + magnitude(1)) * den > 0) by (nonlinear_arith)
        requires
            den > 0,
            magnitude(0) == 0,
            magnitude(1) > 0,
    ;
    lemma_nearest_found(0, 0, den);
}

/// A sign put before an unsigned encoding.
fn put_sign(negative: bool, k: u32) -> (r: Scalar)
    requires
        k <= INFINITY_BITS,
    ensures
        r == signed(negative, k as int),
{
    if negative {
        Scalar { bits: k + 0x8000_0000 }
    } else {
        Scalar { bits: k }
    }
}

impl Scalar {
    /// The product: what is not a number for one that is not, or for infinity
    /// times zero; else the exact product, rounded.
    #[verifier::opaque]
    pub open spec fn product(self, other: Scalar) -> Scalar {
        let negative = self.negative() != other.negative();
        if self.nan() || other.nan() {
            Scalar { bits: NAN_BITS }
        } else if self.infinite() || other.infinite() {
            if self.size() == 0 || other.size() == 0 {
                Scalar { bits: NAN_BITS }
            } else {
                signed(negative, 0x7f80_0000)
            }
        } else {
            rounded(negative, self.size() * other.size(), one())
        }
    }

    pub fn times(self, other: Scalar) -> (r: Scalar)
        ensures
            r == self.product(other),
    {
        reveal(Scalar::product);
        if self.is_nan() || other.is_nan() {
            return Scalar { bits: NAN_BITS };
        }
        let negative: bool = (self.bits >= 0x8000_0000) != (other.bits >= 0x8000_0000);
        if self.is_infinite() || other.is_infinite() {
            if self.is_zero() || other.is_zero() {
                return Scalar { bits: NAN_BITS };
            }
            return put_sign(negative, INFINITY_BITS);
        }
        let (sa, ea): (u32, u32) = self.unpack();
        let (sb, eb): (u32, u32) = other.unpack();
        proof {
            lemma_pow2_pos(149);
        }
        if sa == 0 || sb == 0 {
            proof {
                assert(self.size() * other.size() == 0) by (nonlinear_arith)
                    requires
                        self.size() == 0 || other.size() == 0,
                ;
                lemma_nearest_zero(one());
            }
            return put_sign(negative, 0);
        }
        assert(0 < sa * sb < 0x100_0000 * 0x100_0000) by (nonlinear_arith)
            requires
                0 < sa < 0x100_0000,
                0 < sb < 0x100_0000,
        ;
        let p: u64 = sa as u64 * sb as u64;
        let e: i32 = ea as i32 + eb as i32 - 149;
        let k: u32 = assemble(p, e, false);
        proof {
            let num: int = self.size() * other.size();
            let pa: int = pow2(ea as nat) as int;
            let pb: int = pow2(eb as nat) as int;
            let c: int = pow2(300) as int;
            let u: int = pow2((e + 300) as nat) as int;
            lemma_pow2_adds(ea as nat, eb as nat);
            lemma_pow2_adds((ea + eb) as nat, 300);
            lemma_pow2_adds(149, (e + 300) as nat);
            assert(one() * p * u == num * c) by (nonlinear_arith)
                requires
                    num == (sa * pa) * (sb * pb),
                    p == sa * sb,
                    (pa * pb) * c == one() * u,
            ;
            lemma_settled(k as int, p as int, e as int, false, num, one());
        }
        put_sign(negative, k)
    }
}

/// The size of an integer.
pub open spec fn absolute(n: int) -> int {
    if n < 0 {
        -n
    } else {
        n
    }
}

/// A signed integer.
pub open spec fn with_sign(negative: bool, n: int) -> int {
    if negative {
        -n
    } else {
        n
    }
}

/// Where two exponents are far apart, the smaller number only disturbs the
/// bits below the larger.
proof fn lemma_far_tail(sa: int, ea: int, sb: int, eb: int)
    requires
        0x80_0000 <= sa < 0x100_0000,
        0 <= sb < 0x100_0000,
        0 <= eb,
        ea >= eb + 36,
    ensures
        sa * pow2(ea as nat) == (sa * 4096) * pow2((ea - 12) as nat),
        0 <= sb * pow2(eb as nat) < pow2((ea - 12) as nat),
        sb > 0 ==> sb * pow2(eb as nat) > 0,
        pow2((ea - 12) as nat) * pow2(300) == pow2((ea - 12 + 300) as nat),
        pow2(300) > 0,
{
    lemma2_to64();
    lemma_pow2_adds(12, (ea - 12) as nat);
    lemma_pow2_adds(24, eb as nat);
    lemma_pow2_monotone((24 + eb) as nat, (ea - 12) as nat);
    lemma_pow2_pos(eb as nat);
    lemma_pow2_pos(300);
    lemma_pow2_adds((ea - 12) as nat, 300);
    let pe: int = pow2((ea - 12) as nat) as int;
    let pb: int = pow2(eb as nat) as int;
    assert(sa * (4096 * pe) == (sa * 4096) * pe) by (nonlinear_arith);
    assert(0 <= sb * pb < 0x100_0000 * pb) by (nonlinear_arith)
        requires
            0 <= sb < 0x100_0000,
            pb > 0,
    ;
    if sb > 0 {
        assert(sb * pb > 0) by (nonlinear_arith)
            requires
                sb > 0,
                pb > 0,
        ;
    }
}

/// The sign and the rounded size of a sum that is not zero; `None` for zero.
/// The first number has the larger exponent.
fn add_sizes(na: bool, sa: u32, ea: u32, nb: bool, sb: u32, eb: u32) -> (r: Option<(bool, u32)>)
    requires
        sa < 0x100_0000,
        sb < 0x100_0000,
        eb <= ea <= 253,
        ea > 0 ==> sa >= 0x80_0000,
    ensures
        ({
            let total = with_sign(na, sa * pow2(ea as nat)) + with_sign(nb, sb * pow2(eb as nat));
            match r {
                None => total == 0,
                Some((negative, k)) => total != 0 && negative == (total < 0) && k == nearest(
                    absolute(total),
                    1,
                ) && k <= INFINITY_BITS,
            }
        }),
{
    let d: u32 = ea - eb;
    let ghost va = sa * pow2(ea as nat);
    let ghost vb = sb * pow2(eb as nat);
    let ghost total = with_sign(na, va) + with_sign(nb, vb);
    if d <= 35 {
        proof {
            lemma2_to64();
            lemma2_to64_rest();
            lemma_pow2_monotone(d as nat, 35);
            lemma_pow2_pos(d as nat);
            assert(0 <= sa * pow2(d as nat) <= 0x100_0000 * 0x8_0000_0000) by (nonlinear_arith)
                requires
                    0 <= sa < 0x100_0000,
                    0 < pow2(d as nat) <= 0x8_0000_0000,
            ;
            vstd::bits::lemma_u64_shl_is_mul(sa as u64, d as u64);
        }
        let wide: i64 = ((sa as u64) << (d as u64)) as i64;
        let a: i64 = if na {
            -wide
        } else {
            wide
        };
        let b: i64 = if nb {
            -(sb as i64)
        } else {
            sb as i64
        };
        let sum: i64 = a + b;
        proof {
            let pd: int = pow2(d as nat) as int;
            let pb: int = pow2(eb as nat) as int;
            lemma_pow2_adds(d as nat, eb as nat);
            lemma_pow2_pos(eb as nat);
            assert(sa * (pd * pb) == wide * pb) by (nonlinear_arith)
                requires
                    wide == sa * pd,
            ;
            assert(total == sum * pb) by (nonlinear_arith)
                requires
                    total == with_sign(na, wide * pb) + with_sign(nb, sb * pb),
                    sum == with_sign(na, wide as int) + with_sign(nb, sb as int),
            ;
            assert((sum == 0 <==> total == 0) && (sum < 0 <==> total < 0)) by (nonlinear_arith)
                requires
                    total == sum * pb,
                    pb > 0,
            ;
        }
        if sum == 0 {
            return None;
        }
        let p: u64 = if sum < 0 {
            (-sum) as u64
        } else {
            sum as u64
        };
        let k: u32 = assemble(p, eb as i32, false);
        proof {
            let pb: int = pow2(eb as nat) as int;
            let num: int = absolute(total);
            lemma_pow2_adds(eb as nat, 300);
            assert(num == p * pb) by (nonlinear_arith)
                requires
                    total == sum * pb,
                    num == absolute(total),
                    p == absolute(sum as int),
                    pb > 0,
            ;
            assert(1 * p * (pb * pow2(300)) == num * pow2(300)) by (nonlinear_arith)
                requires
                    num == p * pb,
            ;
            lemma_settled(k as int, p as int, eb as int, false, num, 1);
        }
        return Some((sum < 0, k));
    }
    proof {
        lemma_far_tail(sa as int, ea as int, sb as int, eb as int);
    }
    let p: u64 = sa as u64 * 4096;
    let e: i32 = ea as i32 - 12;
    let ghost pe = pow2((ea - 12) as nat) as int;
    let ghost c = pow2(300) as int;
    proof {
        assert(p * pe > vb) by (nonlinear_arith)
            requires
                p >= 1,
                pe > vb,
                vb >= 0,
        ;
    }
    if sb == 0 {
        let k: u32 = assemble(p, e, false);
        proof {
            assert(vb == 0) by (nonlinear_arith)
                requires
                    vb == sb * pow2(eb as nat),
                    sb == 0,
            ;
            assert(1 * p * (pe * c) == (p * pe) * c) by (nonlinear_arith);
            lemma_settled(k as int, p as int, e as int, false, absolute(total), 1);
        }
        return Some((na, k));
    }
    if na == nb {
        let k: u32 = assemble(p, e, true);
        proof {
            let num: int = absolute(total);
            assert(num == p * pe + vb);
            assert(1 * p * (pe * c) < num * c && num * c < 1 * (p + 1) * (pe * c)) by (
            nonlinear_arith)
                requires
                    num == p * pe + vb,
                    0 < vb < pe,
                    c > 0,
            ;
            lemma_settled(k as int, p as int, e as int, true, num, 1);
        }
        Some((na, k))
    } else {
        let k: u32 = assemble(p - 1, e, true);
        proof {
            let num: int = absolute(total);
            let below: int = p - 1;
            assert(num == p * pe - vb);
            assert(1 * below * (pe * c) < num * c && num * c < 1 * (below + 1) * (pe * c)) by (
            nonlinear_arith)
                requires
                    num == p * pe - vb,
                    below == p - 1,
                    0 < vb < pe,
                    c > 0,
            ;
            lemma_settled(k as int, below, e as int, true, num, 1);
        }
        Some((na, k))
    }
}

impl Scalar {
    /// The sum: what is not a number for one that is not, or for infinities of
    /// two signs; else the exact sum, rounded. A sum of zero is positive,
    /// unless both numbers are negative zero.
    #[verifier::opaque]
    pub open spec fn sum(self, other: Scalar) -> Scalar {
        let total = self.value() + other.value();
        if self.nan() || other.nan() {
            Scalar { bits: NAN_BITS }
        } else if self.infinite() && other.infinite() && self.negative() != other.negative() {
            Scalar { bits: NAN_BITS }
        } else if self.infinite() {
            self
        } else if other.infinite() {
            other
        } else if total == 0 {
            signed(self.negative() && other.negative(), 0)
        } else {
            rounded(total < 0, absolute(total), 1)
        }
    }

    /// The difference: the sum with the negated number.
    #[verifier::opaque]
    pub open spec fn difference(self, other: Scalar) -> Scalar {
        self.sum(other.negated())
    }

    pub fn plus(self, other: Scalar) -> (r: Scalar)
        ensures
            r == self.sum(other),
    {
        reveal(Scalar::sum);
        if self.is_nan() || other.is_nan() {
            return Scalar { bits: NAN_BITS };
        }
        let na: bool = self.bits >= 0x8000_0000;
        let nb: bool = other.bits >= 0x8000_0000;
        if self.is_infinite() {
            if other.is_infinite() && na != nb {
                return Scalar { bits: NAN_BITS };
            }
            return self;
        }
        if other.is_infinite() {
            return other;
        }
        let (sa, ea): (u32, u32) = self.unpack();
        let (sb, eb): (u32, u32) = other.unpack();
        let found: Option<(bool, u32)> = if ea >= eb {
            add_sizes(na, sa, ea, nb, sb, eb)
        } else {
            add_sizes(nb, sb, eb, na, sa, ea)
        };
        match found {
            Some((negative, k)) => put_sign(negative, k),
            None => put_sign(na && nb, 0),
        }
    }

    pub fn minus(self, other: Scalar) -> (r: Scalar)
        ensures
            r == self.difference(other),
    {
        reveal(Scalar::difference);
        self.plus(other.neg())
    }
}

/// Doubles a significand until it has 24 bits. The exponent is 23 too large,
/// so that it is never negative.
fn normalise(s: u32, e: u32) -> (r: (u32, u32))
    requires
        0 < s < 0x100_0000,
        e <= 253,
    ensures
        0x80_0000 <= r.0 < 0x100_0000,
        r.1 <= 276,
        r.0 * pow2(r.1 as nat) == (s * pow2(e as nat)) * pow2(23),
{
    let mut significand: u32 = s;
    let mut exponent: u32 = e + 23;
    proof {
        lemma2_to64();
        lemma_pow2_adds(e as nat, 23);
        let pe: int = pow2(e as nat) as int;
        let p23: int = pow2(23) as int;
        assert(s * (pe * p23) == (s * pe) * p23) by (nonlinear_arith);
    }
    while significand < 0x80_0000
        invariant
            0 < significand < 0x100_0000,
            e <= exponent <= e + 23,
            e <= 253,
            significand >= pow2((e + 23 - exponent) as nat),
            pow2(23) == 0x80_0000,
            significand * pow2(exponent as nat) == (s * pow2(e as nat)) * pow2(23),
        decreases 0x100_0000 - significand,
    {
        proof {
            if exponent == e {
                assert(e + 23 - exponent == 23);
            }
            let half: int = pow2((exponent - 1) as nat) as int;
            lemma_pow2_unfold(exponent as nat);
            lemma_pow2_unfold((e + 24 - exponent) as nat);
            assert(significand * (2 * half) == (2 * significand) * half) by (nonlinear_arith);
        }
        significand = significand * 2;
        exponent = exponent - 1;
    }
    (significand, exponent)
}

/// The quotient of two normalised significands brackets the exact quotient.
proof fn lemma_quotient_settled(
    k: int,
    q: int,
    rest: int,
    sa: int,
    ea: int,
    sb: int,
    eb: int,
    size_a: int,
    size_b: int,
)
    requires
        0 <= ea <= 276,
        0 <= eb <= 276,
        sa >= 0,
        sb > 0,
        size_b > 0,
        sa * pow2(ea as nat) == size_a * pow2(23),
        sb * pow2(eb as nat) == size_b * pow2(23),
        sa * 0x4000_0000 == q * sb + rest,
        0 <= rest < sb,
        settles(k, q, ea - eb + 119, rest != 0),
    ensures
        nearest(size_a * one(), size_b) == k,
{
    let e: int = ea - eb + 119;
    let num: int = size_a * one();
    let den: int = size_b;
    let u: int = pow2((e + 300) as nat) as int;
    let c: int = pow2(300) as int;
    let g: int = pow2((ea + 419) as nat) as int;
    let p23: int = pow2(23) as int;
    lemma2_to64();
    lemma_pow2_pos(23);
    lemma_pow2_pos((ea + 419) as nat);
    lemma_pow2_adds(eb as nat, (e + 300) as nat);
    lemma_pow2_adds(ea as nat, 449);
    lemma_pow2_adds(149, 300);
    lemma_pow2_adds(30, (ea + 419) as nat);
    let pa: int = pow2(ea as nat) as int;
    let pb: int = pow2(eb as nat) as int;
    // Both sides, multiplied by 2^23, are multiples of 2^(ea + 419).
    assert(p23 * (num * c) == (q * sb + rest) * g) by (nonlinear_arith)
        requires
            num == size_a * one(),
            sa * pa == size_a * p23,
            pa * (one() * c) == 0x4000_0000 * g,
            sa * 0x4000_0000 == q * sb + rest,
    {
        assert(p23 * (size_a * one() * c) == (size_a * p23) * (one() * c));
        assert((sa * pa) * (one() * c) == sa * (pa * (one() * c)));
        assert(sa * (0x4000_0000 * g) == (sa * 0x4000_0000) * g);
    }
    assert(p23 * (den * q * u) == (q * sb) * g) by (nonlinear_arith)
        requires
            den == size_b,
            sb * pb == size_b * p23,
            pb * u == g,
    {
        assert(p23 * (size_b * q * u) == (size_b * p23) * q * u);
        assert((sb * pb) * q * u == (q * sb) * (pb * u));
    }
    assert(p23 * (den * (q + 1) * u) == (q * sb + sb) * g) by (nonlinear_arith)
        requires
            den == size_b,
            sb * pb == size_b * p23,
            pb * u == g,
    {
        assert(p23 * (size_b * (q + 1) * u) == (size_b * p23) * (q + 1) * u);
        assert((sb * pb) * (q + 1) * u == ((q + 1) * sb) * (pb * u));
    }
    if rest != 0 {
        assert(den * q * u < num * c && num * c < den * (q + 1) * u) by (nonlinear_arith)
            requires
                p23 * (num * c) == (q * sb + rest) * g,
                p23 * (den * q * u) == (q * sb) * g,
                p23 * (den * (q + 1) * u) == (q * sb + sb) * g,
                0 < rest < sb,
                g > 0,
                p23 > 0,
        {
            assert((q * sb) * g < (q * sb + rest) * g);
            assert((q * sb + rest) * g < (q * sb + sb) * g);
        }
    } else {
        assert(den * q * u == num * c) by (nonlinear_arith)
            requires
                p23 * (num * c) == p23 * (den * q * u),
                p23 > 0,
        ;
    }
    lemma_settled(k, q, e, rest != 0, num, den);
}

impl Scalar {
    /// The quotient: what is not a number for one that is not, for infinity
    /// over infinity and for zero over zero; infinite for infinity over a
    /// number and for a number over zero, zero for a number over infinity;
    /// else the exact quotient, rounded.
    #[verifier::opaque]
    pub open spec fn quotient(self, other: Scalar) -> Scalar {
        let negative = self.negative() != other.negative();
        if self.nan() || other.nan() {
            Scalar { bits: NAN_BITS }
        } else if self.infinite() && other.infinite() || self.size() == 0 && other.size() == 0 {
            Scalar { bits: NAN_BITS }
        } else if self.infinite() || other.size() == 0 {
            signed(negative, 0x7f80_0000)
        } else if other.infinite() {
            signed(negative, 0)
        } else {
            rounded(negative, self.size() * one(), other.size())
        }
    }

    pub fn over(self, other: Scalar) -> (r: Scalar)
        ensures
            r == self.quotient(other),
    {
        reveal(Scalar::quotient);
        if self.is_nan() || other.is_nan() {
            return Scalar { bits: NAN_BITS };
        }
        let negative: bool = (self.bits >= 0x8000_0000) != (other.bits >= 0x8000_0000);
        if (self.is_infinite() && other.is_infinite()) || (self.is_zero() && other.is_zero()) {
            return Scalar { bits: NAN_BITS };
        }
        if self.is_infinite() || other.is_zero() {
            return put_sign(negative, INFINITY_BITS);
        }
        if other.is_infinite() {
            return put_sign(negative, 0);
        }
        let (ra, xa): (u32, u32) = self.unpack();
        let (rb, xb): (u32, u32) = other.unpack();
        proof {
            lemma_magnitude_sign(other.unsigned_bits());
        }
        if ra == 0 {
            proof {
                assert(self.size() * one() == 0) by (nonlinear_arith)
                    requires
                        self.size() == 0,
                ;
                lemma_nearest_zero(other.size());
            }
            return put_sign(negative, 0);
        }
        let (sa, ea): (u32, u32) = normalise(ra, xa);
        let (sb, eb): (u32, u32) = normalise(rb, xb);
        let wide: u64 = sa as u64 * 0x4000_0000;
        proof {
            assert(0x2000_0000 * sb <= wide < 0x1_0000_0000 * sb);
            lemma_quotient_between(wide as int, sb as int, 0x2000_0000, 0x1_0000_0000);
        }
        let q: u64 = wide / sb as u64;
        let rest: u64 = wide % sb as u64;
        let e: i32 = ea as i32 - eb as i32 + 119;
        let k: u32 = assemble(q, e, rest != 0);
        proof {
            lemma_quotient_settled(
                k as int,
                q as int,
                rest as int,
                sa as int,
                ea as int,
                sb as int,
                eb as int,
                self.size(),
                other.size(),
            );
        }
        put_sign(negative, k)
    }
}

/// The unsigned encoding `k` is nearest to the square root of `square`, in
/// units of 2^-149 and of 2^-298: twice the root lies between the sums with
/// both neighbours, and on such a sum only if `k` is even.
pub open spec fn is_nearest_root(k: int, square: int) -> bool {
    &&& 0 <= k <= 0x7f80_0000
    &&& k > 0 ==> {
        let low = magnitude(k - 1) + magnitude(k);
        low * low <= 4 * square && (low * low == 4 * square ==> k % 2 == 0)
    }
    &&& k < 0x7f80_0000 ==> {
        let high = magnitude(k) + magnitude(k + 1);
        4 * square <= high * high && (4 * square == high * high ==> k % 2 == 0)
    }
}

pub open spec fn nearest_root(square: int) -> int {
    choose|k: int| is_nearest_root(k, square)
}

/// Nothing else is as near.
pub proof fn lemma_nearest_root_unique(a: int, b: int, square: int)
    requires
        is_nearest_root(a, square),
        is_nearest_root(b, square),
    ensures
        a == b,
{
    if a < b {
        lemma_nearest_root_not_below(a, b, square);
    }
    if b < a {
        lemma_nearest_root_not_below(b, a, square);
    }
}

proof fn lemma_nearest_root_not_below(a: int, b: int, square: int)
    requires
        a < b,
        is_nearest_root(a, square),
    ensures
        !is_nearest_root(b, square),
{
    let above: int = magnitude(a) + magnitude(a + 1);
    let under: int = magnitude(b - 1) + magnitude(b);
    lemma_magnitude_sign(a);
    lemma_magnitude_sign(a + 1);
    if b > a + 1 {
        lemma_magnitude_increases(a, b - 1);
        lemma_magnitude_increases(a + 1, b);
        assert(above * above < under * under) by (nonlinear_arith)
            requires
                0 <= above < under,
        ;
    }
}

/// Twice the root is not below the sum under `k`, nor on it if `k` is odd.
spec fn root_reaches(k: int, square: int) -> bool {
    let low = magnitude(k - 1) + magnitude(k);
    k <= 0 || low * low < 4 * square || (low * low == 4 * square && k % 2 == 0)
}

proof fn lemma_nearest_root_below(k: int, square: int)
    requires
        0 <= k <= 0x7f80_0000,
        k < 0x7f80_0000 ==> !root_reaches(k + 1, square),
    ensures
        is_nearest_root(nearest_root(square), square),
    decreases k,
{
    if root_reaches(k, square) {
        assert(is_nearest_root(k, square));
    } else {
        lemma_nearest_root_below(k - 1, square);
    }
}

/// Every square has a nearest root.
pub proof fn lemma_nearest_root_exists(square: int)
    ensures
        is_nearest_root(nearest_root(square), square),
{
    lemma_nearest_root_below(0x7f80_0000, square);
}

/// One step toward the integer square root: the mean of a number that is not
/// below it and of the quotient by that number is not below it either.
proof fn lemma_root_step(n: int, x: int, q: int, y: int)
    requires
        x > 0,
        q >= 0,
        n < (q + 1) * x,
        2 * y + 1 >= x + q,
    ensures
        n < (y + 1) * (y + 1),
{
    assert(4 * ((y + 1) * (y + 1)) >= (x + q + 1) * (x + q + 1)) by (nonlinear_arith)
        requires
            2 * (y + 1) >= x + q + 1,
            x > 0,
            q >= 0,
    ;
    assert((x + q + 1) * (x + q + 1) >= 4 * ((q + 1) * x)) by (nonlinear_arith);
}

/// The integer square root of a number below 2^56, by halving steps from
/// above.
fn integer_root(n: u64) -> (r: u64)
    requires
        0 < n < 0x100_0000_0000_0000,
    ensures
        r * r <= n < (r + 1) * (r + 1),
        r < 0x1000_0000,
{
    let mut x: u64 = n / 0x1000_0000 + 0x400_0000;
    proof {
        let m: int = 0x800_0000;
        lemma_fundamental_div_mod(n as int, m);
        lemma_root_step(n as int, m, n as int / m, x as int);
    }
    let mut y: u64 = (x + n / x) / 2;
    while y < x
        invariant
            0 < x < 0x1_0000_0000,
            0 < n < 0x100_0000_0000_0000,
            n < (x + 1) * (x + 1),
            y == (x + n / x) / 2,
        decreases x,
    {
        proof {
            let q: int = n as int / x as int;
            lemma_quotient_steps(n as int, x as int);
            lemma_root_step(n as int, x as int, q, y as int);
            if x == 1 {
                assert(q == n) by (nonlinear_arith)
                    requires
                        x == 1,
                        q * x <= n,
                        n < (q + 1) * x,
                ;
            }
        }
        x = y;
        proof {
            lemma_quotient_steps(n as int, x as int);
        }
        y = (x + n / x) / 2;
    }
    proof {
        let q: int = n as int / x as int;
        lemma_quotient_steps(n as int, x as int);
        assert(x * x <= n) by (nonlinear_arith)
            requires
                q >= x,
                q * x <= n,
                x > 0,
        ;
        assert(x < 0x1000_0000) by (nonlinear_arith)
            requires
                x * x <= n,
                n < 0x1000_0000 * 0x1000_0000,
                x >= 0,
        ;
    }
    x
}

/// The quotient and its successor bracket the dividend.
proof fn lemma_quotient_steps(n: int, x: int)
    requires
        x > 0,
        n >= 0,
    ensures
        n / x >= 0,
        (n / x) * x <= n < (n / x + 1) * x,
{
    lemma_fundamental_div_mod(n, x);
    let q: int = n / x;
    assert(q >= 0 && q * x <= n && n < (q + 1) * x) by (nonlinear_arith)
        requires
            n == x * q + n % x,
            0 <= n % x < x,
            n >= 0,
            x > 0,
    ;
}

/// The integer root of a scaled significand brackets the exact root.
proof fn lemma_root_settled(k: int, r: int, wide: int, e: int, square: int)
    requires
        r > 0,
        r * r <= wide < (r + 1) * (r + 1),
        0 <= e,
        square == wide * pow2((2 * e) as nat),
        settles(k, r, e, r * r != wide),
    ensures
        nearest_root(square) == k,
{
    let u: int = pow2((e + 300) as nat) as int;
    let c: int = pow2(300) as int;
    lemma_pow2_pos((e + 300) as nat);
    lemma_pow2_pos(300);
    lemma_pow2_adds((e + 300) as nat, (e + 300) as nat);
    lemma_pow2_adds((2 * e) as nat, 600);
    lemma_pow2_adds(300, 300);
    assert(wide * (u * u) == square * (c * c)) by (nonlinear_arith)
        requires
            square == wide * pow2((2 * e) as nat),
            u * u == pow2((2 * e) as nat) * (c * c),
    ;
    if k > 0 {
        let low: int = magnitude(k - 1) + magnitude(k);
        lemma_magnitude_sign(k - 1);
        lemma_magnitude_sign(k);
        lemma_root_low(low, r, wide, u, c, square);
    }
    if k < 0x7f80_0000 {
        let high: int = magnitude(k) + magnitude(k + 1);
        lemma_magnitude_sign(k);
        lemma_magnitude_sign(k + 1);
        if r * r != wide {
            lemma_root_high(high, r, wide, u, c, square);
        } else {
            lemma_root_exact(high, r, u, c, square);
        }
    }
    assert(is_nearest_root(k, square));
    lemma_nearest_root_unique(nearest_root(square), k, square);
}

proof fn lemma_root_low(low: int, r: int, wide: int, u: int, c: int, square: int)
    requires
        low >= 0,
        r > 0,
        u > 0,
        c > 0,
        low * c <= 2 * r * u,
        r * r <= wide,
        wide * (u * u) == square * (c * c),
    ensures
        low * low <= 4 * square,
        low * low == 4 * square ==> low * c == 2 * r * u && r * r == wide,
{
    let lc: int = low * c;
    let ru: int = 2 * r * u;
    let cc: int = c * c;
    let uu: int = u * u;
    assert(0 <= lc) by (nonlinear_arith)
        requires
            low >= 0,
            c > 0,
            lc == low * c,
    ;
    assert(lc * lc <= ru * ru) by (nonlinear_arith)
        requires
            0 <= lc <= ru,
    ;
    assert(lc * lc == (low * low) * cc) by (nonlinear_arith)
        requires
            lc == low * c,
            cc == c * c,
    ;
    assert(ru * ru == 4 * ((r * r) * uu)) by (nonlinear_arith)
        requires
            ru == 2 * r * u,
            uu == u * u,
    ;
    assert(cc > 0 && uu > 0) by (nonlinear_arith)
        requires
            c > 0,
            u > 0,
            cc == c * c,
            uu == u * u,
    ;
    assert((r * r) * uu <= wide * uu) by (nonlinear_arith)
        requires
            r * r <= wide,
            uu > 0,
    ;
    assert(low * low <= 4 * square) by (nonlinear_arith)
        requires
            (low * low) * cc <= 4 * (square * cc),
            cc > 0,
    ;
    if low * low == 4 * square {
        assert(lc * lc == 4 * (square * cc)) by (nonlinear_arith)
            requires
                lc * lc == (low * low) * cc,
                low * low == 4 * square,
        ;
        assert(lc == ru) by (nonlinear_arith)
            requires
                lc * lc == ru * ru,
                0 <= lc <= ru,
        ;
        assert(r * r == wide) by (nonlinear_arith)
            requires
                (r * r) * uu == wide * uu,
                uu > 0,
        ;
    }
}

proof fn lemma_root_high(high: int, r: int, wide: int, u: int, c: int, square: int)
    requires
        high >= 0,
        r > 0,
        u > 0,
        c > 0,
        2 * (r + 1) * u <= high * c,
        wide < (r + 1) * (r + 1),
        wide * (u * u) == square * (c * c),
    ensures
        4 * square < high * high,
{
    let hc: int = high * c;
    let ru: int = 2 * (r + 1) * u;
    let cc: int = c * c;
    let uu: int = u * u;
    assert(0 <= ru) by (nonlinear_arith)
        requires
            ru == 2 * (r + 1) * u,
            r > 0,
            u > 0,
    ;
    assert(ru * ru <= hc * hc) by (nonlinear_arith)
        requires
            0 <= ru <= hc,
    ;
    assert(hc * hc == (high * high) * cc) by (nonlinear_arith)
        requires
            hc == high * c,
            cc == c * c,
    ;
    assert(ru * ru == 4 * (((r + 1) * (r + 1)) * uu)) by (nonlinear_arith)
        requires
            ru == 2 * (r + 1) * u,
            uu == u * u,
    ;
    assert(cc > 0 && uu > 0) by (nonlinear_arith)
        requires
            c > 0,
            u > 0,
            cc == c * c,
            uu == u * u,
    ;
    assert(wide * uu < ((r + 1) * (r + 1)) * uu) by (nonlinear_arith)
        requires
            wide < (r + 1) * (r + 1),
            uu > 0,
    ;
    assert(4 * square < high * high) by (nonlinear_arith)
        requires
            4 * (square * cc) < (high * high) * cc,
            cc > 0,
    ;
}

proof fn lemma_root_exact(high: int, r: int, u: int, c: int, square: int)
    requires
        high >= 0,
        r > 0,
        u > 0,
        c > 0,
        2 * r * u <= high * c,
        (r * r) * (u * u) == square * (c * c),
    ensures
        4 * square <= high * high,
        4 * square == high * high ==> 2 * r * u == high * c,
{
    let hc: int = high * c;
    let ru: int = 2 * r * u;
    let cc: int = c * c;
    assert(0 <= ru) by (nonlinear_arith)
        requires
            ru == 2 * r * u,
            r > 0,
            u > 0,
    ;
    assert(ru * ru <= hc * hc) by (nonlinear_arith)
        requires
            0 <= ru <= hc,
    ;
    assert(hc * hc == (high * high) * cc) by (nonlinear_arith)
        requires
            hc == high * c,
            cc == c * c,
    ;
    assert(ru * ru == 4 * ((r * r) * (u * u))) by (nonlinear_arith)
        requires
            ru == 2 * r * u,
    ;
    assert(cc > 0) by (nonlinear_arith)
        requires
            c > 0,
            cc == c * c,
    ;
    assert(4 * square <= high * high) by (nonlinear_arith)
        requires
            4 * (square * cc) <= (high * high) * cc,
            cc > 0,
    ;
    if 4 * square == high * high {
        assert(ru * ru == hc * hc) by (nonlinear_arith)
            requires
                ru * ru == 4 * (square * cc),
                hc * hc == (high * high) * cc,
                4 * square == high * high,
        ;
        assert(ru == hc) by (nonlinear_arith)
            requires
                ru * ru == hc * hc,
                0 <= ru <= hc,
        ;
    }
}

impl Scalar {
    /// The square root: a zero stays, a number below zero has none, infinity
    /// stays; else the exact root, rounded.
    #[verifier::opaque]
    pub open spec fn square_root(self) -> Scalar {
        if self.nan() {
            Scalar { bits: NAN_BITS }
        } else if self.size() == 0 {
            self
        } else if self.negative() {
            Scalar { bits: NAN_BITS }
        } else if self.infinite() {
            self
        } else {
            signed(false, nearest_root(self.size() * one()))
        }
    }

    pub fn sqrt(self) -> (r: Scalar)
        ensures
            r == self.square_root(),
    {
        reveal(Scalar::square_root);
        if self.is_nan() {
            return Scalar { bits: NAN_BITS };
        }
        if self.is_zero() {
            return self;
        }
        if self.bits >= 0x8000_0000 {
            return Scalar { bits: NAN_BITS };
        }
        if self.is_infinite() {
            return self;
        }
        let (ra, xa): (u32, u32) = self.unpack();
        let (s, x): (u32, u32) = normalise(ra, xa);
        let (even, m): (u32, u32) = if x % 2 == 1 {
            (s * 2, x - 1)
        } else {
            (s, x)
        };
        let wide: u64 = even as u64 * 0x4000_0000;
        let r: u64 = integer_root(wide);
        let e: i32 = (m / 2) as i32 + 48;
        assert(r >= 0x400_0000) by (nonlinear_arith)
            requires
                wide < (r + 1) * (r + 1),
                wide >= 0x80_0000 * 0x4000_0000,
                0x400_0000 * 0x400_0000 <= 0x80_0000 * 0x4000_0000,
                r >= 0,
        ;
        let exact: bool = r * r == wide;
        let k: u32 = assemble(r, e, !exact);
        proof {
            let square: int = self.size() * one();
            let p23: int = pow2(23) as int;
            let pm: int = pow2(m as nat) as int;
            lemma2_to64();
            if x % 2 == 1 {
                lemma_pow2_unfold(x as nat);
                assert(s * (2 * pm) == (s * 2) * pm) by (nonlinear_arith);
            }
            assert(even * pm == self.size() * p23);
            lemma_pow2_adds(23, 126);
            lemma_pow2_adds(m as nat, 126);
            lemma_pow2_adds(30, (m + 96) as nat);
            let top: int = pow2((m + 96) as nat) as int;
            assert(square == wide * top) by (nonlinear_arith)
                requires
                    square == self.size() * one(),
                    even * pm == self.size() * p23,
                    one() == p23 * pow2(126),
                    pm * pow2(126) == 0x4000_0000 * top,
                    wide == even * 0x4000_0000,
            {
                assert(self.size() * (p23 * pow2(126)) == (self.size() * p23) * pow2(126));
                assert((even * pm) * pow2(126) == even * (pm * pow2(126)));
                assert(even * (0x4000_0000 * top) == (even * 0x4000_0000) * top);
            }
            assert(2 * e == m + 96);
            lemma_root_settled(k as int, r as int, wide as int, e as int, square);
        }
        put_sign(false, k)
    }
}

/// The number nearest to an integer.
pub open spec fn integral(n: int) -> Scalar {
    rounded(false, n * one(), 1)
}

/// An integer as a number, rounded.
pub fn from_u64(n: u64) -> (r: Scalar)
    ensures
        r == integral(n as int),
{
    if n == 0 {
        proof {
            lemma_nearest_zero(1);
        }
        return Scalar { bits: 0 };
    }
    proof {
        lemma_pow2_pos(149);
        lemma_pow2_pos(300);
        lemma_pow2_adds(149, 300);
        lemma_pow2_adds(2, 449);
        lemma2_to64();
    }
    let ghost num = n * one();
    let ghost c = pow2(300) as int;
    if n < 0x4000_0000_0000_0000 {
        let k: u32 = assemble(n, 149, false);
        proof {
            assert(1 * n * (one() * c) == num * c) by (nonlinear_arith)
                requires
                    num == n * one(),
            ;
            lemma_settled(k as int, n as int, 149, false, num, 1);
        }
        return Scalar { bits: k };
    }
    let p: u64 = n / 4;
    let rest: u64 = n % 4;
    let k: u32 = assemble(p, 151, rest != 0);
    proof {
        let g: int = one() * c;
        assert(num * c == n * g) by (nonlinear_arith)
            requires
                num == n * one(),
                g == one() * c,
        ;
        assert(1 * p * (4 * g) == (4 * p) * g) by (nonlinear_arith);
        assert(1 * (p + 1) * (4 * g) == (4 * p + 4) * g) by (nonlinear_arith);
        assert(g > 0) by (nonlinear_arith)
            requires
                g == one() * c,
                one() > 0,
                c > 0,
        ;
        assert(n == 4 * p + rest);
        if rest != 0 {
            assert((4 * p) * g < n * g && n * g < (4 * p + 4) * g) by (nonlinear_arith)
                requires
                    4 * p < n < 4 * p + 4,
                    g > 0,
            ;
        }
        lemma_settled(k as int, p as int, 151, rest != 0, num, 1);
    }
    Scalar { bits: k }
}

/// A significand of 53 bits at an exponent, in units of 2^-1074, rounded.
pub fn from_fine(negative: bool, s: u64, e: u32) -> (r: Scalar)
    requires
        s < 0x20_0000_0000_0000,
        e <= 2045,
        e > 0 ==> s >= 0x10_0000_0000_0000,
    ensures
        r == rounded(negative, s * pow2(e as nat), pow2(925) as int),
{
    let ghost num = s * pow2(e as nat);
    let ghost den = pow2(925) as int;
    let ghost pe = pow2(e as nat) as int;
    let f: i32 = e as i32 - 925;
    proof {
        lemma_pow2_pos(925);
        lemma_pow2_pos(e as nat);
        lemma2_to64();
        lemma2_to64_rest();
    }
    if s == 0 {
        proof {
            assert(num == 0) by (nonlinear_arith)
                requires
                    num == s * pe,
                    s == 0,
            ;
            lemma_nearest_zero(den);
        }
        return put_sign(negative, 0);
    }
    if f < -200 {
        proof {
            lemma_pow2_adds(54, e as nat);
            lemma_pow2_monotone((54 + e) as nat, 925);
            assert(0 <= 2 * num <= 0x40_0000_0000_0000 * pe) by (nonlinear_arith)
                requires
                    num == s * pe,
                    0 < s < 0x20_0000_0000_0000,
                    pe > 0,
            ;
            assert((magnitude(0) + magnitude(1)) * den == den) by (nonlinear_arith)
                requires
                    magnitude(0) + magnitude(1) == 1,
            ;
            lemma_nearest_found(0, num, den);
        }
        return put_sign(negative, 0);
    }
    let ghost c = pow2(300) as int;
    let ghost u = pow2((f + 300) as nat) as int;
    proof {
        lemma_pow2_adds(925, (f + 300) as nat);
        lemma_pow2_adds(e as nat, 300);
        assert(den * s * u == num * c) by (nonlinear_arith)
            requires
                num == s * pe,
                den * u == pe * c,
        ;
    }
    if f > 600 {
        proof {
            lemma_settles_infinity(s as int, f as int, false, 53);
            lemma_settled(0x7f80_0000, s as int, f as int, false, num, den);
        }
        return put_sign(negative, INFINITY_BITS);
    }
    let k: u32 = assemble(s, f, false);
    proof {
        lemma_settled(k as int, s as int, f as int, false, num, den);
    }
    put_sign(negative, k)
}

/// A significand of 24 bits at any exponent has an encoding.
proof fn lemma_representable(s: int, e: nat) -> (k: int)
    requires
        0 <= s < 0x100_0000,
        e <= 253,
    ensures
        0 <= k < 0x7f80_0000,
        magnitude(k) == s * pow2(e),
    decreases e,
{
    if e == 0 || s >= 0x80_0000 {
        lemma_encodings(s, e);
        e * 0x80_0000 + s
    } else {
        lemma_pow2_unfold(e);
        let h: int = pow2((e - 1) as nat) as int;
        assert(s * (2 * h) == (2 * s) * h) by (nonlinear_arith);
        lemma_representable(2 * s, (e - 1) as nat)
    }
}

/// Zero is the zero encoding.
pub proof fn lemma_integral_zero()
    ensures
        integral(0) == (Scalar { bits: 0 }),
{
    lemma_nearest_zero(1);
}

/// Integers of 24 bits are numbers themselves.
pub proof fn lemma_integral_exact(n: int)
    requires
        0 <= n < 0x100_0000,
    ensures
        integral(n).value() == n * one(),
        integral(n).finite(),
        !integral(n).negative(),
{
    let k: int = lemma_representable(n, 149);
    lemma_nearest_exact(k);
}

/// Sums of integers of 24 bits are exact.
pub proof fn lemma_integral_sum(a: int, b: int)
    requires
        0 <= a,
        0 <= b,
        a + b < 0x100_0000,
    ensures
        integral(a).sum(integral(b)) == integral(a + b),
{
    lemma_integral_exact(a);
    lemma_integral_exact(b);
    reveal(Scalar::sum);
    assert(a * one() + b * one() == (a + b) * one()) by (nonlinear_arith);
    lemma_pow2_pos(149);
    assert((a + b) * one() >= 0) by (nonlinear_arith)
        requires
            a + b >= 0,
            one() > 0,
    ;
    if (a + b) * one() == 0 {
        lemma_nearest_zero(1);
    }
}

impl Scalar {
    /// The remainder of the division by `other`, with the sign of the number.
    #[verifier::opaque]
    pub open spec fn remainder(self, other: Scalar) -> Scalar {
        if self.nan() || other.nan() || self.infinite() || other.size() == 0 {
            Scalar { bits: NAN_BITS }
        } else if other.infinite() {
            self
        } else {
            rounded(self.negative(), self.size() % other.size(), 1)
        }
    }

    fn rem(self, other: Scalar) -> (r: Scalar)
        ensures
            r == self.remainder(other),
    {
        reveal(Scalar::remainder);
        if self.is_nan() || other.is_nan() || self.is_infinite() || other.is_zero() {
            return Scalar { bits: NAN_BITS };
        }
        if other.is_infinite() {
            return self;
        }
        let negative: bool = self.bits >= 0x8000_0000;
        let (sa, ea): (u32, u32) = self.unpack();
        let (sb, eb): (u32, u32) = other.unpack();
        proof {
            lemma_magnitude_sign(self.unsigned_bits());
            lemma_magnitude_sign(other.unsigned_bits());
        }
        if ea < eb {
            proof {
                lemma_smaller_exponent(sa as int, ea as nat, sb as int, eb as nat);
                vstd::arithmetic::div_mod::lemma_small_mod(
                    self.size() as nat,
                    other.size() as nat,
                );
                lemma_nearest_exact(self.unsigned_bits());
            }
            return self;
        }
        let mut rest: u32 = sa % sb;
        let mut left: u32 = ea - eb;
        let ghost pb = pow2(eb as nat) as int;
        proof {
            lemma2_to64();
            lemma_pow2_pos(eb as nat);
            vstd::arithmetic::div_mod::lemma_mod_twice(sa as int, sb as int);
            assert(sa * pow2(0) == sa) by (nonlinear_arith)
                requires
                    pow2(0) == 1,
            ;
        }
        while left > 0
            invariant
                0 < sb < 0x100_0000,
                rest < sb,
                left <= ea - eb,
                ea <= 253,
                rest == (sa * pow2((ea - eb - left) as nat)) % (sb as int),
            decreases left,
        {
            proof {
                let done: nat = (ea - eb - left) as nat;
                lemma_pow2_unfold(done + 1);
                let x: int = sa * pow2(done);
                assert(sa * (2 * pow2(done)) == 2 * x) by (nonlinear_arith)
                    requires
                        x == sa * pow2(done),
                ;
                vstd::arithmetic::div_mod::lemma_mul_mod_noop_right(2, x, sb as int);
            }
            rest = (2 * rest) % sb;
            left = left - 1;
        }
        proof {
            // Both sizes are multiples of the smaller power of two.
            let pd: int = pow2((ea - eb) as nat) as int;
            lemma_pow2_adds((ea - eb) as nat, eb as nat);
            let x: int = sa * pd;
            assert(sa * (pd * pb) == x * pb) by (nonlinear_arith)
                requires
                    x == sa * pd,
            ;
            lemma_scaled_remainder(x, sb as int, pb);
        }
        if rest == 0 {
            proof {
                assert(rest * pb == 0) by (nonlinear_arith)
                    requires
                        rest == 0,
                ;
                lemma_nearest_zero(1);
            }
            return put_sign(negative, 0);
        }
        let k: u32 = assemble(rest as u64, eb as i32, false);
        proof {
            let num: int = rest * pb;
            lemma_pow2_adds(eb as nat, 300);
            assert(1 * rest * (pb * pow2(300)) == num * pow2(300)) by (nonlinear_arith)
                requires
                    num == rest * pb,
            ;
            lemma_settled(k as int, rest as int, eb as int, false, num, 1);
        }
        put_sign(negative, k)
    }

    /// The least non-negative remainder: a negative one is raised by the
    /// modulus.
    pub open spec fn euclidean_remainder(self, other: Scalar) -> Scalar {
        let m = self.remainder(other);
        if m.below(Scalar { bits: 0 }) {
            m.sum(other.unsigned())
        } else {
            m
        }
    }

    pub fn rem_euclid(self, other: Scalar) -> (r: Scalar)
        ensures
            r == self.euclidean_remainder(other),
    {
        let m: Scalar = self.rem(other);
        if m.lt(Scalar { bits: 0 }) {
            m.plus(other.abs())
        } else {
            m
        }
    }
}

/// The remainder of two finite numbers is exact.
pub proof fn lemma_remainder_exact(x: Scalar, y: Scalar)
    requires
        x.finite(),
        y.finite(),
        y.size() > 0,
    ensures
        x.remainder(y).finite(),
        x.remainder(y).negative() == x.negative(),
        x.remainder(y).size() == x.size() % y.size(),
{
    reveal(Scalar::remainder);
    let (sa, ea) = lemma_unpacked(x);
    let (sb, eb) = lemma_unpacked(y);
    lemma_magnitude_sign(x.unsigned_bits());
    if ea < eb {
        lemma_smaller_exponent(sa, ea, sb, eb);
        vstd::arithmetic::div_mod::lemma_small_mod(x.size() as nat, y.size() as nat);
        lemma_nearest_exact(x.unsigned_bits());
    } else {
        let pd: int = pow2((ea - eb) as nat) as int;
        let pb: int = pow2(eb) as int;
        lemma_pow2_pos(eb);
        lemma_pow2_adds((ea - eb) as nat, eb);
        assert(sa * (pd * pb) == (sa * pd) * pb) by (nonlinear_arith);
        assert(sb > 0) by (nonlinear_arith)
            requires
                sb * pb > 0,
                pb > 0,
        ;
        lemma_scaled_remainder(sa * pd, sb, pb);
        vstd::arithmetic::div_mod::lemma_mod_bound(sa * pd, sb);
        let k: int = lemma_representable((sa * pd) % sb, eb);
        lemma_nearest_exact(k);
    }
}

/// Significand and exponent of a finite number.
proof fn lemma_unpacked(x: Scalar) -> (r: (int, nat))
    requires
        x.finite(),
    ensures
        x.size() == r.0 * pow2(r.1),
        0 <= r.0 < 0x100_0000,
        r.1 <= 253,
        r.1 > 0 ==> r.0 >= 0x80_0000,
{
    let m: int = x.unsigned_bits();
    lemma2_to64();
    if m < 0x80_0000 {
        assert(m * pow2(0) == m) by (nonlinear_arith)
            requires
                pow2(0) == 1,
        ;
        (m, 0)
    } else {
        (0x80_0000 + m % 0x80_0000, (m / 0x80_0000 - 1) as nat)
    }
}

/// The number with the smaller exponent is the smaller.
proof fn lemma_smaller_exponent(sa: int, ea: nat, sb: int, eb: nat)
    requires
        ea < eb,
        0 <= sa < 0x100_0000,
        sb >= 0x80_0000,
    ensures
        sa * pow2(ea) < sb * pow2(eb),
{
    lemma_pow2_unfold(eb);
    lemma_pow2_monotone(ea, (eb - 1) as nat);
    lemma_pow2_pos(ea);
    let pa: int = pow2(ea) as int;
    let pb: int = pow2(eb) as int;
    assert(sa * pa < sb * pb) by (nonlinear_arith)
        requires
            0 <= sa < 0x100_0000,
            sb >= 0x80_0000,
            pa > 0,
            pb >= 2 * pa,
    ;
}

proof fn lemma_scaled_remainder(x: int, y: int, c: int)
    requires
        y > 0,
        c > 0,
    ensures
        (x * c) % (y * c) == (x % y) * c,
{
    lemma_fundamental_div_mod(x, y);
    let q: int = x / y;
    let r: int = x % y;
    assert(x * c == q * (y * c) + r * c) by (nonlinear_arith)
        requires
            x == y * q + r,
    ;
    assert(0 <= r * c < y * c) by (nonlinear_arith)
        requires
            0 <= r < y,
            c > 0,
    ;
    vstd::arithmetic::div_mod::lemma_fundamental_div_mod_converse(x * c, y * c, q, r * c);
}

} // verus!
