//! Double-precision arithmetic: sum, difference, product, quotient and square
//! root, each the exact result rounded to the nearest number, ties to even, and
//! the passages from and to single precision.
use crate::arith::from_fine;
use crate::arith::rounded as single_rounded;
use crate::arith::signed as single_signed;
use crate::arith::NAN_BITS;
use crate::scalar::Scalar;
use crate::scalar::INFINITY_BITS;
use vstd::arithmetic::div_mod::lemma_fundamental_div_mod;
use vstd::arithmetic::power2::lemma2_to64;
use vstd::arithmetic::power2::lemma2_to64_rest;
use vstd::arithmetic::power2::lemma_pow2_adds;
use vstd::arithmetic::power2::lemma_pow2_pos;
use vstd::arithmetic::power2::lemma_pow2_strictly_increases;
use vstd::arithmetic::power2::lemma_pow2_unfold;
use vstd::arithmetic::power2::pow2;
use vstd::prelude::*;

verus! {

/// Encoding of positive infinity.
pub const DOUBLE_INFINITY_BITS: u64 = 0x7ff0_0000_0000_0000;

/// One, in units of 2^-1074.
pub open spec fn one() -> int {
    pow2(1074) as int
}

/// A binary64 number, held as its encoding.
#[derive(Clone, Copy, Debug, PartialEq, Eq, Structural)]
pub struct Double {
    pub bits: u64,
}

/// The size, in units of 2^-1074, of the number whose encoding without its sign
/// bit is `m`: a subnormal is its fraction, a normal number has the hidden bit
/// and is scaled by its exponent. Infinity takes the place after the largest
/// finite number.
pub open spec fn magnitude(m: int) -> int {
    if m < 0x10_0000_0000_0000 {
        m
    } else {
        (0x10_0000_0000_0000 + m % 0x10_0000_0000_0000) * pow2((m / 0x10_0000_0000_0000 - 1) as nat)
    }
}

impl Double {
    /// The encoding without its sign bit.
    pub open spec fn unsigned_bits(self) -> int {
        self.bits as int % 0x8000_0000_0000_0000
    }

    pub open spec fn negative(self) -> bool {
        self.bits >= 0x8000_0000_0000_0000
    }

    pub open spec fn nan(self) -> bool {
        self.unsigned_bits() > 0x7ff0_0000_0000_0000
    }

    /// The number in units of 2^-1074, in which every finite number is whole.
    pub open spec fn value(self) -> int {
        if self.negative() {
            -magnitude(self.unsigned_bits())
        } else {
            magnitude(self.unsigned_bits())
        }
    }

    /// The same number with the other sign.
    pub open spec fn negated(self) -> Double {
        Double {
            bits: if self.bits >= 0x8000_0000_0000_0000 {
                (self.bits - 0x8000_0000_0000_0000) as u64
            } else {
                (self.bits + 0x8000_0000_0000_0000) as u64
            },
        }
    }

    pub fn is_nan(self) -> (r: bool)
        ensures
            r == self.nan(),
    {
        self.bits % 0x8000_0000_0000_0000 > 0x7ff0_0000_0000_0000
    }

    pub fn neg(self) -> (r: Double)
        ensures
            r == self.negated(),
    {
        if self.bits >= 0x8000_0000_0000_0000 {
            Double { bits: self.bits - 0x8000_0000_0000_0000 }
        } else {
            Double { bits: self.bits + 0x8000_0000_0000_0000 }
        }
    }
}

/// A larger unsigned encoding is a larger number.
pub proof fn lemma_magnitude_increases(a: int, b: int)
    requires
        0 <= a < b,
    ensures
        magnitude(a) < magnitude(b),
{
    let ea: int = a / 0x10_0000_0000_0000;
    let eb: int = b / 0x10_0000_0000_0000;
    let fa: int = a % 0x10_0000_0000_0000;
    let fb: int = b % 0x10_0000_0000_0000;
    if b >= 0x10_0000_0000_0000 {
        let pb: int = pow2((eb - 1) as nat) as int;
        lemma_pow2_pos((eb - 1) as nat);
        assert((0x10_0000_0000_0000 + fb) * pb >= 0x10_0000_0000_0000 * pb) by (nonlinear_arith)
            requires
                fb >= 0,
                pb > 0,
        ;
        if a < 0x10_0000_0000_0000 {
            assert(0x10_0000_0000_0000 * pb >= 0x10_0000_0000_0000) by (nonlinear_arith)
                requires
                    pb > 0,
            ;
        } else {
            let pa: int = pow2((ea - 1) as nat) as int;
            lemma_pow2_pos((ea - 1) as nat);
            if ea == eb {
                assert((0x10_0000_0000_0000 + fa) * pa < (0x10_0000_0000_0000 + fb) * pa) by (nonlinear_arith)
                    requires
                        fa < fb,
                        pa > 0,
                ;
            } else {
                let gap: nat = (eb - ea - 1) as nat;
                lemma_pow2_adds(ea as nat, gap);
                lemma_pow2_pos(gap);
                lemma_pow2_unfold(ea as nat);
                let pg: int = pow2(gap) as int;
                assert(pb == 2 * pa * pg);
                assert(pb >= 2 * pa) by (nonlinear_arith)
                    requires
                        pb == 2 * pa * pg,
                        pg >= 1,
                        pa > 0,
                ;
                assert((0x10_0000_0000_0000 + fa) * pa < 0x10_0000_0000_0000 * pb) by (nonlinear_arith)
                    requires
                        fa < 0x10_0000_0000_0000,
                        pa > 0,
                        pb >= 2 * pa,
                ;
            }
        }
    }
}

/// A magnitude is never negative, and is zero only for the zero encoding.
pub proof fn lemma_magnitude_sign(m: int)
    requires
        0 <= m,
    ensures
        magnitude(m) >= 0,
        magnitude(m) == 0 <==> m == 0,
{
    if m > 0 {
        lemma_magnitude_increases(0, m);
    }
}

/// Encoding of the result of an operation that has none. The other encodings
/// of what is not a number are never produced.
pub const DOUBLE_NAN_BITS: u64 = 0x7ff8_0000_0000_0000;

/// The unsigned encoding `k` is nearest to `num / den`: that lies between the
/// midpoints to both neighbours, and on a midpoint only if `k` is even.
/// Infinity stands for the number after the largest.
pub open spec fn is_nearest(k: int, num: int, den: int) -> bool {
    &&& 0 <= k <= 0x7ff0_0000_0000_0000
    &&& k > 0 ==> {
        let low = (magnitude(k - 1) + magnitude(k)) * den;
        low <= 2 * num && (low == 2 * num ==> k % 2 == 0)
    }
    &&& k < 0x7ff0_0000_0000_0000 ==> {
        let high = (magnitude(k) + magnitude(k + 1)) * den;
        2 * num <= high && (2 * num == high ==> k % 2 == 0)
    }
}

/// The unsigned encoding nearest to `num / den`, in units of 2^-1074.
pub open spec fn nearest(num: int, den: int) -> int {
    choose|k: int| is_nearest(k, num, den)
}

/// A sign put before an unsigned encoding.
pub open spec fn signed(negative: bool, k: int) -> Double {
    Double {
        bits: if negative {
            (k + 0x8000_0000_0000_0000) as u64
        } else {
            k as u64
        },
    }
}

/// The number nearest to `num / den`, with the given sign.
pub open spec fn rounded(negative: bool, num: int, den: int) -> Double {
    signed(negative, nearest(num, den))
}

/// Nothing else is as near.
pub proof fn lemma_nearest_unique(a: int, b: int, num: int, den: int)
    requires
        den > 0,
        is_nearest(a, num, den),
        is_nearest(b, num, den),
    ensures
        a == b,
{
    if a < b {
        lemma_nearest_not_below(a, b, num, den);
    }
    if b < a {
        lemma_nearest_not_below(b, a, num, den);
    }
}

proof fn lemma_nearest_not_below(a: int, b: int, num: int, den: int)
    requires
        den > 0,
        a < b,
        is_nearest(a, num, den),
    ensures
        !is_nearest(b, num, den),
{
    let above: int = magnitude(a) + magnitude(a + 1);
    let under: int = magnitude(b - 1) + magnitude(b);
    if b > a + 1 {
        lemma_magnitude_increases(a, b - 1);
        lemma_magnitude_increases(a + 1, b);
        assert(above * den < under * den) by (nonlinear_arith)
            requires
                above < under,
                den > 0,
        ;
    }
}

/// `num / den` is not below the midpoint under `k`, nor on it if `k` is odd.
spec fn reaches(k: int, num: int, den: int) -> bool {
    let low = (magnitude(k - 1) + magnitude(k)) * den;
    k <= 0 || low < 2 * num || (low == 2 * num && k % 2 == 0)
}

proof fn lemma_nearest_below(k: int, num: int, den: int)
    requires
        den > 0,
        num >= 0,
        0 <= k <= 0x7ff0_0000_0000_0000,
        k < 0x7ff0_0000_0000_0000 ==> !reaches(k + 1, num, den),
    ensures
        is_nearest(nearest(num, den), num, den),
    decreases k,
{
    if reaches(k, num, den) {
        assert(is_nearest(k, num, den));
    } else {
        lemma_nearest_below(k - 1, num, den);
    }
}

/// Every quotient has a nearest number.
pub proof fn lemma_nearest_exists(num: int, den: int)
    requires
        den > 0,
        num >= 0,
    ensures
        is_nearest(nearest(num, den), num, den),
{
    lemma_nearest_below(0x7ff0_0000_0000_0000, num, den);
}

/// Rounding keeps the order.
pub proof fn lemma_nearest_monotone(a: int, b: int, den: int)
    requires
        den > 0,
        0 <= a <= b,
    ensures
        nearest(a, den) <= nearest(b, den),
{
    lemma_nearest_exists(a, den);
    lemma_nearest_exists(b, den);
    let ka: int = nearest(a, den);
    let kb: int = nearest(b, den);
    if ka > kb {
        let low: int = magnitude(ka - 1) + magnitude(ka);
        let high: int = magnitude(kb) + magnitude(kb + 1);
        if ka > kb + 1 {
            lemma_magnitude_increases(kb, ka - 1);
            lemma_magnitude_increases(kb + 1, ka);
            assert(high * den < low * den) by (nonlinear_arith)
                requires
                    high < low,
                    den > 0,
            ;
        }
    }
}

/// A number is nearest to itself.
pub proof fn lemma_nearest_exact(k: int)
    requires
        0 <= k <= 0x7ff0_0000_0000_0000,
    ensures
        nearest(magnitude(k), 1) == k,
{
    if k > 0 {
        lemma_magnitude_increases(k - 1, k);
    }
    lemma_magnitude_increases(k, k + 1);
    lemma_nearest_found(k, magnitude(k), 1);
}

/// A number is nearest to itself in a finer unit.
pub proof fn lemma_nearest_multiple(k: int, unit: int)
    requires
        0 <= k <= 0x7ff0_0000_0000_0000,
        unit > 0,
    ensures
        nearest(magnitude(k) * unit, unit) == k,
{
    let num: int = magnitude(k) * unit;
    if k > 0 {
        lemma_magnitude_increases(k - 1, k);
        assert((magnitude(k - 1) + magnitude(k)) * unit < 2 * num) by (nonlinear_arith)
            requires
                magnitude(k - 1) < magnitude(k),
                num == magnitude(k) * unit,
                unit > 0,
        ;
    }
    lemma_magnitude_increases(k, k + 1);
    assert(2 * num < (magnitude(k) + magnitude(k + 1)) * unit) by (nonlinear_arith)
        requires
            magnitude(k) < magnitude(k + 1),
            num == magnitude(k) * unit,
            unit > 0,
    ;
    lemma_nearest_found(k, num, unit);
}

/// The encoding that a rounding found is the nearest.
proof fn lemma_nearest_found(k: int, num: int, den: int)
    requires
        den > 0,
        is_nearest(k, num, den),
    ensures
        nearest(num, den) == k,
{
    lemma_nearest_unique(nearest(num, den), k, num, den);
}

impl Double {
    pub open spec fn infinite(self) -> bool {
        self.unsigned_bits() == 0x7ff0_0000_0000_0000
    }

    pub open spec fn finite(self) -> bool {
        self.unsigned_bits() < 0x7ff0_0000_0000_0000
    }

    /// The size of the number in units of 2^-1074.
    pub open spec fn size(self) -> int {
        magnitude(self.unsigned_bits())
    }

    fn is_infinite(self) -> (r: bool)
        ensures
            r == self.infinite(),
    {
        self.bits % 0x8000_0000_0000_0000 == DOUBLE_INFINITY_BITS
    }

    fn is_zero(self) -> (r: bool)
        ensures
            r == (self.size() == 0),
    {
        proof {
            lemma_magnitude_sign(self.unsigned_bits());
        }
        self.bits % 0x8000_0000_0000_0000 == 0
    }

    /// Significand and exponent: the size is `s * 2^e`.
    pub fn unpack(self) -> (r: (u64, u64))
        requires
            self.finite(),
        ensures
            self.size() == r.0 * pow2(r.1 as nat),
            r.0 < 0x20_0000_0000_0000,
            r.1 <= 2045,
            r.1 > 0 ==> r.0 >= 0x10_0000_0000_0000,
            r.0 == 0 <==> self.size() == 0,
    {
        let m: u64 = self.bits % 0x8000_0000_0000_0000;
        proof {
            lemma2_to64();
            lemma2_to64_rest();
            lemma_magnitude_sign(m as int);
            assert(m * pow2(0) == m) by (nonlinear_arith)
                requires
                    pow2(0) == 1,
            ;
        }
        if m < 0x10_0000_0000_0000 {
            (m, 0)
        } else {
            (0x10_0000_0000_0000 + m % 0x10_0000_0000_0000, m / 0x10_0000_0000_0000 - 1)
        }
    }
}

/// The number of bits of `p`.
fn bit_length(p: u128) -> (n: i32)
    requires
        p > 0,
    ensures
        1 <= n <= 128,
        pow2((n - 1) as nat) <= p < pow2(n as nat),
{
    let mut q: u128 = p;
    let mut n: i32 = 0;
    proof {
        lemma2_to64();
        lemma2_to64_rest();
        lemma_pow2_adds(64, 64);
        assert(q * pow2(0) == q && (q + 1) * pow2(0) == q + 1) by (nonlinear_arith)
            requires
                pow2(0) == 1,
        ;
    }
    while q > 1
        invariant
            0 <= n <= 127,
            0 < q <= p,
            q * pow2(n as nat) <= p,
            p < (q + 1) * pow2(n as nat),
            pow2(128) == 0x1_0000_0000_0000_0000_0000_0000_0000_0000,
        decreases q,
    {
        proof {
            let half: int = q as int / 2;
            let pn: int = pow2(n as nat) as int;
            lemma_pow2_pos(n as nat);
            lemma_pow2_unfold((n + 1) as nat);
            assert(half * (2 * pn) <= q * pn) by (nonlinear_arith)
                requires
                    2 * half <= q,
                    pn > 0,
            ;
            assert((q + 1) * pn <= (half + 1) * (2 * pn)) by (nonlinear_arith)
                requires
                    q + 1 <= 2 * (half + 1),
                    pn > 0,
            ;
            if n == 127 {
                lemma_pow2_unfold(128);
                assert(q * pn >= 2 * pn) by (nonlinear_arith)
                    requires
                        q >= 2,
                        pn > 0,
                ;
            }
        }
        q = q / 2;
        n = n + 1;
    }
    proof {
        lemma_pow2_unfold((n + 1) as nat);
        assert(1 * pow2(n as nat) == pow2(n as nat));
        assert(2 * pow2(n as nat) == pow2((n + 1) as nat));
    }
    n + 1
}

/// A power of two.
fn power(t: u32) -> (r: u128)
    requires
        t <= 126,
    ensures
        r == pow2(t as nat),
{
    proof {
        lemma2_to64();
        lemma2_to64_rest();
        lemma_pow2_adds(62, 64);
    }
    let mut r: u128 = 1;
    let mut k: u32 = 0;
    while k < t
        invariant
            k <= t <= 126,
            r == pow2(k as nat),
            pow2(126) == 0x4000_0000_0000_0000_0000_0000_0000_0000,
        decreases t - k,
    {
        proof {
            lemma_pow2_unfold((k + 1) as nat);
            lemma_pow2_monotone((k + 1) as nat, 126);
        }
        r = r * 2;
        k = k + 1;
    }
    r
}

/// The exact number lies from `p * 2^e` up to, but not at, `(p + 1) * 2^e`, and
/// is `p * 2^e` itself unless `sticky`; `k` is nearest to every such number.
/// The two sides are scaled by 2^2000, so that `e` may be negative.
spec fn settles(k: int, p: int, e: int, sticky: bool) -> bool {
    let u = pow2((e + 2000) as nat) as int;
    let c = pow2(2000) as int;
    &&& 0 <= k <= 0x7ff0_0000_0000_0000
    &&& k > 0 ==> {
        let low = (magnitude(k - 1) + magnitude(k)) * c;
        low <= 2 * p * u && (low == 2 * p * u && !sticky ==> k % 2 == 0)
    }
    &&& k < 0x7ff0_0000_0000_0000 ==> {
        let high = (magnitude(k) + magnitude(k + 1)) * c;
        if sticky {
            2 * (p + 1) * u <= high
        } else {
            2 * p * u <= high && (2 * p * u == high ==> k % 2 == 0)
        }
    }
}

/// The encoding with significand `q` and exponent `f`, and its successor.
proof fn lemma_encodings(q: int, f: nat)
    requires
        0 <= q < 0x20_0000_0000_0000,
        f > 0 ==> q >= 0x10_0000_0000_0000,
    ensures
        magnitude(f * 0x10_0000_0000_0000 + q) == q * pow2(f),
        magnitude(f * 0x10_0000_0000_0000 + q + 1) == (q + 1) * pow2(f),
{
    let k: int = f * 0x10_0000_0000_0000 + q;
    lemma2_to64();
    lemma2_to64_rest();
    if q >= 0x10_0000_0000_0000 {
        assert(k / 0x10_0000_0000_0000 == f + 1);
        assert(k % 0x10_0000_0000_0000 == q - 0x10_0000_0000_0000);
    }
    if q + 1 == 0x20_0000_0000_0000 {
        assert((k + 1) / 0x10_0000_0000_0000 == f + 2);
        assert((k + 1) % 0x10_0000_0000_0000 == 0);
        lemma_pow2_unfold(f + 1);
        assert(0x10_0000_0000_0000 * (2 * pow2(f)) == 0x20_0000_0000_0000 * pow2(f)) by (nonlinear_arith);
    } else if q + 1 >= 0x10_0000_0000_0000 {
        assert((k + 1) / 0x10_0000_0000_0000 == f + 1);
        assert((k + 1) % 0x10_0000_0000_0000 == q + 1 - 0x10_0000_0000_0000);
    }
}

/// Rounding `p * 2^e` to the significand `q` at exponent `f`, where `t = f - e`
/// bits are dropped: down below the half, up above it, to even on it.
proof fn lemma_settles(q: int, f: int, p: int, e: int, t: int, sticky: bool, up: bool)
    requires
        0 <= q < 0x20_0000_0000_0000,
        0 <= f <= 2045,
        f > 0 ==> q >= 0x10_0000_0000_0000,
        -1300 <= e,
        f == e + t,
        p >= 0,
        sticky ==> t >= 1,
        t >= 1 ==> q * pow2(t as nat) <= p && p + 1 <= (q + 1) * pow2(t as nat),
        t < 1 ==> q == p * pow2((-t) as nat) && !up,
        t >= 1 ==> (up <==> {
            let twice = 2 * (p - q * pow2(t as nat));
            twice > pow2(t as nat) || twice == pow2(t as nat) && (sticky || q % 2 == 1)
        }),
    ensures
        settles(
            f * 0x10_0000_0000_0000 + q + if up {
                1int
            } else {
                0
            },
            p,
            e,
            sticky,
        ),
{
    let k: int = f * 0x10_0000_0000_0000 + q;
    let u: int = pow2((e + 2000) as nat) as int;
    let c: int = pow2(2000) as int;
    let pf: int = pow2(f as nat) as int;
    lemma_encodings(q, f as nat);
    lemma_pow2_pos((e + 2000) as nat);
    lemma_pow2_pos(2000);
    lemma_pow2_pos(f as nat);
    lemma_pow2_adds(f as nat, 2000);
    if t >= 1 {
        let w: int = pow2(t as nat) as int;
        lemma_pow2_pos(t as nat);
        lemma_pow2_adds(t as nat, (e + 2000) as nat);
        lemma_pow2_unfold(t as nat);
        assert(pf * c == w * u);
        lemma_settles_dropped(k, q, p, u, c, pf, w, sticky, up);
    } else {
        let w: int = pow2((-t) as nat) as int;
        lemma_pow2_pos((-t) as nat);
        lemma_pow2_adds((-t) as nat, (f + 2000) as nat);
        assert(u == w * (pf * c));
        assert(p * (w * (pf * c)) == (p * w) * pf * c) by (nonlinear_arith);
        assert(2 * p * u == 2 * (q * pf) * c) by (nonlinear_arith)
            requires
                p * u == (p * w) * pf * c,
                q == p * w,
        ;
        if k > 0 {
            lemma_magnitude_increases(k - 1, k);
            assert((magnitude(k - 1) + q * pf) * c < 2 * (q * pf) * c) by (nonlinear_arith)
                requires
                    magnitude(k - 1) < q * pf,
                    c > 0,
            ;
        }
        assert(2 * (q * pf) * c < (q * pf + (q + 1) * pf) * c) by (nonlinear_arith)
            requires
                pf > 0,
                c > 0,
        ;
    }
}

proof fn lemma_settles_dropped(
    k: int,
    q: int,
    p: int,
    u: int,
    c: int,
    pf: int,
    w: int,
    sticky: bool,
    up: bool,
)
    requires
        0 <= k < 0x7ff0_0000_0000_0000,
        k % 2 == q % 2,
        0 <= q,
        0 <= p,
        u > 0,
        c > 0,
        pf > 0,
        w > 0,
        w % 2 == 0,
        pf * c == w * u,
        magnitude(k) == q * pf,
        magnitude(k + 1) == (q + 1) * pf,
        q * w <= p,
        p + 1 <= (q + 1) * w,
        up <==> (2 * (p - q * w) > w || 2 * (p - q * w) == w && (sticky || q % 2 == 1)),
    ensures
        ({
            let r = k + if up {
                1int
            } else {
                0
            };
            &&& r > 0 ==> {
                let low = (magnitude(r - 1) + magnitude(r)) * c;
                low <= 2 * p * u && (low == 2 * p * u && !sticky ==> r % 2 == 0)
            }
            &&& r < 0x7ff0_0000_0000_0000 ==> {
                let high = (magnitude(r) + magnitude(r + 1)) * c;
                if sticky {
                    2 * (p + 1) * u <= high
                } else {
                    2 * p * u <= high && (2 * p * u == high ==> r % 2 == 0)
                }
            }
        }),
{
    // The midpoint between the two candidates.
    let mid: int = (2 * q + 1) * w;
    assert((q * pf + (q + 1) * pf) * c == mid * u) by (nonlinear_arith)
        requires
            pf * c == w * u,
            mid == (2 * q + 1) * w,
    ;
    assert((q * pf) * c == (q * w) * u) by (nonlinear_arith)
        requires
            pf * c == w * u,
    ;
    assert(((q + 1) * pf) * c == ((q + 1) * w) * u) by (nonlinear_arith)
        requires
            pf * c == w * u,
    ;
    assert(mid == 2 * (q * w) + w) by (nonlinear_arith)
        requires
            mid == (2 * q + 1) * w,
    ;
    if up {
        assert(2 * p >= mid);
        assert(mid * u <= 2 * p * u) by (nonlinear_arith)
            requires
                2 * p >= mid,
                u > 0,
        ;
        if mid * u == 2 * p * u {
            assert(2 * p == mid) by (nonlinear_arith)
                requires
                    mid * u == 2 * p * u,
                    u > 0,
            ;
        }
        if k + 1 < 0x7ff0_0000_0000_0000 {
            lemma_magnitude_increases(k + 1, k + 2);
            let next: int = magnitude(k + 2);
            assert(((q + 1) * pf + next) * c > 2 * (((q + 1) * pf) * c)) by (nonlinear_arith)
                requires
                    next > (q + 1) * pf,
                    c > 0,
            ;
            assert(2 * (p + 1) * u <= 2 * (((q + 1) * w) * u)) by (nonlinear_arith)
                requires
                    p + 1 <= (q + 1) * w,
                    u > 0,
            ;
            assert(2 * p * u <= 2 * (p + 1) * u) by (nonlinear_arith)
                requires
                    u > 0,
            ;
        }
    } else {
        assert(2 * p <= mid);
        assert(2 * p * u <= mid * u) by (nonlinear_arith)
            requires
                2 * p <= mid,
                u > 0,
        ;
        if 2 * p * u == mid * u {
            assert(2 * p == mid) by (nonlinear_arith)
                requires
                    2 * p * u == mid * u,
                    u > 0,
            ;
        }
        if sticky {
            assert(2 * p < mid);
            assert(mid % 2 == 0) by (nonlinear_arith)
                requires
                    mid == 2 * (q * w) + w,
                    w % 2 == 0,
            ;
            assert(2 * (p + 1) <= mid);
            assert(2 * (p + 1) * u <= mid * u) by (nonlinear_arith)
                requires
                    2 * (p + 1) <= mid,
                    u > 0,
            ;
        }
        if k > 0 {
            lemma_magnitude_increases(k - 1, k);
            let prev: int = magnitude(k - 1);
            assert((prev + q * pf) * c < 2 * ((q * pf) * c)) by (nonlinear_arith)
                requires
                    prev < q * pf,
                    c > 0,
            ;
            assert(2 * ((q * w) * u) <= 2 * p * u) by (nonlinear_arith)
                requires
                    q * w <= p,
                    u > 0,
            ;
        }
    }
}

/// The quotient lies between two bounds that the dividend respects.
proof fn lemma_quotient_between(p: int, unit: int, low: int, high: int)
    requires
        unit > 0,
        low * unit <= p < high * unit,
    ensures
        low <= p / unit < high,
        p == (p / unit) * unit + p % unit,
        0 <= p % unit < unit,
{
    lemma_fundamental_div_mod(p, unit);
    let q: int = p / unit;
    let r: int = p % unit;
    assert(low <= q) by (nonlinear_arith)
        requires
            low * unit <= p,
            p == unit * q + r,
            r < unit,
            unit > 0,
    ;
    assert(q < high) by (nonlinear_arith)
        requires
            p < high * unit,
            p == unit * q + r,
            0 <= r,
            unit > 0,
    ;
    assert(unit * q == q * unit) by (nonlinear_arith);
}

proof fn lemma_pow2_monotone(a: nat, b: nat)
    requires
        a <= b,
    ensures
        pow2(a) <= pow2(b),
{
    if a < b {
        lemma_pow2_strictly_increases(a, b);
    }
}

/// A number of 2^2098 units or more is nearest to infinity.
proof fn lemma_settles_infinity(p: int, e: int, sticky: bool, n: int)
    requires
        1 <= n,
        pow2((n - 1) as nat) <= p,
        -1300 <= e,
        n + e >= 2099,
    ensures
        settles(0x7ff0_0000_0000_0000, p, e, sticky),
{
    let u: int = pow2((e + 2000) as nat) as int;
    let c: int = pow2(2000) as int;
    let top: int = magnitude(0x7ff0_0000_0000_0000);
    let prev: int = magnitude(0x7ff0_0000_0000_0000 - 1);
    lemma_magnitude_increases(0x7ff0_0000_0000_0000 - 1, 0x7ff0_0000_0000_0000);
    lemma2_to64();
    lemma2_to64_rest();
    lemma_pow2_adds(52, 2046);
    assert(top == pow2(2098));
    lemma_pow2_adds(2098, 2000);
    lemma_pow2_adds((n - 1) as nat, (e + 2000) as nat);
    lemma_pow2_monotone(4098, (n - 1 + e + 2000) as nat);
    lemma_pow2_pos(2000);
    lemma_pow2_pos((e + 2000) as nat);
    let lead: int = pow2((n - 1) as nat) as int;
    assert((prev + top) * c < 2 * (top * c)) by (nonlinear_arith)
        requires
            prev < top,
            c > 0,
    ;
    assert(2 * (lead * u) <= 2 * p * u) by (nonlinear_arith)
        requires
            lead <= p,
            u > 0,
    ;
}

/// Rounds `p * 2^e`, or with `sticky` anything above it and below
/// `(p + 1) * 2^e`, to an unsigned encoding.
fn assemble(p: u128, e: i32, sticky: bool) -> (k: u64)
    requires
        0 < p < 0x4000_0000_0000_0000_0000_0000_0000_0000,
        -1300 <= e <= 4200,
        sticky ==> p >= 0x40_0000_0000_0000,
    ensures
        settles(k as int, p as int, e as int, sticky),
{
    proof {
        lemma2_to64();
        lemma2_to64_rest();
        lemma_pow2_adds(62, 64);
    }
    let n: i32 = bit_length(p);
    proof {
        if n > 126 {
            lemma_pow2_monotone(126, (n - 1) as nat);
        }
        if n < 55 {
            lemma_pow2_monotone(n as nat, 54);
        }
    }
    let top: i32 = n + e - 53;
    let f: i32 = if top > 0 {
        top
    } else {
        0
    };
    if f >= 2046 {
        proof {
            lemma_settles_infinity(p as int, e as int, sticky, n as int);
        }
        return DOUBLE_INFINITY_BITS;
    }
    let t: i32 = f - e;
    if t < 1 {
        let back: u32 = (-t) as u32;
        proof {
            let w: int = pow2(back as nat) as int;
            lemma_pow2_pos(back as nat);
            lemma_pow2_adds(n as nat, back as nat);
            lemma_pow2_monotone((n + back) as nat, 53);
            assert(p * w < 0x20_0000_0000_0000) by (nonlinear_arith)
                requires
                    p < pow2(n as nat),
                    w > 0,
                    pow2(n as nat) * w <= 0x20_0000_0000_0000,
            ;
            if f > 0 {
                lemma_pow2_adds((n - 1) as nat, back as nat);
                assert(p * w >= 0x10_0000_0000_0000) by (nonlinear_arith)
                    requires
                        p >= pow2((n - 1) as nat),
                        w > 0,
                        pow2((n - 1) as nat) * w == 0x10_0000_0000_0000,
                ;
            }
            lemma_settles(p * w, f as int, p as int, e as int, t as int, sticky, false);
        }
        assert(back <= 52);
        let q: u128 = p * power(back);
        return f as u64 * 0x10_0000_0000_0000 + q as u64;
    }
    if t >= 127 {
        proof {
            lemma_pow2_unfold(127);
            lemma_pow2_monotone(127, t as nat);
            lemma_settles(0, f as int, p as int, e as int, t as int, sticky, false);
        }
        return 0;
    }
    let unit: u128 = power(t as u32);
    proof {
        lemma_pow2_monotone(t as nat, 126);
        lemma_pow2_pos(t as nat);
        lemma_pow2_adds(53, t as nat);
        lemma_pow2_monotone(n as nat, (53 + t) as nat);
        if f > 0 {
            lemma_pow2_adds(52, t as nat);
            lemma_quotient_between(p as int, unit as int, 0x10_0000_0000_0000, 0x20_0000_0000_0000);
        } else {
            lemma_quotient_between(p as int, unit as int, 0, 0x20_0000_0000_0000);
        }
    }
    let q: u128 = p / unit;
    let rest: u128 = p % unit;
    let up: bool = 2 * rest > unit || (2 * rest == unit && (sticky || q % 2 == 1));
    proof {
        assert((q + 1) * unit == q * unit + unit) by (nonlinear_arith);
        lemma_settles(q as int, f as int, p as int, e as int, t as int, sticky, up);
    }
    if up {
        f as u64 * 0x10_0000_0000_0000 + q as u64 + 1
    } else {
        f as u64 * 0x10_0000_0000_0000 + q as u64
    }
}

/// The rounding settles the number `num / den` that lies where it said.
proof fn lemma_settled(k: int, p: int, e: int, sticky: bool, num: int, den: int)
    requires
        settles(k, p, e, sticky),
        den > 0,
        sticky ==> den * p * pow2((e + 2000) as nat) < num * pow2(2000),
        sticky ==> num * pow2(2000) < den * (p + 1) * pow2((e + 2000) as nat),
        !sticky ==> den * p * pow2((e + 2000) as nat) == num * pow2(2000),
    ensures
        nearest(num, den) == k,
{
    let u: int = pow2((e + 2000) as nat) as int;
    let c: int = pow2(2000) as int;
    lemma_pow2_pos((e + 2000) as nat);
    lemma_pow2_pos(2000);
    let x: int = num * c;
    assert(den * p * u <= x);
    if k > 0 {
        let low: int = magnitude(k - 1) + magnitude(k);
        assert(low * den <= 2 * num) by (nonlinear_arith)
            requires
                low * c <= 2 * p * u,
                den * p * u <= num * c,
                den > 0,
                c > 0,
        {
            assert(low * c * den <= 2 * p * u * den);
            assert(2 * p * u * den == 2 * (den * p * u));
            assert(low * c * den == low * den * c);
        }
        if low * den == 2 * num {
            assert(low * c == 2 * p * u && !(den * p * u < num * c)) by (nonlinear_arith)
                requires
                    low * den == 2 * num,
                    low * c <= 2 * p * u,
                    den * p * u <= num * c,
                    den > 0,
                    c > 0,
            {
                assert(low * c * den == low * den * c);
                assert(low * c * den == 2 * (num * c));
                assert(2 * p * u * den == 2 * (den * p * u));
                assert(low * c * den <= 2 * p * u * den);
                assert(low * c * den >= 2 * p * u * den);
            }
        }
    }
    if k < 0x7ff0_0000_0000_0000 {
        let high: int = magnitude(k) + magnitude(k + 1);
        if sticky {
            assert(2 * num < high * den) by (nonlinear_arith)
                requires
                    2 * (p + 1) * u <= high * c,
                    num * c < den * (p + 1) * u,
                    den > 0,
                    c > 0,
            {
                assert(2 * (p + 1) * u * den <= high * c * den);
                assert(2 * (p + 1) * u * den == 2 * (den * (p + 1) * u));
                assert(high * c * den == high * den * c);
            }
        } else {
            assert(2 * num <= high * den) by (nonlinear_arith)
                requires
                    2 * p * u <= high * c,
                    num * c == den * p * u,
                    den > 0,
                    c > 0,
            {
                assert(2 * p * u * den <= high * c * den);
                assert(2 * p * u * den == 2 * (den * p * u));
                assert(high * c * den == high * den * c);
            }
            if 2 * num == high * den {
                assert(2 * p * u == high * c) by (nonlinear_arith)
                    requires
                        2 * num == high * den,
                        num * c == den * p * u,
                        den > 0,
                {
                    assert(2 * (num * c) == high * den * c);
                    assert(2 * p * u * den == 2 * (den * p * u));
                    assert(high * c * den == high * den * c);
                }
            }
        }
    }
    lemma_nearest_found(k, num, den);
}

/// Zero is nearest to zero.
pub proof fn lemma_nearest_zero(den: int)
    requires
        den > 0,
    ensures
        nearest(0, den) == 0,
{
    lemma_magnitude_increases(0, 1);
    assert((magnitude(0) + magnitude(1)) * den > 0) by (nonlinear_arith)
        requires
            den > 0,
            magnitude(0) == 0,
            magnitude(1) > 0,
    ;
    lemma_nearest_found(0, 0, den);
}

/// A sign put before an unsigned encoding.
fn put_sign(negative: bool, k: u64) -> (r: Double)
    requires
        k <= DOUBLE_INFINITY_BITS,
    ensures
        r == signed(negative, k as int),
{
    if negative {
        Double { bits: k + 0x8000_0000_0000_0000 }
    } else {
        Double { bits: k }
    }
}

impl Double {
    /// The product: what is not a number for one that is not, or for infinity
    /// times zero; else the exact product, rounded.
    #[verifier::opaque]
    pub open spec fn product(self, other: Double) -> Double {
        let negative = self.negative() != other.negative();
        if self.nan() || other.nan() {
            Double { bits: DOUBLE_NAN_BITS }
        } else if self.infinite() || other.infinite() {
            if self.size() == 0 || other.size() == 0 {
                Double { bits: DOUBLE_NAN_BITS }
            } else {
                signed(negative, 0x7ff0_0000_0000_0000)
            }
        } else {
            rounded(negative, self.size() * other.size(), one())
        }
    }

    pub fn times(self, other: Double) -> (r: Double)
        ensures
            r == self.product(other),
    {
        reveal(Double::product);
        if self.is_nan() || other.is_nan() {
            return Double { bits: DOUBLE_NAN_BITS };
        }
        let negative: bool = (self.bits >= 0x8000_0000_0000_0000) != (other.bits >= 0x8000_0000_0000_0000);
        if self.is_infinite() || other.is_infinite() {
            if self.is_zero() || other.is_zero() {
                return Double { bits: DOUBLE_NAN_BITS };
            }
            return put_sign(negative, DOUBLE_INFINITY_BITS);
        }
        let (sa, ea): (u64, u64) = self.unpack();
        let (sb, eb): (u64, u64) = other.unpack();
        proof {
            lemma_pow2_pos(1074);
        }
        if sa == 0 || sb == 0 {
            proof {
                assert(self.size() * other.size() == 0) by (nonlinear_arith)
                    requires
                        self.size() == 0 || other.size() == 0,
                ;
                lemma_nearest_zero(one());
            }
            return put_sign(negative, 0);
        }
        assert(0 < sa * sb < 0x20_0000_0000_0000 * 0x20_0000_0000_0000) by (nonlinear_arith)
            requires
                0 < sa < 0x20_0000_0000_0000,
                0 < sb < 0x20_0000_0000_0000,
        ;
        let p: u128 = sa as u128 * sb as u128;
        let e: i32 = ea as i32 + eb as i32 - 1074;
        let k: u64 = assemble(p, e, false);
        proof {
            let num: int = self.size() * other.size();
            let pa: int = pow2(ea as nat) as int;
            let pb: int = pow2(eb as nat) as int;
            let c: int = pow2(2000) as int;
            let u: int = pow2((e + 2000) as nat) as int;
            lemma_pow2_adds(ea as nat, eb as nat);
            lemma_pow2_adds((ea + eb) as nat, 2000);
            lemma_pow2_adds(1074, (e + 2000) as nat);
            assert(one() * p * u == num * c) by (nonlinear_arith)
                requires
                    num == (sa * pa) * (sb * pb),
                    p == sa * sb,
                    (pa * pb) * c == one() * u,
            ;
            lemma_settled(k as int, p as int, e as int, false, num, one());
        }
        put_sign(negative, k)
    }
}

/// The size of an integer.
pub open spec fn absolute(n: int) -> int {
    if n < 0 {
        -n
    } else {
        n
    }
}

/// A signed integer.
pub open spec fn with_sign(negative: bool, n: int) -> int {
    if negative {
        -n
    } else {
        n
    }
}

/// Where two exponents are far apart, the smaller number only disturbs the
/// bits below the larger.
proof fn lemma_far_tail(sa: int, ea: int, sb: int, eb: int)
    requires
        0x10_0000_0000_0000 <= sa < 0x20_0000_0000_0000,
        0 <= sb < 0x20_0000_0000_0000,
        0 <= eb,
        ea >= eb + 65,
    ensures
        sa * pow2(ea as nat) == (sa * 4096) * pow2((ea - 12) as nat),
        0 <= sb * pow2(eb as nat) < pow2((ea - 12) as nat),
        sb > 0 ==> sb * pow2(eb as nat) > 0,
        pow2((ea - 12) as nat) * pow2(2000) == pow2((ea - 12 + 2000) as nat),
        pow2(2000) > 0,
{
    lemma2_to64();
    lemma2_to64_rest();
    lemma_pow2_adds(12, (ea - 12) as nat);
    lemma_pow2_adds(53, eb as nat);
    lemma_pow2_monotone((53 + eb) as nat, (ea - 12) as nat);
    lemma_pow2_pos(eb as nat);
    lemma_pow2_pos(2000);
    lemma_pow2_adds((ea - 12) as nat, 2000);
    let pe: int = pow2((ea - 12) as nat) as int;
    let pb: int = pow2(eb as nat) as int;
    assert(sa * (4096 * pe) == (sa * 4096) * pe) by (nonlinear_arith);
    assert(0 <= sb * pb < 0x20_0000_0000_0000 * pb) by (nonlinear_arith)
        requires
            0 <= sb < 0x20_0000_0000_0000,
            pb > 0,
    ;
    if sb > 0 {
        assert(sb * pb > 0) by (nonlinear_arith)
            requires
                sb > 0,
                pb > 0,
        ;
    }
}

/// The sign and the rounded size of a sum that is not zero; `None` for zero.
/// The first number has the larger exponent.
fn add_sizes(na: bool, sa: u64, ea: u64, nb: bool, sb: u64, eb: u64) -> (r: Option<(bool, u64)>)
    requires
        sa < 0x20_0000_0000_0000,
        sb < 0x20_0000_0000_0000,
        eb <= ea <= 2045,
        ea > 0 ==> sa >= 0x10_0000_0000_0000,
    ensures
        ({
            let total = with_sign(na, sa * pow2(ea as nat)) + with_sign(nb, sb * pow2(eb as nat));
            match r {
                None => total == 0,
                Some((negative, k)) => total != 0 && negative == (total < 0) && k == nearest(
                    absolute(total),
                    1,
                ) && k <= DOUBLE_INFINITY_BITS,
            }
        }),
{
    let d: u64 = ea - eb;
    let ghost va = sa * pow2(ea as nat);
    let ghost vb = sb * pow2(eb as nat);
    let ghost total = with_sign(na, va) + with_sign(nb, vb);
    if d <= 64 {
        proof {
            lemma2_to64();
            lemma2_to64_rest();
            lemma_pow2_monotone(d as nat, 64);
            lemma_pow2_pos(d as nat);
            assert(0 <= sa * pow2(d as nat) <= 0x20_0000_0000_0000 * 0x1_0000_0000_0000_0000) by (nonlinear_arith)
                requires
                    0 <= sa < 0x20_0000_0000_0000,
                    0 < pow2(d as nat) <= 0x1_0000_0000_0000_0000,
            ;
        }
        let wide: i128 = (sa as u128 * power(d as u32)) as i128;
        let a: i128 = if na {
            -wide
        } else {
            wide
        };
        let b: i128 = if nb {
            -(sb as i128)
        } else {
            sb as i128
        };
        let sum: i128 = a + b;
        proof {
            let pd: int = pow2(d as nat) as int;
            let pb: int = pow2(eb as nat) as int;
            lemma_pow2_adds(d as nat, eb as nat);
            lemma_pow2_pos(eb as nat);
            assert(sa * (pd * pb) == wide * pb) by (nonlinear_arith)
                requires
                    wide == sa * pd,
            ;
            assert(total == sum * pb) by (nonlinear_arith)
                requires
                    total == with_sign(na, wide * pb) + with_sign(nb, sb * pb),
                    sum == with_sign(na, wide as int) + with_sign(nb, sb as int),
            ;
            assert((sum == 0 <==> total == 0) && (sum < 0 <==> total < 0)) by (nonlinear_arith)
                requires
                    total == sum * pb,
                    pb > 0,
            ;
        }
        if sum == 0 {
            return None;
        }
        let p: u128 = if sum < 0 {
            (-sum) as u128
        } else {
            sum as u128
        };
        let k: u64 = assemble(p, eb as i32, false);
        proof {
            let pb: int = pow2(eb as nat) as int;
            let num: int = absolute(total);
            lemma_pow2_adds(eb as nat, 2000);
            assert(num == p * pb) by (nonlinear_arith)
                requires
                    total == sum * pb,
                    num == absolute(total),
                    p == absolute(sum as int),
                    pb > 0,
            ;
            assert(1 * p * (pb * pow2(2000)) == num * pow2(2000)) by (nonlinear_arith)
                requires
                    num == p * pb,
            ;
            lemma_settled(k as int, p as int, eb as int, false, num, 1);
        }
        return Some((sum < 0, k));
    }
    proof {
        lemma_far_tail(sa as int, ea as int, sb as int, eb as int);
    }
    let p: u128 = sa as u128 * 4096;
    let e: i32 = ea as i32 - 12;
    let ghost pe = pow2((ea - 12) as nat) as int;
    let ghost c = pow2(2000) as int;
    proof {
        assert(p * pe > vb) by (nonlinear_arith)
            requires
                p >= 1,
                pe > vb,
                vb >= 0,
        ;
    }
    if sb == 0 {
        let k: u64 = assemble(p, e, false);
        proof {
            assert(vb == 0) by (nonlinear_arith)
                requires
                    vb == sb * pow2(eb as nat),
                    sb == 0,
            ;
            assert(1 * p * (pe * c) == (p * pe) * c) by (nonlinear_arith);
            lemma_settled(k as int, p as int, e as int, false, absolute(total), 1);
        }
        return Some((na, k));
    }
    if na == nb {
        let k: u64 = assemble(p, e, true);
        proof {
            let num: int = absolute(total);
            assert(num == p * pe + vb);
            assert(1 * p * (pe * c) < num * c && num * c < 1 * (p + 1) * (pe * c)) by (
            nonlinear_arith)
                requires
                    num == p * pe + vb,
                    0 < vb < pe,
                    c > 0,
            ;
            lemma_settled(k as int, p as int, e as int, true, num, 1);
        }
        Some((na, k))
    } else {
        let k: u64 = assemble(p - 1, e, true);
        proof {
            let num: int = absolute(total);
            let below: int = p - 1;
            assert(num == p * pe - vb);
            assert(1 * below * (pe * c) < num * c && num * c < 1 * (below + 1) * (pe * c)) by (
            nonlinear_arith)
                requires
                    num == p * pe - vb,
                    below == p - 1,
                    0 < vb < pe,
                    c > 0,
            ;
            lemma_settled(k as int, below, e as int, true, num, 1);
        }
        Some((na, k))
    }
}

impl Double {
    /// The sum: what is not a number for one that is not, or for infinities of
    /// two signs; else the exact sum, rounded. A sum of zero is positive,
    /// unless both numbers are negative zero.
    #[verifier::opaque]
    pub open spec fn sum(self, other: Double) -> Double {
        let total = self.value() + other.value();
        if self.nan() || other.nan() {
            Double { bits: DOUBLE_NAN_BITS }
        } else if self.infinite() && other.infinite() && self.negative() != other.negative() {
            Double { bits: DOUBLE_NAN_BITS }
        } else if self.infinite() {
            self
        } else if other.infinite() {
            other
        } else if total == 0 {
            signed(self.negative() && other.negative(), 0)
        } else {
            rounded(total < 0, absolute(total), 1)
        }
    }

    /// The difference: the sum with the negated number.
    #[verifier::opaque]
    pub open spec fn difference(self, other: Double) -> Double {
        self.sum(other.negated())
    }

    pub fn plus(self, other: Double) -> (r: Double)
        ensures
            r == self.sum(other),
    {
        reveal(Double::sum);
        if self.is_nan() || other.is_nan() {
            return Double { bits: DOUBLE_NAN_BITS };
        }
        let na: bool = self.bits >= 0x8000_0000_0000_0000;
        let nb: bool = other.bits >= 0x8000_0000_0000_0000;
        if self.is_infinite() {
            if other.is_infinite() && na != nb {
                return Double { bits: DOUBLE_NAN_BITS };
            }
            return self;
        }
        if other.is_infinite() {
            return other;
        }
        let (sa, ea): (u64, u64) = self.unpack();
        let (sb, eb): (u64, u64) = other.unpack();
        let found: Option<(bool, u64)> = if ea >= eb {
            add_sizes(na, sa, ea, nb, sb, eb)
        } else {
            add_sizes(nb, sb, eb, na, sa, ea)
        };
        match found {
            Some((negative, k)) => put_sign(negative, k),
            None => put_sign(na && nb, 0),
        }
    }

    pub fn minus(self, other: Double) -> (r: Double)
        ensures
            r == self.difference(other),
    {
        reveal(Double::difference);
        self.plus(other.neg())
    }
}

/// Doubles a significand until it has 53 bits. The exponent is 52 too large,
/// so that it is never negative.
fn normalise(s: u64, e: u64) -> (r: (u64, u64))
    requires
        0 < s < 0x20_0000_0000_0000,
        e <= 2045,
    ensures
        0x10_0000_0000_0000 <= r.0 < 0x20_0000_0000_0000,
        r.1 <= 2097,
        r.0 * pow2(r.1 as nat) == (s * pow2(e as nat)) * pow2(52),
{
    let mut significand: u64 = s;
    let mut exponent: u64 = e + 52;
    proof {
        lemma2_to64();
        lemma2_to64_rest();
        lemma_pow2_adds(e as nat, 52);
        let pe: int = pow2(e as nat) as int;
        let p23: int = pow2(52) as int;
        assert(s * (pe * p23) == (s * pe) * p23) by (nonlinear_arith);
    }
    while significand < 0x10_0000_0000_0000
        invariant
            0 < significand < 0x20_0000_0000_0000,
            e <= exponent <= e + 52,
            e <= 2045,
            significand >= pow2((e + 52 - exponent) as nat),
            pow2(52) == 0x10_0000_0000_0000,
            significand * pow2(exponent as nat) == (s * pow2(e as nat)) * pow2(52),
        decreases 0x20_0000_0000_0000 - significand,
    {
        proof {
            if exponent == e {
                assert(e + 52 - exponent == 52);
            }
            let half: int = pow2((exponent - 1) as nat) as int;
            lemma_pow2_unfold(exponent as nat);
            lemma_pow2_unfold((e + 53 - exponent) as nat);
            assert(significand * (2 * half) == (2 * significand) * half) by (nonlinear_arith);
        }
        significand = significand * 2;
        exponent = exponent - 1;
    }
    (significand, exponent)
}

/// The quotient of two normalised significands brackets the exact quotient.
proof fn lemma_quotient_settled(
    k: int,
    q: int,
    rest: int,
    sa: int,
    ea: int,
    sb: int,
    eb: int,
    size_a: int,
    size_b: int,
)
    requires
        0 <= ea <= 2097,
        0 <= eb <= 2097,
        sa >= 0,
        sb > 0,
        size_b > 0,
        sa * pow2(ea as nat) == size_a * pow2(52),
        sb * pow2(eb as nat) == size_b * pow2(52),
        sa * 0x1000_0000_0000_0000 == q * sb + rest,
        0 <= rest < sb,
        settles(k, q, ea - eb + 1014, rest != 0),
    ensures
        nearest(size_a * one(), size_b) == k,
{
    let e: int = ea - eb + 1014;
    let num: int = size_a * one();
    let den: int = size_b;
    let u: int = pow2((e + 2000) as nat) as int;
    let c: int = pow2(2000) as int;
    let g: int = pow2((ea + 3014) as nat) as int;
    let p23: int = pow2(52) as int;
    lemma2_to64();
    lemma2_to64_rest();
    lemma_pow2_pos(52);
    lemma_pow2_pos((ea + 3014) as nat);
    lemma_pow2_adds(eb as nat, (e + 2000) as nat);
    lemma_pow2_adds(ea as nat, 3074);
    lemma_pow2_adds(1074, 2000);
    lemma_pow2_adds(60, (ea + 3014) as nat);
    let pa: int = pow2(ea as nat) as int;
    let pb: int = pow2(eb as nat) as int;
    // Both sides, multiplied by 2^52, are multiples of 2^(ea + 3014).
    assert(p23 * (num * c) == (q * sb + rest) * g) by (nonlinear_arith)
        requires
            num == size_a * one(),
            sa * pa == size_a * p23,
            pa * (one() * c) == 0x1000_0000_0000_0000 * g,
            sa * 0x1000_0000_0000_0000 == q * sb + rest,
    {
        assert(p23 * (size_a * one() * c) == (size_a * p23) * (one() * c));
        assert((sa * pa) * (one() * c) == sa * (pa * (one() * c)));
        assert(sa * (0x1000_0000_0000_0000 * g) == (sa * 0x1000_0000_0000_0000) * g);
    }
    assert(p23 * (den * q * u) == (q * sb) * g) by (nonlinear_arith)
        requires
            den == size_b,
            sb * pb == size_b * p23,
            pb * u == g,
    {
        assert(p23 * (size_b * q * u) == (size_b * p23) * q * u);
        assert((sb * pb) * q * u == (q * sb) * (pb * u));
    }
    assert(p23 * (den * (q + 1) * u) == (q * sb + sb) * g) by (nonlinear_arith)
        requires
            den == size_b,
            sb * pb == size_b * p23,
            pb * u == g,
    {
        assert(p23 * (size_b * (q + 1) * u) == (size_b * p23) * (q + 1) * u);
        assert((sb * pb) * (q + 1) * u == ((q + 1) * sb) * (pb * u));
    }
    if rest != 0 {
        assert(den * q * u < num * c && num * c < den * (q + 1) * u) by (nonlinear_arith)
            requires
                p23 * (num * c) == (q * sb + rest) * g,
                p23 * (den * q * u) == (q * sb) * g,
                p23 * (den * (q + 1) * u) == (q * sb + sb) * g,
                0 < rest < sb,
                g > 0,
                p23 > 0,
        {
            assert((q * sb) * g < (q * sb + rest) * g);
            assert((q * sb + rest) * g < (q * sb + sb) * g);
        }
    } else {
        assert(den * q * u == num * c) by (nonlinear_arith)
            requires
                p23 * (num * c) == p23 * (den * q * u),
                p23 > 0,
        ;
    }
    lemma_settled(k, q, e, rest != 0, num, den);
}

impl Double {
    /// The quotient: what is not a number for one that is not, for infinity
    /// over infinity and for zero over zero; infinite for infinity over a
    /// number and for a number over zero, zero for a number over infinity;
    /// else the exact quotient, rounded.
    #[verifier::opaque]
    pub open spec fn quotient(self, other: Double) -> Double {
        let negative = self.negative() != other.negative();
        if self.nan() || other.nan() {
            Double { bits: DOUBLE_NAN_BITS }
        } else if self.infinite() && other.infinite() || self.size() == 0 && other.size() == 0 {
            Double { bits: DOUBLE_NAN_BITS }
        } else if self.infinite() || other.size() == 0 {
            signed(negative, 0x7ff0_0000_0000_0000)
        } else if other.infinite() {
            signed(negative, 0)
        } else {
            rounded(negative, self.size() * one(), other.size())
        }
    }

    pub fn over(self, other: Double) -> (r: Double)
        ensures
            r == self.quotient(other),
    {
        reveal(Double::quotient);
        if self.is_nan() || other.is_nan() {
            return Double { bits: DOUBLE_NAN_BITS };
        }
        let negative: bool = (self.bits >= 0x8000_0000_0000_0000) != (other.bits >= 0x8000_0000_0000_0000);
        if (self.is_infinite() && other.is_infinite()) || (self.is_zero() && other.is_zero()) {
            return Double { bits: DOUBLE_NAN_BITS };
        }
        if self.is_infinite() || other.is_zero() {
            return put_sign(negative, DOUBLE_INFINITY_BITS);
        }
        if other.is_infinite() {
            return put_sign(negative, 0);
        }
        let (ra, xa): (u64, u64) = self.unpack();
        let (rb, xb): (u64, u64) = other.unpack();
        proof {
            lemma_magnitude_sign(other.unsigned_bits());
        }
        if ra == 0 {
            proof {
                assert(self.size() * one() == 0) by (nonlinear_arith)
                    requires
                        self.size() == 0,
                ;
                lemma_nearest_zero(other.size());
            }
            return put_sign(negative, 0);
        }
        let (sa, ea): (u64, u64) = normalise(ra, xa);
        let (sb, eb): (u64, u64) = normalise(rb, xb);
        let wide: u128 = sa as u128 * 0x1000_0000_0000_0000;
        proof {
            assert(0x800_0000_0000_0000 * sb <= wide < 0x4000_0000_0000_0000 * sb);
            lemma_quotient_between(wide as int, sb as int, 0x800_0000_0000_0000, 0x4000_0000_0000_0000);
        }
        let q: u128 = wide / sb as u128;
        let rest: u128 = wide % sb as u128;
        let e: i32 = ea as i32 - eb as i32 + 1014;
        let k: u64 = assemble(q, e, rest != 0);
        proof {
            lemma_quotient_settled(
                k as int,
                q as int,
                rest as int,
                sa as int,
                ea as int,
                sb as int,
                eb as int,
                self.size(),
                other.size(),
            );
        }
        put_sign(negative, k)
    }
}

/// The unsigned encoding `k` is nearest to the square root of `square`, in
/// units of 2^-1074 and of 2^-2148: twice the root lies between the sums with
/// both neighbours, and on such a sum only if `k` is even.
pub open spec fn is_nearest_root(k: int, square: int) -> bool {
    &&& 0 <= k <= 0x7ff0_0000_0000_0000
    &&& k > 0 ==> {
        let low = magnitude(k - 1) + magnitude(k);
        low * low <= 4 * square && (low * low == 4 * square ==> k % 2 == 0)
    }
    &&& k < 0x7ff0_0000_0000_0000 ==> {
        let high = magnitude(k) + magnitude(k + 1);
        4 * square <= high * high && (4 * square == high * high ==> k % 2 == 0)
    }
}

pub open spec fn nearest_root(square: int) -> int {
    choose|k: int| is_nearest_root(k, square)
}

/// Nothing else is as near.
pub proof fn lemma_nearest_root_unique(a: int, b: int, square: int)
    requires
        is_nearest_root(a, square),
        is_nearest_root(b, square),
    ensures
        a == b,
{
    if a < b {
        lemma_nearest_root_not_below(a, b, square);
    }
    if b < a {
        lemma_nearest_root_not_below(b, a, square);
    }
}

proof fn lemma_nearest_root_not_below(a: int, b: int, square: int)
    requires
        a < b,
        is_nearest_root(a, square),
    ensures
        !is_nearest_root(b, square),
{
    let above: int = magnitude(a) + magnitude(a + 1);
    let under: int = magnitude(b - 1) + magnitude(b);
    lemma_magnitude_sign(a);
    lemma_magnitude_sign(a + 1);
    if b > a + 1 {
        lemma_magnitude_increases(a, b - 1);
        lemma_magnitude_increases(a + 1, b);
        assert(above * above < under * under) by (nonlinear_arith)
            requires
                0 <= above < under,
        ;
    }
}

/// Twice the root is not below the sum under `k`, nor on it if `k` is odd.
spec fn root_reaches(k: int, square: int) -> bool {
    let low = magnitude(k - 1) + magnitude(k);
    k <= 0 || low * low < 4 * square || (low * low == 4 * square && k % 2 == 0)
}

proof fn lemma_nearest_root_below(k: int, square: int)
    requires
        0 <= k <= 0x7ff0_0000_0000_0000,
        k < 0x7ff0_0000_0000_0000 ==> !root_reaches(k + 1, square),
    ensures
        is_nearest_root(nearest_root(square), square),
    decreases k,
{
    if root_reaches(k, square) {
        assert(is_nearest_root(k, square));
    } else {
        lemma_nearest_root_below(k - 1, square);
    }
}

/// Every square has a nearest root.
pub proof fn lemma_nearest_root_exists(square: int)
    ensures
        is_nearest_root(nearest_root(square), square),
{
    lemma_nearest_root_below(0x7ff0_0000_0000_0000, square);
}

/// The integer square root of a number below 2^116.
fn integer_root(n: u128) -> (r: u128)
    requires
        n < 0x10_0000_0000_0000_0000_0000_0000_0000,
    ensures
        r * r <= n < (r + 1) * (r + 1),
        r < 0x400_0000_0000_0000,
{
    let mut low: u128 = 0;
    let mut high: u128 = 0x400_0000_0000_0000;
    while low + 1 < high
        invariant
            low < high <= 0x400_0000_0000_0000,
            low * low <= n < high * high,
        decreases high - low,
    {
        let mid: u128 = (low + high) / 2;
        assert(mid * mid <= 0x400_0000_0000_0000 * 0x400_0000_0000_0000) by (nonlinear_arith)
            requires
                0 <= mid <= 0x400_0000_0000_0000,
        ;
        if mid * mid <= n {
            low = mid;
        } else {
            high = mid;
        }
    }
    low
}

/// The integer root of a scaled significand brackets the exact root.
proof fn lemma_root_settled(k: int, r: int, wide: int, e: int, square: int)
    requires
        r > 0,
        r * r <= wide < (r + 1) * (r + 1),
        0 <= e,
        square == wide * pow2((2 * e) as nat),
        settles(k, r, e, r * r != wide),
    ensures
        nearest_root(square) == k,
{
    let u: int = pow2((e + 2000) as nat) as int;
    let c: int = pow2(2000) as int;
    lemma_pow2_pos((e + 2000) as nat);
    lemma_pow2_pos(2000);
    lemma_pow2_adds((e + 2000) as nat, (e + 2000) as nat);
    lemma_pow2_adds((2 * e) as nat, 4000);
    lemma_pow2_adds(2000, 2000);
    assert(wide * (u * u) == square * (c * c)) by (nonlinear_arith)
        requires
            square == wide * pow2((2 * e) as nat),
            u * u == pow2((2 * e) as nat) * (c * c),
    ;
    if k > 0 {
        let low: int = magnitude(k - 1) + magnitude(k);
        lemma_magnitude_sign(k - 1);
        lemma_magnitude_sign(k);
        lemma_root_low(low, r, wide, u, c, square);
    }
    if k < 0x7ff0_0000_0000_0000 {
        let high: int = magnitude(k) + magnitude(k + 1);
        lemma_magnitude_sign(k);
        lemma_magnitude_sign(k + 1);
        if r * r != wide {
            lemma_root_high(high, r, wide, u, c, square);
        } else {
            lemma_root_exact(high, r, u, c, square);
        }
    }
    assert(is_nearest_root(k, square));
    lemma_nearest_root_unique(nearest_root(square), k, square);
}

proof fn lemma_root_low(low: int, r: int, wide: int, u: int, c: int, square: int)
    requires
        low >= 0,
        r > 0,
        u > 0,
        c > 0,
        low * c <= 2 * r * u,
        r * r <= wide,
        wide * (u * u) == square * (c * c),
    ensures
        low * low <= 4 * square,
        low * low == 4 * square ==> low * c == 2 * r * u && r * r == wide,
{
    let lc: int = low * c;
    let ru: int = 2 * r * u;
    let cc: int = c * c;
    let uu: int = u * u;
    assert(0 <= lc) by (nonlinear_arith)
        requires
            low >= 0,
            c > 0,
            lc == low * c,
    ;
    assert(lc * lc <= ru * ru) by (nonlinear_arith)
        requires
            0 <= lc <= ru,
    ;
    assert(lc * lc == (low * low) * cc) by (nonlinear_arith)
        requires
            lc == low * c,
            cc == c * c,
    ;
    assert(ru * ru == 4 * ((r * r) * uu)) by (nonlinear_arith)
        requires
            ru == 2 * r * u,
            uu == u * u,
    ;
    assert(cc > 0 && uu > 0) by (nonlinear_arith)
        requires
            c > 0,
            u > 0,
            cc == c * c,
            uu == u * u,
    ;
    assert((r * r) * uu <= wide * uu) by (nonlinear_arith)
        requires
            r * r <= wide,
            uu > 0,
    ;
    assert(low * low <= 4 * square) by (nonlinear_arith)
        requires
            (low * low) * cc <= 4 * (square * cc),
            cc > 0,
    ;
    if low * low == 4 * square {
        assert(lc * lc == 4 * (square * cc)) by (nonlinear_arith)
            requires
                lc * lc == (low * low) * cc,
                low * low == 4 * square,
        ;
        assert(lc == ru) by (nonlinear_arith)
            requires
                lc * lc == ru * ru,
                0 <= lc <= ru,
        ;
        assert(r * r == wide) by (nonlinear_arith)
            requires
                (r * r) * uu == wide * uu,
                uu > 0,
        ;
    }
}

proof fn lemma_root_high(high: int, r: int, wide: int, u: int, c: int, square: int)
    requires
        high >= 0,
        r > 0,
        u > 0,
        c > 0,
        2 * (r + 1) * u <= high * c,
        wide < (r + 1) * (r + 1),
        wide * (u * u) == square * (c * c),
    ensures
        4 * square < high * high,
{
    let hc: int = high * c;
    let ru: int = 2 * (r + 1) * u;
    let cc: int = c * c;
    let uu: int = u * u;
    assert(0 <= ru) by (nonlinear_arith)
        requires
            ru == 2 * (r + 1) * u,
            r > 0,
            u > 0,
    ;
    assert(ru * ru <= hc * hc) by (nonlinear_arith)
        requires
            0 <= ru <= hc,
    ;
    assert(hc * hc == (high * high) * cc) by (nonlinear_arith)
        requires
            hc == high * c,
            cc == c * c,
    ;
    assert(ru * ru == 4 * (((r + 1) * (r + 1)) * uu)) by (nonlinear_arith)
        requires
            ru == 2 * (r + 1) * u,
            uu == u * u,
    ;
    assert(cc > 0 && uu > 0) by (nonlinear_arith)
        requires
            c > 0,
            u > 0,
            cc == c * c,
            uu == u * u,
    ;
    assert(wide * uu < ((r + 1) * (r + 1)) * uu) by (nonlinear_arith)
        requires
            wide < (r + 1) * (r + 1),
            uu > 0,
    ;
    assert(4 * square < high * high) by (nonlinear_arith)
        requires
            4 * (square * cc) < (high * high) * cc,
            cc > 0,
    ;
}

proof fn lemma_root_exact(high: int, r: int, u: int, c: int, square: int)
    requires
        high >= 0,
        r > 0,
        u > 0,
        c > 0,
        2 * r * u <= high * c,
        (r * r) * (u * u) == square * (c * c),
    ensures
        4 * square <= high * high,
        4 * square == high * high ==> 2 * r * u == high * c,
{
    let hc: int = high * c;
    let ru: int = 2 * r * u;
    let cc: int = c * c;
    assert(0 <= ru) by (nonlinear_arith)
        requires
            ru == 2 * r * u,
            r > 0,
            u > 0,
    ;
    assert(ru * ru <= hc * hc) by (nonlinear_arith)
        requires
            0 <= ru <= hc,
    ;
    assert(hc * hc == (high * high) * cc) by (nonlinear_arith)
        requires
            hc == high * c,
            cc == c * c,
    ;
    assert(ru * ru == 4 * ((r * r) * (u * u))) by (nonlinear_arith)
        requires
            ru == 2 * r * u,
    ;
    assert(cc > 0) by (nonlinear_arith)
        requires
            c > 0,
            cc == c * c,
    ;
    assert(4 * square <= high * high) by (nonlinear_arith)
        requires
            4 * (square * cc) <= (high * high) * cc,
            cc > 0,
    ;
    if 4 * square == high * high {
        assert(ru * ru == hc * hc) by (nonlinear_arith)
            requires
                ru * ru == 4 * (square * cc),
                hc * hc == (high * high) * cc,
                4 * square == high * high,
        ;
        assert(ru == hc) by (nonlinear_arith)
            requires
                ru * ru == hc * hc,
                0 <= ru <= hc,
        ;
    }
}

impl Double {
    /// The square root: a zero stays, a number below zero has none, infinity
    /// stays; else the exact root, rounded.
    #[verifier::opaque]
    pub open spec fn square_root(self) -> Double {
        if self.nan() {
            Double { bits: DOUBLE_NAN_BITS }
        } else if self.size() == 0 {
            self
        } else if self.negative() {
            Double { bits: DOUBLE_NAN_BITS }
        } else if self.infinite() {
            self
        } else {
            signed(false, nearest_root(self.size() * one()))
        }
    }

    pub fn sqrt(self) -> (r: Double)
        ensures
            r == self.square_root(),
    {
        reveal(Double::square_root);
        if self.is_nan() {
            return Double { bits: DOUBLE_NAN_BITS };
        }
        if self.is_zero() {
            return self;
        }
        if self.bits >= 0x8000_0000_0000_0000 {
            return Double { bits: DOUBLE_NAN_BITS };
        }
        if self.is_infinite() {
            return self;
        }
        let (ra, xa): (u64, u64) = self.unpack();
        let (s, x): (u64, u64) = normalise(ra, xa);
        let (even, m): (u64, u64) = if x % 2 == 1 {
            (s * 2, x - 1)
        } else {
            (s, x)
        };
        let wide: u128 = even as u128 * 0x1000_0000_0000_0000;
        let r: u128 = integer_root(wide);
        let e: i32 = (m / 2) as i32 + 481;
        assert(r >= 0x100_0000_0000_0000) by (nonlinear_arith)
            requires
                wide < (r + 1) * (r + 1),
                wide >= 0x10_0000_0000_0000 * 0x1000_0000_0000_0000,
                0x100_0000_0000_0000 * 0x100_0000_0000_0000 <= 0x10_0000_0000_0000 * 0x1000_0000_0000_0000,
                r >= 0,
        ;
        let exact: bool = r * r == wide;
        let k: u64 = assemble(r, e, !exact);
        proof {
            let square: int = self.size() * one();
            let p23: int = pow2(52) as int;
            let pm: int = pow2(m as nat) as int;
            lemma2_to64();
            lemma2_to64_rest();
            if x % 2 == 1 {
                lemma_pow2_unfold(x as nat);
                assert(s * (2 * pm) == (s * 2) * pm) by (nonlinear_arith);
            }
            assert(even * pm == self.size() * p23);
            lemma_pow2_adds(52, 1022);
            lemma_pow2_adds(m as nat, 1022);
            lemma_pow2_adds(60, (m + 962) as nat);
            let top: int = pow2((m + 962) as nat) as int;
            assert(square == wide * top) by (nonlinear_arith)
                requires
                    square == self.size() * one(),
                    even * pm == self.size() * p23,
                    one() == p23 * pow2(1022),
                    pm * pow2(1022) == 0x1000_0000_0000_0000 * top,
                    wide == even * 0x1000_0000_0000_0000,
            {
                assert(self.size() * (p23 * pow2(1022)) == (self.size() * p23) * pow2(1022));
                assert((even * pm) * pow2(1022) == even * (pm * pow2(1022)));
                assert(even * (0x1000_0000_0000_0000 * top) == (even * 0x1000_0000_0000_0000) * top);
            }
            assert(2 * e == m + 962);
            lemma_root_settled(k as int, r as int, wide as int, e as int, square);
        }
        put_sign(false, k)
    }
}

/// A single-precision number in double precision. Every number has its own
/// encoding there.
pub open spec fn widened(x: Scalar) -> Double {
    if x.nan() {
        Double { bits: DOUBLE_NAN_BITS }
    } else if x.infinite() {
        signed(x.negative(), 0x7ff0_0000_0000_0000)
    } else {
        rounded(x.negative(), x.size() * pow2(925), 1)
    }
}

/// A significand of 53 bits at any exponent has an encoding.
proof fn lemma_representable(s: int, e: nat) -> (k: int)
    requires
        0 <= s < 0x20_0000_0000_0000,
        e <= 2045,
    ensures
        0 <= k < 0x7ff0_0000_0000_0000,
        magnitude(k) == s * pow2(e),
    decreases e,
{
    if e == 0 || s >= 0x10_0000_0000_0000 {
        lemma_encodings(s, e);
        e * 0x10_0000_0000_0000 + s
    } else {
        lemma_pow2_unfold(e);
        let h: int = pow2((e - 1) as nat) as int;
        assert(s * (2 * h) == (2 * s) * h) by (nonlinear_arith);
        lemma_representable(2 * s, (e - 1) as nat)
    }
}

/// A finite single-precision number keeps its value: the unit is finer by
/// 2^925.
pub proof fn lemma_widened_exact(x: Scalar)
    requires
        x.finite(),
    ensures
        widened(x).finite(),
        widened(x).value() == x.value() * pow2(925),
{
    let m: int = x.unsigned_bits();
    let w: int = pow2(925) as int;
    crate::scalar::lemma_magnitude_sign(m);
    let (s, e): (int, nat) = if m < 0x80_0000 {
        (m, 0nat)
    } else {
        (0x80_0000 + m % 0x80_0000, (m / 0x80_0000 - 1) as nat)
    };
    lemma2_to64();
    assert(m * pow2(0) == m) by (nonlinear_arith)
        requires
            pow2(0) == 1,
    ;
    lemma_pow2_adds(e, 925);
    let pe: int = pow2(e) as int;
    assert((s * pe) * w == s * (pe * w)) by (nonlinear_arith);
    let k: int = lemma_representable(s, e + 925);
    lemma_nearest_exact(k);
    assert(-(s * pe) * w == -((s * pe) * w)) by (nonlinear_arith);
}

impl Double {
    /// The number in single precision, rounded.
    pub open spec fn narrowed(self) -> Scalar {
        if self.nan() {
            Scalar { bits: NAN_BITS }
        } else if self.infinite() {
            single_signed(self.negative(), 0x7f80_0000)
        } else {
            single_rounded(self.negative(), self.size(), pow2(925) as int)
        }
    }

    pub fn from_scalar(x: Scalar) -> (r: Double)
        ensures
            r == widened(x),
    {
        let negative: bool = x.bits >= 0x8000_0000;
        let m: u32 = x.bits % 0x8000_0000;
        if m > INFINITY_BITS {
            return Double { bits: DOUBLE_NAN_BITS };
        }
        if m == INFINITY_BITS {
            return put_sign(negative, DOUBLE_INFINITY_BITS);
        }
        let (s, e): (u32, u32) = x.unpack();
        let ghost pe = pow2(e as nat) as int;
        let ghost w = pow2(925) as int;
        let ghost num = x.size() * pow2(925);
        proof {
            lemma_pow2_adds(e as nat, 925);
            assert((s * pe) * w == s * (pe * w)) by (nonlinear_arith);
        }
        if s == 0 {
            proof {
                assert(num == 0) by (nonlinear_arith)
                    requires
                        num == s * (pe * w),
                        s == 0,
                ;
                lemma_nearest_zero(1);
            }
            return put_sign(negative, 0);
        }
        let k: u64 = assemble(s as u128, e as i32 + 925, false);
        proof {
            let c: int = pow2(2000) as int;
            lemma_pow2_adds((e + 925) as nat, 2000);
            assert(1 * s * ((pe * w) * c) == num * c) by (nonlinear_arith)
                requires
                    num == s * (pe * w),
            ;
            lemma_settled(k as int, s as int, e + 925, false, num, 1);
        }
        put_sign(negative, k)
    }

    pub fn to_scalar(self) -> (r: Scalar)
        ensures
            r == self.narrowed(),
    {
        let negative: bool = self.bits >= 0x8000_0000_0000_0000;
        if self.is_nan() {
            return Scalar { bits: NAN_BITS };
        }
        if self.is_infinite() {
            if negative {
                return Scalar { bits: 0xff80_0000 };
            }
            return Scalar { bits: INFINITY_BITS };
        }
        let (s, e): (u64, u64) = self.unpack();
        from_fine(negative, s, e as u32)
    }
}

/// A single-precision number comes back from double precision as it was, but
/// for what is not a number.
pub proof fn lemma_widened_narrowed(x: Scalar)
    requires
        !x.nan(),
    ensures
        widened(x).narrowed() == x,
{
    if x.finite() {
        lemma_widened_exact(x);
        let m: int = x.unsigned_bits();
        let w: int = pow2(925) as int;
        lemma_pow2_pos(925);
        crate::scalar::lemma_magnitude_sign(m);
        lemma_magnitude_sign(widened(x).unsigned_bits());
        lemma_nearest_exists(x.size() * pow2(925), 1);
        assert(x.size() * w >= 0) by (nonlinear_arith)
            requires
                x.size() >= 0,
                w > 0,
        ;
        assert(-x.size() * w == -(x.size() * w)) by (nonlinear_arith);
        assert(widened(x).size() == x.size() * w);
        crate::arith::lemma_nearest_multiple(m, w);
    }
}

} // verus!
