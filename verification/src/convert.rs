//! Exact passages between integers and single-precision numbers: scaling by a
//! power of two, and the floor, ceiling and rounding of a number.
use crate::scalar::lemma_magnitude_sign;
use crate::scalar::magnitude;
use crate::scalar::Scalar;
use vstd::arithmetic::div_mod::lemma_fundamental_div_mod;
use vstd::arithmetic::div_mod::lemma_fundamental_div_mod_converse;
use vstd::arithmetic::power2::lemma2_to64;
use vstd::arithmetic::power2::lemma2_to64_rest;
use vstd::arithmetic::power2::lemma_pow2_adds;
use vstd::arithmetic::power2::lemma_pow2_pos;
use vstd::arithmetic::power2::lemma_pow2_strictly_increases;
use vstd::arithmetic::power2::lemma_pow2_unfold;
use vstd::arithmetic::power2::pow2;
use vstd::prelude::*;

verus! {

/// One, in units of 2^-149.
pub open spec fn one() -> int {
    pow2(149) as int
}

/// The number `n * 2^(power - 149)`, normalised by doubling.
pub fn scaled(n: u32, power: u32) -> (r: Scalar)
    requires
        n <= 0x100_0000,
        23 <= power <= 252,
    ensures
        r.value() == n * pow2(power as nat),
        !r.negative() && !r.nan(),
{
    if n == 0 {
        return Scalar { bits: 0 };
    }
    let mut significand: u32 = n;
    let mut exponent: u32 = power + 1;
    proof {
        lemma2_to64();
    }
    if n == 0x100_0000 {
        proof {
            lemma_pow2_unfold((power + 1) as nat);
        }
        significand = 0x80_0000;
        exponent = power + 2;
    }
    while significand < 0x80_0000
        invariant
            0 < significand < 0x100_0000,
            power <= exponent + 22,
            exponent <= power + 2,
            power >= 23,
            exponent <= power + 1 || significand >= 0x80_0000,
            significand * pow2((exponent - 1) as nat) == n * pow2(power as nat),
            exponent <= power + 1 ==> significand >= pow2((power + 1 - exponent) as nat),
            pow2(23) == 0x80_0000,
        decreases 0x100_0000 - significand,
    {
        proof {
            if exponent + 22 == power {
                assert(power + 1 - exponent == 23);
            }
            let half: int = pow2((exponent - 2) as nat) as int;
            lemma_pow2_unfold((exponent - 1) as nat);
            lemma_pow2_unfold((power + 2 - exponent) as nat);
            assert(significand * (2 * half) == (2 * significand) * half) by (nonlinear_arith);
        }
        significand = significand * 2;
        exponent = exponent - 1;
    }
    let bits: u32 = exponent * 0x80_0000 + (significand - 0x80_0000);
    proof {
        lemma_encoding(exponent as int, significand as int);
    }
    Scalar { bits }
}

/// The encoding of a normal number, taken apart.
pub proof fn lemma_encoding(exponent: int, significand: int)
    requires
        1 <= exponent < 255,
        0x80_0000 <= significand < 0x100_0000,
    ensures
        magnitude(exponent * 0x80_0000 + (significand - 0x80_0000)) == significand * pow2(
            (exponent - 1) as nat,
        ),
{
    let m: int = exponent * 0x80_0000 + (significand - 0x80_0000);
    assert(m / 0x80_0000 == exponent);
    assert(m % 0x80_0000 == significand - 0x80_0000);
}

proof fn lemma_pow2_monotone(a: nat, b: nat)
    requires
        a <= b,
    ensures
        pow2(a) <= pow2(b),
{
    if a < b {
        lemma_pow2_strictly_increases(a, b);
    }
}

/// An integer moved into the range of `i64`.
pub open spec fn saturated(n: int) -> int {
    if n < i64::MIN {
        i64::MIN as int
    } else if n > i64::MAX {
        i64::MAX as int
    } else {
        n
    }
}

impl Scalar {
    /// The greatest integer that is not above the number.
    pub open spec fn floor_value(self) -> int {
        self.value() / one()
    }

    /// The least integer that is not below the number.
    pub open spec fn ceil_value(self) -> int {
        -((-self.value()) / one())
    }

    /// The nearest integer, a half going away from zero.
    pub open spec fn round_value(self) -> int {
        if self.value() >= 0 {
            (2 * self.value() + one()) / (2 * one())
        } else {
            -((2 * (-self.value()) + one()) / (2 * one()))
        }
    }

    /// Integer part of the size, cut off at 2^63, and whether the fraction is
    /// more than nothing and at least a half.
    fn parts(self) -> (r: (u64, bool, bool))
        ensures
            ({
                let m = magnitude(self.unsigned_bits());
                &&& m >= 0
                &&& m / one() >= 0
                &&& r.0 == if m / one() > 0x8000_0000_0000_0000 {
                    0x8000_0000_0000_0000
                } else {
                    m / one()
                }
                &&& r.1 == (m % one() != 0)
                &&& r.2 == (2 * (m % one()) >= one())
            }),
    {
        let m: u32 = self.bits % 0x8000_0000;
        let exponent: u32 = m / 0x80_0000;
        proof {
            lemma_magnitude_sign(m as int);
            lemma_pow2_pos(149);
            lemma2_to64();
            lemma2_to64_rest();
        }
        if exponent == 0 {
            proof {
                lemma_pow2_strictly_increases(24, 149);
                lemma_fundamental_div_mod_converse(m as int, one(), 0, m as int);
            }
            return (0, m != 0, false);
        }
        let significand: u64 = (0x80_0000 + m % 0x80_0000) as u64;
        let ghost lead = pow2((exponent - 1) as nat) as int;
        proof {
            lemma_pow2_pos((exponent - 1) as nat);
        }
        if exponent >= 150 {
            let shift: u32 = exponent - 150;
            proof {
                let up: int = pow2(shift as nat) as int;
                lemma_pow2_pos(shift as nat);
                lemma_pow2_adds(shift as nat, 149);
                assert(lead == up * one());
                assert(significand * (up * one()) == (significand * up) * one()) by (
                nonlinear_arith);
                lemma_fundamental_div_mod_converse(
                    significand * lead,
                    one(),
                    significand * up,
                    0,
                );
                if shift >= 40 {
                    lemma_pow2_monotone(40, shift as nat);
                    assert(significand * up >= 0x80_0000 * 0x100_0000_0000) by (nonlinear_arith)
                        requires
                            significand >= 0x80_0000,
                            up >= 0x100_0000_0000,
                    ;
                } else {
                    lemma_pow2_monotone(shift as nat, 39);
                    assert(significand * up < 0x100_0000 * 0x80_0000_0000) by (nonlinear_arith)
                        requires
                            0 <= significand < 0x100_0000,
                            0 < up <= 0x80_0000_0000,
                    ;
                    vstd::bits::lemma_u64_shl_is_mul(significand, shift as u64);
                }
            }
            if shift >= 40 {
                return (0x8000_0000_0000_0000, false, false);
            }
            return (significand << (shift as u64), false, false);
        }
        let shift: u32 = 150 - exponent;
        let ghost down = pow2(shift as nat) as int;
        proof {
            lemma_pow2_pos(shift as nat);
            lemma_pow2_adds(shift as nat, (exponent - 1) as nat);
            assert(one() == down * lead);
        }
        if shift >= 25 {
            proof {
                lemma_pow2_monotone(25, shift as nat);
                lemma_split(significand as int, down, lead);
                lemma_fundamental_div_mod_converse(
                    significand as int,
                    down,
                    0,
                    significand as int,
                );
            }
            return (0, true, false);
        }
        proof {
            lemma_pow2_monotone(shift as nat, 24);
            assert(1 * down == down);
            vstd::bits::lemma_u64_shl_is_mul(1, shift as u64);
            lemma_split(significand as int, down, lead);
            lemma_fundamental_div_mod(significand as int, down);
        }
        let unit: u64 = 1u64 << (shift as u64);
        let rest: u64 = significand % unit;
        (significand / unit, rest != 0, 2 * rest >= unit)
    }

    /// The floor as an integer; zero for what is not a number.
    pub fn floor_i64(self) -> (r: i64)
        ensures
            r == if self.nan() {
                0
            } else {
                saturated(self.floor_value())
            },
    {
        if self.is_nan() {
            return 0;
        }
        let (whole, some, _half): (u64, bool, bool) = self.parts();
        proof {
            lemma_negative_floor(magnitude(self.unsigned_bits()));
        }
        if self.bits >= 0x8000_0000 {
            if whole >= 0x8000_0000_0000_0000 {
                i64::MIN
            } else if some {
                -(whole as i64) - 1
            } else {
                -(whole as i64)
            }
        } else if whole >= 0x8000_0000_0000_0000 {
            i64::MAX
        } else {
            whole as i64
        }
    }

    /// The ceiling as an integer; zero for what is not a number.
    pub fn ceil_i64(self) -> (r: i64)
        ensures
            r == if self.nan() {
                0
            } else {
                saturated(self.ceil_value())
            },
    {
        if self.is_nan() {
            return 0;
        }
        let (whole, some, _half): (u64, bool, bool) = self.parts();
        proof {
            lemma_negative_floor(magnitude(self.unsigned_bits()));
        }
        if self.bits >= 0x8000_0000 {
            if whole >= 0x8000_0000_0000_0000 {
                i64::MIN
            } else {
                -(whole as i64)
            }
        } else if whole >= 0x7fff_ffff_ffff_ffff {
            i64::MAX
        } else if some {
            whole as i64 + 1
        } else {
            whole as i64
        }
    }

    /// The nearest integer, halves away from zero; zero for what is not a
    /// number.
    pub fn round_i64(self) -> (r: i64)
        ensures
            r == if self.nan() {
                0
            } else {
                saturated(self.round_value())
            },
    {
        if self.is_nan() {
            return 0;
        }
        let (whole, _some, half): (u64, bool, bool) = self.parts();
        proof {
            lemma_rounded(magnitude(self.unsigned_bits()));
            lemma_pow2_pos(149);
            lemma_fundamental_div_mod_converse(0, one(), 0, 0);
        }
        if self.bits >= 0x8000_0000 {
            if whole >= 0x8000_0000_0000_0000 {
                i64::MIN
            } else if half {
                -(whole as i64) - 1
            } else {
                -(whole as i64)
            }
        } else if whole >= 0x7fff_ffff_ffff_ffff {
            i64::MAX
        } else if half {
            whole as i64 + 1
        } else {
            whole as i64
        }
    }

    /// The integer part of a number that is not negative; zero for any other,
    /// and for what is not a number.
    pub fn to_index(self) -> (r: u64)
        ensures
            r == if self.nan() || self.value() < 0 {
                0
            } else {
                saturated(self.floor_value())
            },
    {
        let f: i64 = self.floor_i64();
        proof {
            lemma_floor_sign(self.value());
        }
        if f < 0 {
            0
        } else {
            f as u64
        }
    }
}

/// Both parts of a product scaled like its divisor.
proof fn lemma_split(significand: int, down: int, lead: int)
    requires
        significand >= 0,
        down > 0,
        lead > 0,
        one() == down * lead,
    ensures
        (significand * lead) / one() == significand / down,
        (significand * lead) % one() == (significand % down) * lead,
        (significand * lead) % one() != 0 <==> significand % down != 0,
        2 * ((significand * lead) % one()) >= one() <==> 2 * (significand % down) >= down,
{
    let q: int = significand / down;
    let r: int = significand % down;
    lemma_fundamental_div_mod(significand, down);
    assert(significand * lead == q * (down * lead) + r * lead) by (nonlinear_arith)
        requires
            significand == down * q + r,
    ;
    assert(0 <= r * lead < down * lead) by (nonlinear_arith)
        requires
            0 <= r < down,
            lead > 0,
    ;
    lemma_fundamental_div_mod_converse(significand * lead, one(), q, r * lead);
    assert(r * lead != 0 <==> r != 0) by (nonlinear_arith)
        requires
            lead > 0,
    ;
    assert(2 * (r * lead) >= down * lead <==> 2 * r >= down) by (nonlinear_arith)
        requires
            lead > 0,
    ;
}

/// The floor below zero is one further where there is a fraction.
proof fn lemma_negative_floor(m: int)
    requires
        m >= 0,
    ensures
        (-m) / one() == if m % one() != 0 {
            -(m / one()) - 1
        } else {
            -(m / one())
        },
{
    lemma_pow2_pos(149);
    let q: int = m / one();
    let r: int = m % one();
    lemma_fundamental_div_mod(m, one());
    if r != 0 {
        assert(-m == (-q - 1) * one() + (one() - r)) by (nonlinear_arith)
            requires
                m == one() * q + r,
        ;
        lemma_fundamental_div_mod_converse(-m, one(), -q - 1, one() - r);
    } else {
        assert(-m == (-q) * one()) by (nonlinear_arith)
            requires
                m == one() * q,
        ;
        lemma_fundamental_div_mod_converse(-m, one(), -q, 0);
    }
}

/// Rounding adds one to the integer part where the fraction is a half or more.
proof fn lemma_rounded(m: int)
    requires
        m >= 0,
    ensures
        (2 * m + one()) / (2 * one()) == if 2 * (m % one()) >= one() {
            m / one() + 1
        } else {
            m / one()
        },
{
    lemma_pow2_pos(149);
    let u: int = one();
    let q: int = m / u;
    let r: int = m % u;
    lemma_fundamental_div_mod(m, u);
    if 2 * r >= u {
        assert(2 * m + u == (q + 1) * (2 * u) + (2 * r - u)) by (nonlinear_arith)
            requires
                m == u * q + r,
        ;
        lemma_fundamental_div_mod_converse(2 * m + u, 2 * u, q + 1, 2 * r - u);
    } else {
        assert(2 * m + u == q * (2 * u) + (2 * r + u)) by (nonlinear_arith)
            requires
                m == u * q + r,
        ;
        lemma_fundamental_div_mod_converse(2 * m + u, 2 * u, q, 2 * r + u);
    }
}

/// The floor has the sign of the number.
pub proof fn lemma_floor_sign(v: int)
    ensures
        v >= 0 ==> v / one() >= 0,
        v < 0 ==> v / one() < 0,
{
    lemma_pow2_pos(149);
    let q: int = v / one();
    lemma_fundamental_div_mod(v, one());
    let u: int = one();
    assert((v >= 0 ==> q >= 0) && (v < 0 ==> q < 0)) by (nonlinear_arith)
        requires
            v == u * q + v % u,
            0 <= v % u < u,
    ;
}

} // verus!
