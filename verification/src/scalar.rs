//! Single-precision numbers as bit patterns.
//!
//! A [`Scalar`] carries the IEEE 754 binary32 encoding of a number. Everything
//! here is exact: comparison, negation, absolute value, minimum, maximum and
//! clamping never round.
use vstd::arithmetic::power2::lemma_pow2_adds;
use vstd::arithmetic::power2::lemma_pow2_pos;
use vstd::arithmetic::power2::lemma_pow2_unfold;
use vstd::arithmetic::power2::pow2;
use vstd::prelude::*;

verus! {

/// Encoding of positive infinity.
pub const INFINITY_BITS: u32 = 0x7f80_0000;

/// Encoding of negative infinity.
pub const NEG_INFINITY_BITS: u32 = 0xff80_0000;

/// Encoding of one.
pub const ONE_BITS: u32 = 0x3f80_0000;

/// A binary32 number, held as its encoding.
#[derive(Clone, Copy, Debug, PartialEq, Eq, Structural)]
pub struct Scalar {
    pub bits: u32,
}

/// The size, in units of 2^-149, of the number whose encoding without its sign
/// bit is `m`: a subnormal is its fraction, a normal number has the hidden bit
/// and is scaled by its exponent. Infinity takes the place after the largest
/// finite number.
pub open spec fn magnitude(m: int) -> int {
    if m < 0x80_0000 {
        m
    } else {
        (0x80_0000 + m % 0x80_0000) * pow2((m / 0x80_0000 - 1) as nat)
    }
}

impl Scalar {
    /// The encoding without its sign bit.
    pub open spec fn unsigned_bits(self) -> int {
        self.bits as int % 0x8000_0000
    }

    pub open spec fn negative(self) -> bool {
        self.bits >= 0x8000_0000
    }

    pub open spec fn nan(self) -> bool {
        self.unsigned_bits() > 0x7f80_0000
    }

    /// The number in units of 2^-149, in which every finite number is whole.
    pub open spec fn value(self) -> int {
        if self.negative() {
            -magnitude(self.unsigned_bits())
        } else {
            magnitude(self.unsigned_bits())
        }
    }

    /// `self < other`: false where either is not a number.
    pub open spec fn below(self, other: Scalar) -> bool {
        !self.nan() && !other.nan() && self.value() < other.value()
    }

    /// `self <= other`: false where either is not a number.
    pub open spec fn at_most(self, other: Scalar) -> bool {
        !self.nan() && !other.nan() && self.value() <= other.value()
    }

    /// The same number with the other sign.
    pub open spec fn negated(self) -> Scalar {
        Scalar {
            bits: if self.bits >= 0x8000_0000 {
                (self.bits - 0x8000_0000) as u32
            } else {
                (self.bits + 0x8000_0000) as u32
            },
        }
    }

    /// The same number without its sign.
    pub open spec fn unsigned(self) -> Scalar {
        Scalar { bits: (self.bits as int % 0x8000_0000) as u32 }
    }

    /// The larger of two numbers; the number where only one is a number.
    pub open spec fn larger(self, other: Scalar) -> Scalar {
        if self.nan() {
            other
        } else if other.nan() || other.at_most(self) {
            self
        } else {
            other
        }
    }

    /// The smaller of two numbers; the number where only one is a number.
    pub open spec fn smaller(self, other: Scalar) -> Scalar {
        if self.nan() {
            other
        } else if other.nan() || self.at_most(other) {
            self
        } else {
            other
        }
    }

    /// The number moved into `[low, high]`; what is not a number stays.
    pub open spec fn clamped(self, low: Scalar, high: Scalar) -> Scalar {
        if self.below(low) {
            low
        } else if high.below(self) {
            high
        } else {
            self
        }
    }

    /// The encoding read as a sign and a magnitude.
    pub closed spec fn rank(self) -> int {
        if self.negative() {
            -self.unsigned_bits()
        } else {
            self.unsigned_bits()
        }
    }

    pub fn from_bits(bits: u32) -> (r: Scalar)
        ensures
            r.bits == bits,
    {
        Scalar { bits }
    }

    pub fn to_bits(self) -> (bits: u32)
        ensures
            bits == self.bits,
    {
        self.bits
    }

    pub fn is_nan(self) -> (r: bool)
        ensures
            r == self.nan(),
    {
        self.bits % 0x8000_0000 > INFINITY_BITS
    }

    fn signed_rank(self) -> (r: i64)
        ensures
            r == self.rank(),
    {
        let m: i64 = (self.bits % 0x8000_0000) as i64;
        if self.bits >= 0x8000_0000 {
            -m
        } else {
            m
        }
    }

    pub fn lt(self, other: Scalar) -> (r: bool)
        ensures
            r == self.below(other),
    {
        proof {
            lemma_rank_orders(self, other);
        }
        !self.is_nan() && !other.is_nan() && self.signed_rank() < other.signed_rank()
    }

    pub fn le(self, other: Scalar) -> (r: bool)
        ensures
            r == self.at_most(other),
    {
        proof {
            lemma_rank_orders(other, self);
        }
        !self.is_nan() && !other.is_nan() && self.signed_rank() <= other.signed_rank()
    }

    pub fn gt(self, other: Scalar) -> (r: bool)
        ensures
            r == other.below(self),
    {
        other.lt(self)
    }

    pub fn ge(self, other: Scalar) -> (r: bool)
        ensures
            r == other.at_most(self),
    {
        other.le(self)
    }

    pub fn neg(self) -> (r: Scalar)
        ensures
            r == self.negated(),
    {
        if self.bits >= 0x8000_0000 {
            Scalar { bits: self.bits - 0x8000_0000 }
        } else {
            Scalar { bits: self.bits + 0x8000_0000 }
        }
    }

    pub fn abs(self) -> (r: Scalar)
        ensures
            r == self.unsigned(),
    {
        Scalar { bits: self.bits % 0x8000_0000 }
    }

    pub fn max(self, other: Scalar) -> (r: Scalar)
        ensures
            r == self.larger(other),
    {
        if self.is_nan() {
            other
        } else if other.is_nan() || other.le(self) {
            self
        } else {
            other
        }
    }

    pub fn min(self, other: Scalar) -> (r: Scalar)
        ensures
            r == self.smaller(other),
    {
        if self.is_nan() {
            other
        } else if other.is_nan() || self.le(other) {
            self
        } else {
            other
        }
    }

    pub fn clamp(self, low: Scalar, high: Scalar) -> (r: Scalar)
        requires
            low.at_most(high),
        ensures
            r == self.clamped(low, high),
    {
        if self.lt(low) {
            low
        } else if high.lt(self) {
            high
        } else {
            self
        }
    }
}

/// A larger unsigned encoding is a larger number.
pub proof fn lemma_magnitude_increases(a: int, b: int)
    requires
        0 <= a < b,
    ensures
        magnitude(a) < magnitude(b),
{
    let ea: int = a / 0x80_0000;
    let eb: int = b / 0x80_0000;
    let fa: int = a % 0x80_0000;
    let fb: int = b % 0x80_0000;
    if b >= 0x80_0000 {
        let pb: int = pow2((eb - 1) as nat) as int;
        lemma_pow2_pos((eb - 1) as nat);
        assert((0x80_0000 + fb) * pb >= 0x80_0000 * pb) by (nonlinear_arith)
            requires
                fb >= 0,
                pb > 0,
        ;
        if a < 0x80_0000 {
            assert(0x80_0000 * pb >= 0x80_0000) by (nonlinear_arith)
                requires
                    pb > 0,
            ;
        } else {
            let pa: int = pow2((ea - 1) as nat) as int;
            lemma_pow2_pos((ea - 1) as nat);
            if ea == eb {
                assert((0x80_0000 + fa) * pa < (0x80_0000 + fb) * pa) by (nonlinear_arith)
                    requires
                        fa < fb,
                        pa > 0,
                ;
            } else {
                let gap: nat = (eb - ea - 1) as nat;
                lemma_pow2_adds(ea as nat, gap);
                lemma_pow2_pos(gap);
                lemma_pow2_unfold(ea as nat);
                let pg: int = pow2(gap) as int;
                assert(pb == 2 * pa * pg);
                assert(pb >= 2 * pa) by (nonlinear_arith)
                    requires
                        pb == 2 * pa * pg,
                        pg >= 1,
                        pa > 0,
                ;
                assert((0x80_0000 + fa) * pa < 0x80_0000 * pb) by (nonlinear_arith)
                    requires
                        fa < 0x80_0000,
                        pa > 0,
                        pb >= 2 * pa,
                ;
            }
        }
    }
}

/// A magnitude is never negative, and is zero only for the zero encoding.
pub proof fn lemma_magnitude_sign(m: int)
    requires
        0 <= m,
    ensures
        magnitude(m) >= 0,
        magnitude(m) == 0 <==> m == 0,
{
    if m > 0 {
        lemma_magnitude_increases(0, m);
    }
}

proof fn lemma_rank_orders(a: Scalar, b: Scalar)
    ensures
        a.rank() < b.rank() <==> a.value() < b.value(),
{
    let ma: int = a.unsigned_bits();
    let mb: int = b.unsigned_bits();
    lemma_magnitude_sign(ma);
    lemma_magnitude_sign(mb);
    if ma < mb {
        lemma_magnitude_increases(ma, mb);
    }
    if mb < ma {
        lemma_magnitude_increases(mb, ma);
    }
}

/// Nothing lies below negative infinity, and nothing above infinity.
pub proof fn lemma_infinities_bound(a: Scalar)
    ensures
        !a.below(Scalar { bits: NEG_INFINITY_BITS }),
        !(Scalar { bits: INFINITY_BITS }).below(a),
{
    let m: int = a.unsigned_bits();
    lemma_magnitude_sign(m);
    lemma_magnitude_sign(0x7f80_0000);
    if m < 0x7f80_0000 {
        lemma_magnitude_increases(m, 0x7f80_0000);
    }
}

/// Negation negates the number, and undoes itself.
pub proof fn lemma_negated(a: Scalar)
    ensures
        a.negated().value() == -a.value(),
        a.negated().nan() == a.nan(),
        a.negated().negated() == a,
{
}

/// Two numbers that are equal in size and sign are the same encoding, but for
/// the two zeros.
pub proof fn lemma_value_identifies(a: Scalar, b: Scalar)
    requires
        a.value() == b.value(),
        a.value() != 0,
    ensures
        a == b,
{
    let ma: int = a.unsigned_bits();
    let mb: int = b.unsigned_bits();
    lemma_magnitude_sign(ma);
    lemma_magnitude_sign(mb);
    if ma < mb {
        lemma_magnitude_increases(ma, mb);
    }
    if mb < ma {
        lemma_magnitude_increases(mb, ma);
    }
}

} // verus!
