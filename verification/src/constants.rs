//! The numbers that encodings in the source stand for.
use crate::exact::number;
use crate::scalar::Scalar;
use crate::snell::lemma_negated_number;
use vstd::arithmetic::power2::lemma_pow2_adds;
use vstd::arithmetic::power2::lemma_pow2_pos;
use vstd::arithmetic::power2::pow2;
use vstd::prelude::*;

verus! {

/// The number of an encoding with exponent `e` and significand `s`, whose unit
/// is one over `scale`.
pub proof fn lemma_constant(bits: u32, e: nat, s: int, scale: real)
    requires
        e <= 149,
        0x80_0000 <= s < 0x100_0000,
        bits == e * 0x80_0000 + s,
        scale == pow2((149 - e) as nat) as real,
    ensures
        (Scalar { bits }).finite(),
        number(Scalar { bits }) == s as real / scale,
{
    reveal(number);
    let x = Scalar { bits };
    let p: int = pow2(e) as int;
    let q: int = pow2((149 - e) as nat) as int;
    assert(bits < 0x7f80_0000);
    assert(bits as int / 0x80_0000 == e + 1);
    assert(bits as int % 0x80_0000 == s - 0x80_0000);
    assert(x.value() == s * p);
    lemma_pow2_adds(e, (149 - e) as nat);
    lemma_pow2_pos(e);
    lemma_pow2_pos((149 - e) as nat);
    assert((s * p) as real == s as real * p as real) by (nonlinear_arith);
    assert((p * q) as real == p as real * q as real) by (nonlinear_arith);
    let (a, b, c) = (s as real, p as real, q as real);
    assert((a * b) / (b * c) == a / c) by (nonlinear_arith)
        requires
            b > 0real,
            c > 0real,
    ;
}

/// The same for an encoding with a negative sign.
pub proof fn lemma_negative_constant(bits: u32, e: nat, s: int, scale: real)
    requires
        e <= 149,
        0x80_0000 <= s < 0x100_0000,
        bits == 0x8000_0000 + e * 0x80_0000 + s,
        scale == pow2((149 - e) as nat) as real,
    ensures
        (Scalar { bits }).finite(),
        number(Scalar { bits }) == -(s as real / scale),
{
    let x = Scalar { bits: (bits - 0x8000_0000) as u32 };
    lemma_constant(x.bits, e, s, scale);
    lemma_negated_number(x);
    assert(x.negated() == (Scalar { bits }));
}

} // verus!
