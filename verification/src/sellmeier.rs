//! Glasses, and the index of refraction that their published dispersion
//! formulas give.
use crate::double::widened;
use crate::double::Double;
use crate::scalar::Scalar;
use vstd::prelude::*;

verus! {

/// Encoding of 1000 in double precision: nanometres in a micrometre.
pub const THOUSAND_BITS: u64 = 0x408f_4000_0000_0000;

/// Encoding of one in double precision.
pub const DOUBLE_ONE_BITS: u64 = 0x3ff0_0000_0000_0000;

/// Encoding of 1.03961212.
pub const BK7_B1_BITS: u64 = 0x3ff0_a240_517e_cdbb;

/// Encoding of 0.231792344.
pub const BK7_B2_BITS: u64 = 0x3fcd_ab5f_1c78_ba2f;

/// Encoding of 1.01046945.
pub const BK7_B3_BITS: u64 = 0x3ff0_2ae2_0395_b6b6;

/// Encoding of 0.00600069867.
pub const BK7_C1_BITS: u64 = 0x3f78_9430_48a7_1ea2;

/// Encoding of 0.0200179144.
pub const BK7_C2_BITS: u64 = 0x3f94_7f93_7eba_7f9f;

/// Encoding of 103.560653.
pub const BK7_C3_BITS: u64 = 0x4059_e3e1_bd1e_d9e0;

/// Encoding of 1.73759695.
pub const SF11_B1_BITS: u64 = 0x3ffb_cd32_759e_11ce;

/// Encoding of 0.313747346.
pub const SF11_B2_BITS: u64 = 0x3fd4_146f_bf91_b708;

/// Encoding of 1.89878101.
pub const SF11_B3_BITS: u64 = 0x3ffe_6168_3243_741e;

/// Encoding of 0.013188707.
pub const SF11_C1_BITS: u64 = 0x3f8b_02ae_49ee_a553;

/// Encoding of 0.0623068142.
pub const SF11_C2_BITS: u64 = 0x3faf_e6ad_c29d_2857;

/// Encoding of 155.23629.
pub const SF11_C3_BITS: u64 = 0x4063_678f_b00b_cbe6;

/// Encoding of 1.3238.
pub const WATER_A_BITS: u64 = 0x3ff5_2e48_e8a7_1de7;

/// Encoding of 0.00314.
pub const WATER_B_BITS: u64 = 0x3f69_b90e_a9e6_eeb7;

/// Media with published dispersion coefficients.
#[derive(Clone, Copy, Debug, PartialEq, Eq, Structural)]
pub enum Glass {
    Bk7,
    Sf11,
    Water,
}

/// How the index of refraction depends on the wavelength `l` in micrometres.
#[derive(Clone, Copy, Debug, PartialEq, Eq, Structural)]
pub enum Dispersion {
    /// `n^2 = 1 + sum of b[k] l^2 / (l^2 - c[k])`.
    Sellmeier { b1: Double, b2: Double, b3: Double, c1: Double, c2: Double, c3: Double },
    /// `n = a + b / l^2`.
    Cauchy { a: Double, b: Double },
}

/// The square of the wavelength in micrometres.
pub open spec fn squared_micrometres(lambda_nm: Scalar) -> Double {
    let l = widened(lambda_nm).quotient(Double { bits: THOUSAND_BITS });
    l.product(l)
}

/// One term of the Sellmeier formula.
pub open spec fn sellmeier_term(b: Double, c: Double, l2: Double) -> Double {
    b.product(l2).quotient(l2.difference(c))
}

impl Dispersion {
    /// The index of refraction, for the square of the wavelength.
    pub open spec fn index(self, l2: Double) -> Double {
        match self {
            Dispersion::Sellmeier { b1, b2, b3, c1, c2, c3 } => {
                (Double { bits: DOUBLE_ONE_BITS }).sum(
                    sellmeier_term(b1, c1, l2).sum(sellmeier_term(b2, c2, l2)).sum(
                        sellmeier_term(b3, c3, l2),
                    ),
                ).square_root()
            },
            Dispersion::Cauchy { a, b } => a.sum(b.quotient(l2)),
        }
    }
}

fn term(b: Double, c: Double, l2: Double) -> (r: Double)
    ensures
        r == sellmeier_term(b, c, l2),
{
    b.times(l2).over(l2.minus(c))
}

impl Glass {
    /// The published dispersion.
    #[verifier::opaque]
    pub open spec fn dispersion(self) -> Dispersion {
        match self {
            Glass::Bk7 => Dispersion::Sellmeier {
                b1: Double { bits: BK7_B1_BITS },
                b2: Double { bits: BK7_B2_BITS },
                b3: Double { bits: BK7_B3_BITS },
                c1: Double { bits: BK7_C1_BITS },
                c2: Double { bits: BK7_C2_BITS },
                c3: Double { bits: BK7_C3_BITS },
            },
            Glass::Sf11 => Dispersion::Sellmeier {
                b1: Double { bits: SF11_B1_BITS },
                b2: Double { bits: SF11_B2_BITS },
                b3: Double { bits: SF11_B3_BITS },
                c1: Double { bits: SF11_C1_BITS },
                c2: Double { bits: SF11_C2_BITS },
                c3: Double { bits: SF11_C3_BITS },
            },
            Glass::Water => Dispersion::Cauchy {
                a: Double { bits: WATER_A_BITS },
                b: Double { bits: WATER_B_BITS },
            },
        }
    }

    /// The published coefficients.
    pub fn coeffs(self) -> (r: Dispersion)
        ensures
            r == self.dispersion(),
    {
        reveal(Glass::dispersion);
        match self {
            Glass::Bk7 => Dispersion::Sellmeier {
                b1: Double { bits: BK7_B1_BITS },
                b2: Double { bits: BK7_B2_BITS },
                b3: Double { bits: BK7_B3_BITS },
                c1: Double { bits: BK7_C1_BITS },
                c2: Double { bits: BK7_C2_BITS },
                c3: Double { bits: BK7_C3_BITS },
            },
            Glass::Sf11 => Dispersion::Sellmeier {
                b1: Double { bits: SF11_B1_BITS },
                b2: Double { bits: SF11_B2_BITS },
                b3: Double { bits: SF11_B3_BITS },
                c1: Double { bits: SF11_C1_BITS },
                c2: Double { bits: SF11_C2_BITS },
                c3: Double { bits: SF11_C3_BITS },
            },
            Glass::Water => Dispersion::Cauchy {
                a: Double { bits: WATER_A_BITS },
                b: Double { bits: WATER_B_BITS },
            },
        }
    }

    /// The index of refraction at a wavelength in nanometres: computed in
    /// double precision, and rounded at the end.
    #[verifier::opaque]
    pub open spec fn refraction(self, lambda_nm: Scalar) -> Scalar {
        self.dispersion().index(squared_micrometres(lambda_nm)).narrowed()
    }

    /// The index of refraction at a wavelength in nanometres.
    pub fn n(self, lambda_nm: Scalar) -> (r: Scalar)
        ensures
            r == self.refraction(lambda_nm),
    {
        reveal(Glass::refraction);
        let l: Double = Double::from_scalar(lambda_nm).over(Double { bits: THOUSAND_BITS });
        let l2: Double = l.times(l);
        let index: Double = match self.coeffs() {
            Dispersion::Sellmeier { b1, b2, b3, c1, c2, c3 } => {
                let terms: Double = term(b1, c1, l2).plus(term(b2, c2, l2)).plus(
                    term(b3, c3, l2),
                );
                (Double { bits: DOUBLE_ONE_BITS }).plus(terms).sqrt()
            },
            Dispersion::Cauchy { a, b } => a.plus(b.over(l2)),
        };
        index.to_scalar()
    }

    /// The number by which the shaders know the glass.
    pub open spec fn code_spec(self) -> u32 {
        match self {
            Glass::Bk7 => 0,
            Glass::Sf11 => 1,
            Glass::Water => 2,
        }
    }

    pub fn code(self) -> (r: u32)
        ensures
            r == self.code_spec(),
    {
        match self {
            Glass::Bk7 => 0,
            Glass::Sf11 => 1,
            Glass::Water => 2,
        }
    }

    /// The glass that a shader knows by `code`.
    pub fn from_code(code: u32) -> (r: Option<Glass>)
        ensures
            r matches Some(g) ==> g.code_spec() == code,
            r is None <==> code > 2,
    {
        if code == 0 {
            Some(Glass::Bk7)
        } else if code == 1 {
            Some(Glass::Sf11)
        } else if code == 2 {
            Some(Glass::Water)
        } else {
            None
        }
    }
}

} // verus!
