//! The two glasses: how the index of crown and of flint falls with the
//! wavelength.
use crate::dispersion::are_of_glass;
use crate::dispersion::are_stronger;
use crate::dispersion::ideal_square;
use crate::dispersion::in_range;
use crate::dispersion::is_index;
use crate::dispersion::is_root_of;
use crate::dispersion::is_visible;
use crate::dispersion::lemma_crown;
use crate::dispersion::lemma_flint;
use crate::dispersion::lemma_roots_apart;
use crate::dispersion::lemma_sellmeier_index;
use crate::dispersion::lemma_squares_apart;
use crate::dispersion::lemma_squares_fall;
use crate::dispersion::lemma_strengths;
use crate::dispersion::lemma_visible_square;
use crate::double::Double;
use crate::exact::close;
use crate::exact::eps;
use crate::exact::number;
use crate::fine::fine;
use crate::fine::tiny;
use crate::scalar::Scalar;
use crate::sellmeier::squared_micrometres;
use crate::sellmeier::Dispersion;
use crate::sellmeier::Glass;
use crate::sellmeier::BK7_B1_BITS;
use crate::sellmeier::BK7_B2_BITS;
use crate::sellmeier::BK7_B3_BITS;
use crate::sellmeier::BK7_C1_BITS;
use crate::sellmeier::BK7_C2_BITS;
use crate::sellmeier::BK7_C3_BITS;
use crate::sellmeier::SF11_B1_BITS;
use crate::sellmeier::SF11_B2_BITS;
use crate::sellmeier::SF11_B3_BITS;
use crate::sellmeier::SF11_C1_BITS;
use crate::sellmeier::SF11_C2_BITS;
use crate::sellmeier::SF11_C3_BITS;
use vstd::prelude::*;

verus! {

/// A dispersion whose coefficients are those of a glass.
#[verifier::opaque]
pub open spec fn is_glass(d: Dispersion) -> bool {
    match d {
        Dispersion::Sellmeier { b1, b2, b3, c1, c2, c3 } => {
            &&& b1.finite() && b2.finite() && b3.finite()
            &&& c1.finite() && c2.finite() && c3.finite()
            &&& are_of_glass((fine(b1), fine(b2), fine(b3)), (fine(c1), fine(c2), fine(c3)))
        },
        Dispersion::Cauchy { .. } => false,
    }
}

/// The second dispersion is the stronger.
#[verifier::opaque]
pub open spec fn is_stronger(d: Dispersion, e: Dispersion) -> bool {
    match (d, e) {
        (
            Dispersion::Sellmeier { b1, b2, b3, c1, c2, c3 },
            Dispersion::Sellmeier { b1: f1, b2: f2, b3: f3, c1: g1, c2: g2, c3: g3 },
        ) => are_stronger(
            (fine(b1), fine(b2), fine(b3)),
            (fine(c1), fine(c2), fine(c3)),
            (fine(f1), fine(f2), fine(f3)),
            (fine(g1), fine(g2), fine(g3)),
        ),
        _ => false,
    }
}

/// The coefficients of the crown are those of a glass.
proof fn lemma_crown_glass()
    ensures
        (Double { bits: BK7_B1_BITS }).finite(),
        (Double { bits: BK7_B2_BITS }).finite(),
        (Double { bits: BK7_B3_BITS }).finite(),
        (Double { bits: BK7_C1_BITS }).finite(),
        (Double { bits: BK7_C2_BITS }).finite(),
        (Double { bits: BK7_C3_BITS }).finite(),
        are_of_glass(
            (
                fine(Double { bits: BK7_B1_BITS }),
                fine(Double { bits: BK7_B2_BITS }),
                fine(Double { bits: BK7_B3_BITS }),
            ),
            (
                fine(Double { bits: BK7_C1_BITS }),
                fine(Double { bits: BK7_C2_BITS }),
                fine(Double { bits: BK7_C3_BITS }),
            ),
        ),
{
    lemma_crown();
}

proof fn lemma_crown_is_glass()
    ensures
        is_glass(Glass::Bk7.dispersion()),
{
    reveal(is_glass);
    reveal(Glass::dispersion);
    lemma_crown_glass();
}

/// The coefficients of the flint are those of a glass.
proof fn lemma_flint_glass()
    ensures
        (Double { bits: SF11_B1_BITS }).finite(),
        (Double { bits: SF11_B2_BITS }).finite(),
        (Double { bits: SF11_B3_BITS }).finite(),
        (Double { bits: SF11_C1_BITS }).finite(),
        (Double { bits: SF11_C2_BITS }).finite(),
        (Double { bits: SF11_C3_BITS }).finite(),
        are_of_glass(
            (
                fine(Double { bits: SF11_B1_BITS }),
                fine(Double { bits: SF11_B2_BITS }),
                fine(Double { bits: SF11_B3_BITS }),
            ),
            (
                fine(Double { bits: SF11_C1_BITS }),
                fine(Double { bits: SF11_C2_BITS }),
                fine(Double { bits: SF11_C3_BITS }),
            ),
        ),
{
    lemma_flint();
}

proof fn lemma_flint_is_glass()
    ensures
        is_glass(Glass::Sf11.dispersion()),
{
    reveal(is_glass);
    reveal(Glass::dispersion);
    lemma_flint_glass();
}

proof fn lemma_flint_is_stronger()
    ensures
        is_stronger(Glass::Bk7.dispersion(), Glass::Sf11.dispersion()),
{
    reveal(is_stronger);
    reveal(Glass::dispersion);
    lemma_strengths();
}

/// What is known of a glass.
proof fn lemma_index_known(d: Dispersion, lambda: Scalar)
    requires
        is_glass(d),
        is_visible(lambda),
    ensures
        is_index(d, lambda),
{
    reveal(is_glass);
    match d {
        Dispersion::Sellmeier { b1, b2, b3, c1, c2, c3 } => {
            lemma_sellmeier_index(b1, b2, b3, c1, c2, c3, lambda);
        },
        Dispersion::Cauchy { .. } => {},
    }
}

/// How much the squares of two indices fall.
proof fn lemma_ideal_falls(d: Dispersion, e: Dispersion, u: real, v: real)
    requires
        is_glass(d),
        is_glass(e),
        is_stronger(d, e),
        in_range(u),
        in_range(v),
        u + 7real / 10000real <= v,
    ensures
        ideal_square(d, u) - ideal_square(d, v) >= 26real / 1000000real,
        ideal_square(e, u) - ideal_square(e, v) >= 2real * (ideal_square(d, u) - ideal_square(
            d,
            v,
        )),
{
    reveal(is_glass);
    reveal(is_stronger);
    reveal(ideal_square);
    match (d, e) {
        (
            Dispersion::Sellmeier { b1, b2, b3, c1, c2, c3 },
            Dispersion::Sellmeier { b1: f1, b2: f2, b3: f3, c1: g1, c2: g2, c3: g3 },
        ) => {
            lemma_squares_fall(
                (fine(b1), fine(b2), fine(b3)),
                (fine(c1), fine(c2), fine(c3)),
                (fine(f1), fine(f2), fine(f3)),
                (fine(g1), fine(g2), fine(g3)),
                u,
                v,
            );
        },
        _ => {},
    }
}

/// Numbers whose squares are known to a little, and differ.
proof fn lemma_indices_fall(x: Double, y: Double, s1: real, s2: real)
    requires
        is_root_of(x, s1),
        is_root_of(y, s2),
        15real / 10real <= fine(x) <= 19real / 10real,
        15real / 10real <= fine(y) <= 19real / 10real,
        s1 - s2 >= 26real / 1000000real,
    ensures
        fine(x) - fine(y) > 5real * eps(),
        s1 - s2 - 10000real * tiny() <= 38real / 10real * (fine(x) - fine(y)),
        3real * (fine(x) - fine(y)) <= s1 - s2 + 10000real * tiny(),
{
    reveal(is_root_of);
    lemma_roots_apart(fine(x), fine(y));
}

/// How far two indices fall, as they are computed.
proof fn lemma_falls(d: Dispersion, e: Dispersion, l1: Scalar, l2: Scalar)
    requires
        is_glass(d),
        is_glass(e),
        is_stronger(d, e),
        is_visible(l1),
        is_visible(l2),
        number(l1) + 1real <= number(l2),
    ensures
        ({
            let (u, v) = (squared_micrometres(l1), squared_micrometres(l2));
            let (m, n) = (fine(d.index(u)) - fine(d.index(v)), fine(e.index(u)) - fine(e.index(v)));
            &&& m > 5real * eps()
            &&& n > m + 10real * eps()
            &&& close(d.index(u).narrowed(), fine(d.index(u)), 2real * eps())
            &&& close(d.index(v).narrowed(), fine(d.index(v)), 2real * eps())
            &&& close(e.index(u).narrowed(), fine(e.index(u)), 2real * eps())
            &&& close(e.index(v).narrowed(), fine(e.index(v)), 2real * eps())
            &&& fine(d.index(v)) >= 15real / 10real
            &&& fine(e.index(v)) >= 15real / 10real
        }),
{
    let (u, v) = (squared_micrometres(l1), squared_micrometres(l2));
    lemma_visible_square(l1);
    lemma_visible_square(l2);
    lemma_squares_apart(l1, l2);
    lemma_ideal_falls(d, e, fine(u), fine(v));
    lemma_index_known(d, l1);
    lemma_index_known(d, l2);
    lemma_index_known(e, l1);
    lemma_index_known(e, l2);
    reveal(is_index);
    lemma_indices_fall(d.index(u), d.index(v), ideal_square(d, fine(u)), ideal_square(d, fine(v)));
    lemma_indices_fall(e.index(u), e.index(v), ideal_square(e, fine(u)), ideal_square(e, fine(v)));
}

/// Normal dispersion: over the visible range the index of either glass falls
/// with the wavelength, and stays above one. Wavelengths are told apart from
/// one nanometre on.
pub proof fn lemma_index_falls(glass: Glass, l1: Scalar, l2: Scalar)
    requires
        glass == Glass::Bk7 || glass == Glass::Sf11,
        is_visible(l1),
        is_visible(l2),
        number(l1) + 1real <= number(l2),
    ensures
        glass.refraction(l1).finite(),
        glass.refraction(l2).finite(),
        number(glass.refraction(l1)) > number(glass.refraction(l2)) > 1real,
{
    reveal(Glass::refraction);
    lemma_crown_is_glass();
    lemma_flint_is_glass();
    lemma_flint_is_stronger();
    lemma_falls(Glass::Bk7.dispersion(), Glass::Sf11.dispersion(), l1, l2);
}

/// Flint disperses more than crown: between any two wavelengths of the visible
/// range, a nanometre or more apart, its index falls by more.
pub proof fn lemma_flint_disperses_more(l1: Scalar, l2: Scalar)
    requires
        is_visible(l1),
        is_visible(l2),
        number(l1) + 1real <= number(l2),
    ensures
        number(Glass::Sf11.refraction(l1)) - number(Glass::Sf11.refraction(l2)) > number(
            Glass::Bk7.refraction(l1),
        ) - number(Glass::Bk7.refraction(l2)),
{
    reveal(Glass::refraction);
    lemma_crown_is_glass();
    lemma_flint_is_glass();
    lemma_flint_is_stronger();
    lemma_falls(Glass::Bk7.dispersion(), Glass::Sf11.dispersion(), l1, l2);
}

} // verus!
