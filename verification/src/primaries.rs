//! From tristimulus values to the primaries of a display.
use crate::cie::combined;
use crate::cie::linear_srgb;
use crate::cie::Xyz;
use crate::constants::lemma_constant;
use crate::constants::lemma_negative_constant;
use crate::exact::close;
use crate::exact::lemma_product_close;
use crate::exact::lemma_sum_close;
use crate::exact::number;
use crate::exact::size;
use crate::scalar::Scalar;
use crate::snell::lemma_small_product;
use crate::triple::lemma_eps;
use vstd::arithmetic::power2::lemma2_to64;
use vstd::arithmetic::power2::lemma2_to64_rest;
use vstd::prelude::*;

verus! {

/// One row of a matrix whose coefficients are `a`, `b` and `c` ten-thousandths,
/// to within one part in a million.
proof fn lemma_row(
    abits: u32,
    bbits: u32,
    cbits: u32,
    xyz: Xyz,
    a: real,
    b: real,
    c: real,
    bound: real,
)
    requires
        is_color(xyz, bound),
        size(a) <= 40000real && size(b) <= 40000real && size(c) <= 40000real,
        close(Scalar { bits: abits }, a / 10000real, 1real / 1000000real),
        close(Scalar { bits: bbits }, b / 10000real, 1real / 1000000real),
        close(Scalar { bits: cbits }, c / 10000real, 1real / 1000000real),
    ensures
        close(
            combined(abits, bbits, cbits, xyz),
            (a * number(xyz.x) + b * number(xyz.y) + c * number(xyz.z)) / 10000real,
            bound / 100000real,
        ),
{
    let (x, y, z) = (number(xyz.x), number(xyz.y), number(xyz.z));
    assert((a / 10000real) * x == (a * x) / 10000real) by (nonlinear_arith);
    assert((b / 10000real) * y == (b * y) / 10000real) by (nonlinear_arith);
    assert((c / 10000real) * z == (c * z) / 10000real) by (nonlinear_arith);
    let (p, q, r) = (Scalar { bits: abits }, Scalar { bits: bbits }, Scalar { bits: cbits });
    lemma_entry(p, xyz.x, a / 10000real, bound);
    lemma_entry(q, xyz.y, b / 10000real, bound);
    lemma_entry(r, xyz.z, c / 10000real, bound);
    let wide = 13real * bound;
    lemma_eps(wide);
    let (u, v, w) = (p.product(xyz.x), q.product(xyz.y), r.product(xyz.z));
    lemma_sum_close(u, v, wide);
    lemma_sum_close(u.sum(v), w, wide);
}

/// One entry of a matrix times a channel.
proof fn lemma_entry(p: Scalar, x: Scalar, a: real, bound: real)
    requires
        p.finite(),
        x.finite(),
        size(number(x)) <= bound,
        1real / 1000000000000real <= bound <= 1000000000000real,
        size(a) <= 4real,
        size(number(p) - a) <= 1real / 1000000real,
    ensures
        close(p.product(x), a * number(x), (13real / 10000000real) * bound),
        size(a * number(x)) <= 4real * bound,
{
    let (f, y) = (number(p) - a, number(x));
    assert(number(p) * y == a * y + f * y) by (nonlinear_arith)
        requires
            f == number(p) - a,
    ;
    lemma_small_product(f, y, 1real / 1000000real, bound);
    lemma_small_product(a, y, 4real, bound);
    lemma_product_close(p, x, 5real * bound);
    lemma_eps(5real * bound);
}

/// Channels that are numbers of size `bound` at most.
pub open spec fn is_color(xyz: Xyz, bound: real) -> bool {
    &&& xyz.x.finite() && xyz.y.finite() && xyz.z.finite()
    &&& size(number(xyz.x)) <= bound
    &&& size(number(xyz.y)) <= bound
    &&& size(number(xyz.z)) <= bound
    &&& 1real / 1000000000000real <= bound <= 1000000000000real
}

/// The channels of a color by the standard matrix for a white of 6500 K, whose
/// coefficients are these decimals: each is the combination of the three
/// tristimulus values, to within a hundred-thousandth of their size.
pub open spec fn is_standard_srgb(xyz: Xyz, rgb: Xyz, bound: real) -> bool {
    let (x, y, z) = (number(xyz.x), number(xyz.y), number(xyz.z));
    &&& close(
        rgb.x,
        (32406real * x - 15372real * y - 4986real * z) / 10000real,
        bound / 100000real,
    )
    &&& close(
        rgb.y,
        (-9689real * x + 18758real * y + 415real * z) / 10000real,
        bound / 100000real,
    )
    &&& close(
        rgb.z,
        (557real * x - 2040real * y + 10570real * z) / 10000real,
        bound / 100000real,
    )
}

/// The conversion is by the standard matrix, for every color.
pub proof fn lemma_srgb_matrix(xyz: Xyz, bound: real)
    requires
        is_color(xyz, bound),
    ensures
        is_standard_srgb(xyz, linear_srgb(xyz), bound),
{
    lemma2_to64();
    lemma2_to64_rest();
    let (x, y, z) = (number(xyz.x), number(xyz.y), number(xyz.z));
    lemma_constant(0x404f_65fe, 127, 13592062, 4194304real);
    lemma_negative_constant(0xbfc4_c2f8, 126, 12894968, 8388608real);
    lemma_negative_constant(0xbeff_4880, 124, 16730240, 33554432real);
    lemma_row(
        0x404f_65fe,
        0xbfc4_c2f8,
        0xbeff_4880,
        xyz,
        32406real,
        -15372real,
        -4986real,
        bound,
    );
    lemma_negative_constant(0xbf78_09d5, 125, 16255445, 16777216real);
    lemma_constant(0x3ff0_1a37, 126, 15735351, 8388608real);
    lemma_constant(0x3d29_fbe7, 121, 11140071, 268435456real);
    lemma_row(
        0xbf78_09d5,
        0x3ff0_1a37,
        0x3d29_fbe7,
        xyz,
        -9689real,
        18758real,
        415real,
        bound,
    );
    lemma_constant(0x3d64_25af, 121, 14951855, 268435456real);
    lemma_negative_constant(0xbe50_e560, 123, 13690208, 67108864real);
    lemma_constant(0x3f87_4bc7, 126, 8866759, 8388608real);
    lemma_row(
        0x3d64_25af,
        0xbe50_e560,
        0x3f87_4bc7,
        xyz,
        557real,
        -2040real,
        10570real,
        bound,
    );
}

/// The light of each primary of the display comes out in its own channel alone:
/// a color that is `r`, `g` and `b` parts of the primaries has these parts as
/// its channels, to within a five-hundredth.
pub proof fn lemma_primaries(xyz: Xyz, r: real, g: real, b: real)
    requires
        is_color(xyz, 1real),
        0real <= r <= 1real,
        0real <= g <= 1real,
        0real <= b <= 1real,
        size(10000real * number(xyz.x) - (4124real * r + 3576real * g + 1805real * b))
            <= 1real / 10real,
        size(10000real * number(xyz.y) - (2126real * r + 7152real * g + 722real * b))
            <= 1real / 10real,
        size(10000real * number(xyz.z) - (193real * r + 1192real * g + 9505real * b))
            <= 1real / 10real,
    ensures
        close(linear_srgb(xyz).x, r, 1real / 500real),
        close(linear_srgb(xyz).y, g, 1real / 500real),
        close(linear_srgb(xyz).z, b, 1real / 500real),
{
    lemma_srgb_matrix(xyz, 1real);
}

} // verus!
