//! CIE 1931 sensor: color-matching functions, illuminant spectra, integration
//! to XYZ, XYZ to linear sRGB, and tone mapping.
use crate::arith::from_u64;
use crate::arith::integral;
use crate::arith::lemma_integral_exact;
use crate::arith::lemma_integral_sum;
use crate::arith::NAN_BITS;
use crate::convert::lemma_encoding;
use crate::convert::one;
use crate::convert::saturated;
use crate::exact::number;
use crate::exposure::is_moderate;
use crate::optics::HALF_BITS;
use crate::order::lemma_integral_not_negative;
use crate::order::lemma_quotient_self;
use crate::primaries::is_color;
use crate::primaries::is_standard_srgb;
use crate::primaries::lemma_srgb_matrix;
use crate::relative::is_about;
use crate::scalar::lemma_magnitude_increases;
use crate::scalar::lemma_value_identifies;
use crate::scalar::Scalar;
use crate::scalar::ONE_BITS;
use crate::spectrum::lemma_band_integers;
use crate::spectrum::LAMBDA_MAX_BITS;
use crate::spectrum::LAMBDA_MIN_BITS;
use crate::supplied::evaluate;
use crate::supplied::result;
use crate::supplied::single_valued;
use crate::tone::lemma_chromaticity;
use vstd::arithmetic::power2::lemma2_to64;
use vstd::arithmetic::power2::lemma_pow2_adds;
use vstd::arithmetic::power2::lemma_pow2_pos;
use vstd::prelude::*;

verus! {

/// Encoding of 5, the step of the integration in nanometres.
pub const FIVE_BITS: u32 = 0x40a0_0000;

/// Encoding of 255.
pub const BYTE_MAX_BITS: u32 = 0x437f_0000;

/// Encoding of 0.0031308, up to which the sRGB curve is a line.
pub const SRGB_KNEE_BITS: u32 = 0x3b4d_2e1c;

/// Encoding of 12.92, the slope of that line.
pub const SRGB_SLOPE_BITS: u32 = 0x414e_b852;

/// Encoding of 1.055.
pub const SRGB_GAIN_BITS: u32 = 0x3f87_0a3d;

/// Encoding of 0.055.
pub const SRGB_OFFSET_BITS: u32 = 0x3d61_47ae;

/// Three channels: a tristimulus, or linear red, green and blue.
#[derive(Clone, Copy, Debug, PartialEq, Eq, Structural)]
pub struct Xyz {
    pub x: Scalar,
    pub y: Scalar,
    pub z: Scalar,
}

impl Xyz {
    pub open spec fn dark() -> Xyz {
        Xyz { x: Scalar { bits: 0 }, y: Scalar { bits: 0 }, z: Scalar { bits: 0 } }
    }

    pub open spec fn total(self, other: Xyz) -> Xyz {
        Xyz { x: self.x.sum(other.x), y: self.y.sum(other.y), z: self.z.sum(other.z) }
    }

    /// Every channel multiplied.
    pub open spec fn weighted(self, w: Scalar) -> Xyz {
        Xyz { x: self.x.product(w), y: self.y.product(w), z: self.z.product(w) }
    }

    /// Every channel divided.
    pub open spec fn shared(self, n: Scalar) -> Xyz {
        Xyz { x: self.x.quotient(n), y: self.y.quotient(n), z: self.z.quotient(n) }
    }

    pub fn black() -> (r: Xyz)
        ensures
            r == Xyz::dark(),
    {
        Xyz { x: Scalar { bits: 0 }, y: Scalar { bits: 0 }, z: Scalar { bits: 0 } }
    }

    pub fn plus(self, other: Xyz) -> (r: Xyz)
        ensures
            r == self.total(other),
    {
        Xyz { x: self.x.plus(other.x), y: self.y.plus(other.y), z: self.z.plus(other.z) }
    }

    pub fn times(self, w: Scalar) -> (r: Xyz)
        ensures
            r == self.weighted(w),
    {
        Xyz { x: self.x.times(w), y: self.y.times(w), z: self.z.times(w) }
    }

    pub fn over(self, n: Scalar) -> (r: Xyz)
        ensures
            r == self.shared(n),
    {
        Xyz { x: self.x.over(n), y: self.y.over(n), z: self.z.over(n) }
    }
}

#[derive(Clone, Copy, Debug, PartialEq, Eq, Structural)]
pub enum Illuminant {
    D65,
    A,
}

impl Illuminant {
    pub open spec fn code_spec(self) -> u32 {
        match self {
            Illuminant::D65 => 0,
            Illuminant::A => 1,
        }
    }

    /// The number by which the shaders know the illuminant.
    pub fn code(self) -> (r: u32)
        ensures
            r == self.code_spec(),
    {
        match self {
            Illuminant::D65 => 0,
            Illuminant::A => 1,
        }
    }
}

/// One line of a table: a wavelength, and up to three values. What is not
/// used is zero.
#[derive(Clone, Copy, Debug, PartialEq, Eq, Structural)]
pub struct Row {
    pub nm: Scalar,
    pub values: Xyz,
}

/// A curve sampled at uniform `step` from `start`.
#[derive(Debug)]
pub struct Table {
    start: Scalar,
    step: Scalar,
    values: Vec<Xyz>,
}

/// Start and step of a table.
pub struct Grid {
    pub start: Scalar,
    pub step: Scalar,
}

/// The grid that the first `n` rows give: the start is the first wavelength,
/// the step the distance of the second from it. A wavelength that is not a
/// number leaves the question to the next row.
pub open spec fn grid_of(rows: Seq<Row>, n: nat) -> Grid
    decreases n,
{
    if n == 0 {
        Grid { start: Scalar { bits: NAN_BITS }, step: Scalar { bits: NAN_BITS } }
    } else {
        let g = grid_of(rows, (n - 1) as nat);
        if g.start.nan() {
            Grid { start: rows[n - 1].nm, step: g.step }
        } else if g.step.nan() {
            Grid { start: g.start, step: rows[n - 1].nm.difference(rows[n - 2].nm) }
        } else {
            g
        }
    }
}

/// The row in the numbers of a line: a wavelength and `cols` values.
pub open spec fn row_of(numbers: Seq<Scalar>, cols: int) -> Row {
    let zero = Scalar { bits: 0 };
    Row {
        nm: numbers[0],
        values: Xyz {
            x: if cols > 0 {
                numbers[1]
            } else {
                zero
            },
            y: if cols > 1 {
                numbers[2]
            } else {
                zero
            },
            z: if cols > 2 {
                numbers[3]
            } else {
                zero
            },
        },
    }
}

pub open spec fn rows_of(cells: Seq<Vec<Scalar>>, cols: int) -> Seq<Row> {
    cells.map_values(|c: Vec<Scalar>| row_of(c@, cols))
}

/// The values that a row needs: those asked for, and never more than three.
pub open spec fn needed(cols: int) -> int {
    if cols < 3 {
        cols
    } else {
        3
    }
}

fn read_row(numbers: &Vec<Scalar>, cols: usize) -> (r: Row)
    requires
        numbers@.len() > needed(cols as int),
    ensures
        r == row_of(numbers@, cols as int),
{
    let mut values: Xyz = Xyz::black();
    if cols > 0 {
        values.x = numbers[1];
    }
    if cols > 1 {
        values.y = numbers[2];
    }
    if cols > 2 {
        values.z = numbers[3];
    }
    Row { nm: numbers[0], values }
}

/// Linear interpolation between two rows.
pub open spec fn between(a: Xyz, b: Xyz, frac: Scalar) -> Xyz {
    Xyz {
        x: a.x.sum(b.x.difference(a.x).product(frac)),
        y: a.y.sum(b.y.difference(a.y).product(frac)),
        z: a.z.sum(b.z.difference(a.z).product(frac)),
    }
}

/// The place of a wavelength on the grid, kept inside a table of `len` rows.
pub open spec fn position(grid: Grid, len: nat, nm: Scalar) -> Scalar {
    nm.difference(grid.start).quotient(grid.step).clamped(Scalar { bits: 0 }, integral(len - 1))
}

/// The integer part of a place that is not negative.
pub open spec fn whole_part(f: Scalar) -> int {
    if f.nan() || f.value() < 0 {
        0
    } else {
        saturated(f.floor_value())
    }
}

/// The curve at a wavelength: interpolated between the two rows around it, and
/// the last row at its end.
pub open spec fn curve(grid: Grid, values: Seq<Xyz>, nm: Scalar) -> Xyz {
    let f = position(grid, values.len(), nm);
    let i = whole_part(f);
    if i + 1 >= values.len() {
        values.last()
    } else {
        between(values[i], values[i + 1], f.difference(integral(i)))
    }
}

impl Table {
    pub closed spec fn grid(self) -> Grid {
        Grid { start: self.start, step: self.step }
    }

    pub closed spec fn samples(self) -> Seq<Xyz> {
        self.values@
    }

    /// The curve at a wavelength.
    pub open spec fn at(self, nm: Scalar) -> Xyz {
        curve(self.grid(), self.samples(), nm)
    }

    /// The table of the rows of a text.
    pub fn from_rows(rows: &Vec<Row>) -> (r: Self)
        ensures
            r.samples() == rows@.map_values(|row: Row| row.values),
            r.grid() == grid_of(rows@, rows@.len()),
    {
        let mut start: Scalar = Scalar { bits: NAN_BITS };
        let mut step: Scalar = Scalar { bits: NAN_BITS };
        let mut last_nm: Scalar = Scalar { bits: NAN_BITS };
        let mut values: Vec<Xyz> = Vec::new();
        let mut k: usize = 0;
        while k < rows.len()
            invariant
                k <= rows@.len(),
                values@ == rows@.take(k as int).map_values(|row: Row| row.values),
                start == grid_of(rows@, k as nat).start,
                step == grid_of(rows@, k as nat).step,
                k > 0 ==> last_nm == rows@[k - 1].nm,
                k == 0 ==> start.nan(),
            decreases rows@.len() - k,
        {
            let row: Row = rows[k];
            if start.is_nan() {
                start = row.nm;
            } else if step.is_nan() {
                step = row.nm.minus(last_nm);
            }
            last_nm = row.nm;
            values.push(row.values);
            k = k + 1;
            assert(values@ =~= rows@.take(k as int).map_values(|row: Row| row.values));
        }
        assert(rows@.take(k as int) =~= rows@);
        Table { start, step, values }
    }

    /// The table in the numbers of a text's cells: each row a wavelength and
    /// then `cols` values, of which three at most are read. `None` if a row is
    /// shorter.
    pub fn parse(cells: &Vec<Vec<Scalar>>, cols: usize) -> (r: Option<Self>)
        ensures
            r is Some <==> forall|i: int|
                0 <= i < cells@.len() ==> (#[trigger] cells@[i])@.len() > needed(cols as int),
            r matches Some(table) ==> table.samples() == cells@.map_values(
                |c: Vec<Scalar>| row_of(c@, cols as int).values,
            ) && table.grid() == grid_of(rows_of(cells@, cols as int), cells@.len()),
    {
        let least: usize = if cols < 3 {
            cols
        } else {
            3
        };
        let mut rows: Vec<Row> = Vec::new();
        let mut k: usize = 0;
        while k < cells.len()
            invariant
                k <= cells@.len(),
                least == needed(cols as int),
                rows@ == rows_of(cells@.take(k as int), cols as int),
                forall|i: int| 0 <= i < k ==> (#[trigger] cells@[i])@.len() > least,
            decreases cells@.len() - k,
        {
            if cells[k].len() <= least {
                return None;
            }
            rows.push(read_row(&cells[k], cols));
            k = k + 1;
            assert(rows@ =~= rows_of(cells@.take(k as int), cols as int));
        }
        assert(cells@.take(k as int) =~= cells@);
        let table: Table = Self::from_rows(&rows);
        assert(table.samples() =~= cells@.map_values(
            |c: Vec<Scalar>| row_of(c@, cols as int).values,
        ));
        Some(table)
    }

    /// The value at a wavelength.
    pub fn sample(&self, nm: Scalar) -> (r: Xyz)
        requires
            self.samples().len() > 0,
        ensures
            r == self.at(nm),
    {
        let zero: Scalar = Scalar { bits: 0 };
        let len: usize = self.values.len();
        let high: Scalar = from_u64((len - 1) as u64);
        proof {
            lemma_integral_not_negative(len - 1);
        }
        let f: Scalar = nm.minus(self.start).over(self.step).clamp(zero, high);
        let i: u64 = f.to_index();
        let frac: Scalar = f.minus(from_u64(i));
        if i + 1 >= len as u64 {
            return self.values[len - 1];
        }
        let a: Xyz = self.values[i as usize];
        let b: Xyz = self.values[i as usize + 1];
        Xyz {
            x: a.x.plus(b.x.minus(a.x).times(frac)),
            y: a.y.plus(b.y.minus(a.y).times(frac)),
            z: a.z.plus(b.z.minus(a.z).times(frac)),
        }
    }
}

/// The sensor: the color-matching functions, and the spectra of two
/// illuminants in the first column of their tables.
#[derive(Debug)]
pub struct Sensor {
    cmf: Table,
    d65: Table,
    a: Table,
}

/// The running sums of an integration over the band.
pub struct Integral {
    pub xyz: Xyz,
    pub k: Scalar,
}

impl Sensor {
    pub closed spec fn cmf_table(self) -> Table {
        self.cmf
    }

    pub closed spec fn illuminant_table(self, ill: Illuminant) -> Table {
        match ill {
            Illuminant::D65 => self.d65,
            Illuminant::A => self.a,
        }
    }

    /// Every table has a row.
    pub open spec fn loaded(self) -> bool {
        &&& self.cmf_table().samples().len() > 0
        &&& self.illuminant_table(Illuminant::D65).samples().len() > 0
        &&& self.illuminant_table(Illuminant::A).samples().len() > 0
    }

    /// The color-matching functions at a wavelength.
    pub open spec fn matching(self, nm: Scalar) -> Xyz {
        self.cmf_table().at(nm)
    }

    /// The illuminant's power at a wavelength.
    pub open spec fn power(self, ill: Illuminant, nm: Scalar) -> Scalar {
        self.illuminant_table(ill).at(nm).x
    }

    /// A sensor with the given tables; none if one of them is empty.
    pub fn new(cmf: Table, d65: Table, a: Table) -> (r: Option<Self>)
        ensures
            r is Some <==> cmf.samples().len() > 0 && d65.samples().len() > 0
                && a.samples().len() > 0,
            r matches Some(s) ==> s.loaded() && s.cmf_table() == cmf && s.illuminant_table(
                Illuminant::D65,
            ) == d65 && s.illuminant_table(Illuminant::A) == a,
    {
        if cmf.values.len() == 0 || d65.values.len() == 0 || a.values.len() == 0 {
            None
        } else {
            Some(Sensor { cmf, d65, a })
        }
    }

    pub fn cmf(&self, nm: Scalar) -> (r: Xyz)
        requires
            self.loaded(),
        ensures
            r == self.matching(nm),
    {
        self.cmf.sample(nm)
    }

    pub fn illuminant(&self, ill: Illuminant, nm: Scalar) -> (r: Scalar)
        requires
            self.loaded(),
        ensures
            r == self.power(ill, nm),
    {
        match ill {
            Illuminant::D65 => self.d65.sample(nm).x,
            Illuminant::A => self.a.sample(nm).x,
        }
    }

    /// The sums over the first `n` wavelengths, from 380 in steps of 5.
    pub open spec fn integrated(self, ill: Illuminant, n: nat) -> Integral
        decreases n,
    {
        if n == 0 {
            Integral { xyz: Xyz::dark(), k: Scalar { bits: 0 } }
        } else {
            let before = self.integrated(ill, (n - 1) as nat);
            let nm = integral(380 + 5 * (n - 1));
            let s = self.power(ill, nm);
            let m = self.matching(nm);
            let step = Scalar { bits: FIVE_BITS };
            let y = s.product(m.y).product(step);
            Integral {
                xyz: Xyz {
                    x: before.xyz.x.sum(s.product(m.x).product(step)),
                    y: before.xyz.y.sum(y),
                    z: before.xyz.z.sum(s.product(m.z).product(step)),
                },
                k: before.k.sum(y),
            }
        }
    }

    /// The tristimulus of a perfect white under `ill`, with luminance one: the
    /// sums over the 71 wavelengths of the band, over that of the luminance.
    pub fn integrate_illuminant(&self, ill: Illuminant) -> (r: Xyz)
        requires
            self.loaded(),
        ensures
            r == self.integrated(ill, 71).xyz.shared(self.integrated(ill, 71).k),
    {
        let step: Scalar = Scalar { bits: FIVE_BITS };
        let mut xyz: Xyz = Xyz::black();
        let mut k: Scalar = Scalar { bits: 0 };
        let mut nm: Scalar = Scalar { bits: LAMBDA_MIN_BITS };
        let ghost mut n: nat = 0;
        proof {
            lemma_band_integers();
            lemma_step_integer();
            lemma_band_step(0);
        }
        let last: Scalar = Scalar { bits: LAMBDA_MAX_BITS };
        while nm.le(last)
            invariant
                self.loaded(),
                last == (Scalar { bits: LAMBDA_MAX_BITS }),
                n <= 71,
                step == (Scalar { bits: FIVE_BITS }),
                nm == integral(380 + 5 * (n as int)),
                n < 71 <==> nm.at_most(Scalar { bits: LAMBDA_MAX_BITS }),
                xyz == self.integrated(ill, n).xyz,
                k == self.integrated(ill, n).k,
            decreases 71 - n,
        {
            let s: Scalar = self.illuminant(ill, nm);
            let m: Xyz = self.cmf(nm);
            let y: Scalar = s.times(m.y).times(step);
            xyz = Xyz {
                x: xyz.x.plus(s.times(m.x).times(step)),
                y: xyz.y.plus(y),
                z: xyz.z.plus(s.times(m.z).times(step)),
            };
            k = k.plus(y);
            proof {
                lemma_step_integer();
                lemma_integral_sum(380 + 5 * (n as int), 5);
                n = n + 1;
                lemma_band_step(n as int);
            }
            nm = nm.plus(step);
        }
        xyz.over(k)
    }
}

/// The luminance of white and the sum that it is divided by are the same.
proof fn lemma_luminance_sum(sensor: Sensor, ill: Illuminant, n: nat)
    ensures
        sensor.integrated(ill, n).xyz.y == sensor.integrated(ill, n).k,
    decreases n,
{
    if n > 0 {
        lemma_luminance_sum(sensor, ill, (n - 1) as nat);
    }
}

/// White has luminance one, whatever the illuminant, unless its power sums to
/// nothing or beyond all numbers.
pub proof fn lemma_white_luminance(sensor: Sensor, ill: Illuminant)
    requires
        sensor.integrated(ill, 71).k.finite(),
        sensor.integrated(ill, 71).k.value() != 0,
    ensures
        sensor.integrated(ill, 71).xyz.shared(sensor.integrated(ill, 71).k).y == (Scalar {
            bits: ONE_BITS,
        }),
{
    lemma_luminance_sum(sensor, ill, 71);
    lemma_quotient_self(sensor.integrated(ill, 71).k);
}

/// The step of the integration is the integer that it encodes.
proof fn lemma_step_integer()
    ensures
        (Scalar { bits: FIVE_BITS }) == integral(5),
{
    lemma2_to64();
    lemma_pow2_adds(21, 128);
    lemma_pow2_pos(149);
    lemma_integral_exact(5);
    lemma_encoding(129, 0xa0_0000);
    lemma_value_identifies(Scalar { bits: FIVE_BITS }, integral(5));
}

/// Wavelength `n` of the integration lies in the band for `n` up to 70.
proof fn lemma_band_step(n: int)
    requires
        0 <= n <= 71,
    ensures
        n < 71 <==> integral(380 + 5 * n).at_most(Scalar { bits: LAMBDA_MAX_BITS }),
{
    lemma_band_integers();
    lemma_integral_exact(380 + 5 * n);
    lemma_integral_exact(730);
    lemma_pow2_pos(149);
    let a: int = 380 + 5 * n;
    assert(a * one() <= 730 * one() <==> a <= 730) by (nonlinear_arith)
        requires
            one() > 0,
    ;
}

/// The chromaticity coordinates of a tristimulus.
pub fn chromaticity(xyz: Xyz) -> (r: (Scalar, Scalar))
    ensures
        ({
            let total = xyz.x.sum(xyz.y).sum(xyz.z);
            r == (xyz.x.quotient(total), xyz.y.quotient(total))
        }),
        is_moderate(xyz.x) && is_moderate(xyz.y) && is_moderate(xyz.z) ==> {
            let sum = number(xyz.x) + number(xyz.y) + number(xyz.z);
            &&& is_about(r.0, number(xyz.x) / sum, 1real / 100000real)
            &&& is_about(r.1, number(xyz.y) / sum, 1real / 100000real)
        },
{
    proof {
        if is_moderate(xyz.x) && is_moderate(xyz.y) && is_moderate(xyz.z) {
            lemma_chromaticity(xyz);
        }
    }
    let total: Scalar = xyz.x.plus(xyz.y).plus(xyz.z);
    (xyz.x.over(total), xyz.y.over(total))
}

/// A row of the matrix applied: `a x + b y + c z`, with `b` and `c` signed.
pub open spec fn combined(a: u32, b: u32, c: u32, xyz: Xyz) -> Scalar {
    (Scalar { bits: a }).product(xyz.x).sum((Scalar { bits: b }).product(xyz.y)).sum(
        (Scalar { bits: c }).product(xyz.z),
    )
}

/// Linear sRGB of a tristimulus under D65.
pub open spec fn linear_srgb(xyz: Xyz) -> Xyz {
    Xyz {
        x: combined(0x404f_65fe, 0xbfc4_c2f8, 0xbeff_4880, xyz),
        y: combined(0xbf78_09d5, 0x3ff0_1a37, 0x3d29_fbe7, xyz),
        z: combined(0x3d64_25af, 0xbe50_e560, 0x3f87_4bc7, xyz),
    }
}

fn combine(a: u32, b: u32, c: u32, xyz: Xyz) -> (r: Scalar)
    ensures
        r == combined(a, b, c, xyz),
{
    (Scalar { bits: a }).times(xyz.x).plus((Scalar { bits: b }).times(xyz.y)).plus(
        (Scalar { bits: c }).times(xyz.z),
    )
}

/// XYZ under D65 to linear sRGB, by the standard matrix.
pub fn xyz_to_linear_srgb(xyz: Xyz) -> (r: Xyz)
    ensures
        r == linear_srgb(xyz),
        forall|bound: real| #[trigger] is_color(xyz, bound) ==> is_standard_srgb(xyz, r, bound),
{
    proof {
        assert forall|bound: real| #[trigger] is_color(xyz, bound) implies is_standard_srgb(
            xyz,
            linear_srgb(xyz),
            bound,
        ) by {
            lemma_srgb_matrix(xyz, bound);
        }
    }
    Xyz {
        x: combine(0x404f_65fe, 0xbfc4_c2f8, 0xbeff_4880, xyz),
        y: combine(0xbf78_09d5, 0x3ff0_1a37, 0x3d29_fbe7, xyz),
        z: combine(0x3d64_25af, 0xbe50_e560, 0x3f87_4bc7, xyz),
    }
}

/// The exposed channel, pressed into `[0, 1)` by `v / (1 + v)`.
pub open spec fn pressed(channel: Scalar, exposure: Scalar) -> Scalar {
    let v = channel.product(exposure).larger(Scalar { bits: 0 });
    v.quotient((Scalar { bits: ONE_BITS }).sum(v))
}

/// The sRGB encoding of a linear value: a line up to the knee, a power above.
pub open spec fn encoded<F: Fn(Scalar) -> Scalar>(mapped: Scalar, root: F) -> Scalar {
    if mapped.at_most(Scalar { bits: SRGB_KNEE_BITS }) {
        (Scalar { bits: SRGB_SLOPE_BITS }).product(mapped)
    } else {
        (Scalar { bits: SRGB_GAIN_BITS }).product(result(root, mapped)).difference(
            Scalar { bits: SRGB_OFFSET_BITS },
        )
    }
}

/// A value of `[0, 1]` on the scale of a byte, rounded.
pub open spec fn byte_value(gamma: Scalar) -> int {
    let v = whole_part(
        gamma.clamped(Scalar { bits: 0 }, Scalar { bits: ONE_BITS }).product(
            Scalar { bits: BYTE_MAX_BITS },
        ).sum(Scalar { bits: HALF_BITS }),
    );
    if v > 255 {
        255
    } else {
        v
    }
}

/// The byte of one channel.
pub fn channel_to_u8<F: Fn(Scalar) -> Scalar>(
    channel: Scalar,
    exposure: Scalar,
    root: &F,
) -> (r: u8)
    requires
        single_valued(*root),
    ensures
        r == byte_value(encoded(pressed(channel, exposure), *root)),
{
    let zero: Scalar = Scalar { bits: 0 };
    let unit: Scalar = Scalar { bits: ONE_BITS };
    let v: Scalar = channel.times(exposure).max(zero);
    let mapped: Scalar = v.over(unit.plus(v));
    let gamma: Scalar = if mapped.le(Scalar { bits: SRGB_KNEE_BITS }) {
        (Scalar { bits: SRGB_SLOPE_BITS }).times(mapped)
    } else {
        (Scalar { bits: SRGB_GAIN_BITS }).times(evaluate(root, mapped)).minus(
            Scalar { bits: SRGB_OFFSET_BITS },
        )
    };
    proof {
        lemma_magnitude_increases(0, ONE_BITS as int);
    }
    let byte: u64 = gamma.clamp(zero, unit).times(Scalar { bits: BYTE_MAX_BITS }).plus(
        Scalar { bits: HALF_BITS },
    ).to_index();
    if byte > 255 {
        255
    } else {
        byte as u8
    }
}

/// Reinhard tone mapping and sRGB encoding of three channels to bytes. `root`
/// raises a number to the power of 1 / 2.4.
pub fn tonemap_to_u8<F: Fn(Scalar) -> Scalar>(
    linear: Xyz,
    exposure: Scalar,
    root: &F,
) -> (r: [u8; 3])
    requires
        single_valued(*root),
    ensures
        r[0] == byte_value(encoded(pressed(linear.x, exposure), *root)),
        r[1] == byte_value(encoded(pressed(linear.y, exposure), *root)),
        r[2] == byte_value(encoded(pressed(linear.z, exposure), *root)),
{
    [
        channel_to_u8(linear.x, exposure, root),
        channel_to_u8(linear.y, exposure, root),
        channel_to_u8(linear.z, exposure, root),
    ]
}

} // verus!
