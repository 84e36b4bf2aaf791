//! Transverse splatting: a color spread over a tent-shaped footprint whose
//! weights are normalised over the pixels it covers, so that a footprint cut
//! off by the edge of the image loses nothing.
use crate::arith::absolute;
use crate::arith::from_u64;
use crate::arith::integral;
use crate::cie::whole_part;
use crate::cie::Xyz;
use crate::convert::one;
use crate::convert::saturated;
use crate::error::is_weight;
use crate::error::lemma_reciprocal;
use crate::error::lemma_rest_is_weight;
use crate::error::lemma_share;
use crate::error::lemma_shares_make_one;
use crate::error::lemma_tracks_step;
use crate::error::tracks;
use crate::lighttrace::splatted;
use crate::optics::HALF_BITS;
use crate::order::lemma_quotient_not_negative;
use crate::order::lemma_root_sign;
use crate::scalar::lemma_magnitude_increases;
use crate::scalar::lemma_magnitude_sign;
use crate::scalar::Scalar;
use crate::scalar::ONE_BITS;
use vstd::arithmetic::power2::lemma_pow2_pos;
use vstd::arithmetic::power2::pow2;
use vstd::prelude::*;

verus! {

/// The footprint of a splat: its centre in pixels, its radius, and the
/// rectangle of pixels around it.
#[derive(Clone, Copy, Debug, PartialEq, Eq, Structural)]
pub struct Footprint {
    pub cx: Scalar,
    pub cy: Scalar,
    pub r: Scalar,
    pub x0: u64,
    pub x1: u64,
    pub y0: u64,
    pub y1: u64,
}

/// An integer moved into `[0, n - 1]`.
pub open spec fn inside(i: int, n: int) -> int {
    if i < 0 {
        0
    } else if i > n - 1 {
        n - 1
    } else {
        i
    }
}

/// The ceiling as an integer; zero for what is not a number.
pub open spec fn ceiling(x: Scalar) -> int {
    if x.nan() {
        0
    } else {
        saturated(x.ceil_value())
    }
}

/// The nearest integer; zero for what is not a number.
pub open spec fn nearest_integer(x: Scalar) -> int {
    if x.nan() {
        0
    } else {
        saturated(x.round_value())
    }
}

/// The footprint at `s` across and `t` up an image, at least half a pixel in
/// radius.
pub open spec fn footprint_at(
    width: int,
    height: int,
    s: Scalar,
    t: Scalar,
    radius: Scalar,
) -> Footprint {
    let half = Scalar { bits: HALF_BITS };
    let cx = s.product(integral(width)).difference(half);
    let cy = (Scalar { bits: ONE_BITS }).difference(t).product(integral(height)).difference(half);
    let r = radius.larger(half);
    Footprint {
        cx,
        cy,
        r,
        x0: whole_part(cx.difference(r)) as u64,
        x1: inside(ceiling(cx.sum(r)), width) as u64,
        y0: whole_part(cy.difference(r)) as u64,
        y1: inside(ceiling(cy.sum(r)), height) as u64,
    }
}

/// The squared distance of a pixel from the centre, along one axis.
pub open spec fn offset_square(p: int, c: Scalar) -> Scalar {
    let d = integral(p).difference(c);
    d.product(d)
}

impl Footprint {
    /// The rectangle ends inside the image.
    pub open spec fn well_formed(self, width: int, height: int) -> bool {
        self.x1 < width && self.y1 < height
    }

    /// The number of columns and of rows of the rectangle.
    pub open spec fn columns(self) -> nat {
        if self.x1 < self.x0 {
            0
        } else {
            (self.x1 - self.x0 + 1) as nat
        }
    }

    pub open spec fn rows(self) -> nat {
        if self.y1 < self.y0 {
            0
        } else {
            (self.y1 - self.y0 + 1) as nat
        }
    }

    /// The tent at a pixel: one at the centre, zero from the radius on.
    pub open spec fn tent(self, px: int, py: int) -> Scalar {
        let dist = offset_square(px, self.cx).sum(offset_square(py, self.cy)).square_root();
        (Scalar { bits: ONE_BITS }).difference(dist.quotient(self.r)).larger(Scalar { bits: 0 })
    }

    /// The sum of the tent over the first `n` pixels of a row, added to `acc`.
    pub open spec fn row_weight(self, acc: Scalar, py: int, n: nat) -> Scalar
        decreases n,
    {
        if n == 0 {
            acc
        } else {
            self.row_weight(acc, py, (n - 1) as nat).sum(self.tent(self.x0 + n - 1, py))
        }
    }

    /// The sum of the tent over the first `n` rows.
    pub open spec fn weight(self, n: nat) -> Scalar
        decreases n,
    {
        if n == 0 {
            Scalar { bits: 0 }
        } else {
            self.row_weight(self.weight((n - 1) as nat), self.y0 + n - 1, self.columns())
        }
    }

    /// The image after the color, weighted by the tent times `inv`, has been
    /// added to the first `n` pixels of a row. A pixel without weight is left
    /// alone.
    pub open spec fn row_spread(
        self,
        image: Seq<Xyz>,
        width: int,
        color: Xyz,
        inv: Scalar,
        py: int,
        n: nat,
    ) -> Seq<Xyz>
        decreases n,
    {
        if n == 0 {
            image
        } else {
            let before = self.row_spread(image, width, color, inv, py, (n - 1) as nat);
            let px = self.x0 + n - 1;
            let w = self.tent(px, py).product(inv);
            if (Scalar { bits: 0 }).below(w) {
                splatted(before, py * width + px, color.weighted(w))
            } else {
                before
            }
        }
    }

    /// The image after the first `n` rows.
    pub open spec fn spread(
        self,
        image: Seq<Xyz>,
        width: int,
        color: Xyz,
        inv: Scalar,
        n: nat,
    ) -> Seq<Xyz>
        decreases n,
    {
        if n == 0 {
            image
        } else {
            self.row_spread(
                self.spread(image, width, color, inv, (n - 1) as nat),
                width,
                color,
                inv,
                self.y0 + n - 1,
                self.columns(),
            )
        }
    }

    /// The image after the splat. Where the tent has no weight at all, the
    /// pixel nearest the centre takes the whole color.
    pub open spec fn splat(self, image: Seq<Xyz>, width: int, height: int, color: Xyz) -> Seq<Xyz> {
        let total = self.weight(self.rows());
        if total.at_most(Scalar { bits: 0 }) {
            splatted(
                image,
                inside(nearest_integer(self.cy), height) * width + inside(
                    nearest_integer(self.cx),
                    width,
                ),
                color,
            )
        } else {
            self.spread(
                image,
                width,
                color,
                (Scalar { bits: ONE_BITS }).quotient(total),
                self.rows(),
            )
        }
    }

    /// The tent over the columns of a row.
    pub open spec fn row_tents(self, py: int) -> Seq<Scalar> {
        Seq::new(self.columns(), |k: int| self.tent(self.x0 + k, py))
    }

    fn column_squares(&self) -> (r: Vec<Scalar>)
        requires
            self.x1 < u64::MAX,
        ensures
            r@ == Seq::new(self.columns(), |k: int| offset_square(self.x0 + k, self.cx)),
    {
        let mut out: Vec<Scalar> = Vec::new();
        let mut px: u64 = self.x0;
        while px <= self.x1
            invariant
                self.x1 < u64::MAX,
                self.x0 <= px,
                px == self.x0 || px <= self.x1 + 1,
                out@ == Seq::new(
                    (px - self.x0) as nat,
                    |k: int| offset_square(self.x0 + k, self.cx),
                ),
            decreases self.x1 + 1 - px,
        {
            let d: Scalar = from_u64(px).minus(self.cx);
            out.push(d.times(d));
            px = px + 1;
            assert(out@ =~= Seq::new(
                (px - self.x0) as nat,
                |k: int| offset_square(self.x0 + k, self.cx),
            ));
        }
        out
    }

    fn tents_of_row(&self, squares: &Vec<Scalar>, py: u64) -> (r: Vec<Scalar>)
        requires
            squares@ == Seq::new(self.columns(), |k: int| offset_square(self.x0 + k, self.cx)),
        ensures
            r@ == self.row_tents(py as int),
    {
        let full: Scalar = Scalar { bits: ONE_BITS };
        let d: Scalar = from_u64(py).minus(self.cy);
        let dd: Scalar = d.times(d);
        let mut out: Vec<Scalar> = Vec::new();
        let mut k: usize = 0;
        while k < squares.len()
            invariant
                k <= squares@.len(),
                squares@ == Seq::new(
                    self.columns(),
                    |k: int| offset_square(self.x0 + k, self.cx),
                ),
                dd == offset_square(py as int, self.cy),
                full == (Scalar { bits: ONE_BITS }),
                out@ == self.row_tents(py as int).take(k as int),
            decreases squares@.len() - k,
        {
            let dist: Scalar = squares[k].plus(dd).sqrt();
            out.push(full.minus(dist.over(self.r)).max(Scalar { bits: 0 }));
            k = k + 1;
            assert(out@ =~= self.row_tents(py as int).take(k as int));
        }
        assert(out@ =~= self.row_tents(py as int));
        out
    }

    fn add_row_weight(&self, start: Scalar, row: &Vec<Scalar>, py: u64) -> (acc: Scalar)
        requires
            row@ == self.row_tents(py as int),
        ensures
            acc == self.row_weight(start, py as int, self.columns()),
    {
        let mut acc: Scalar = start;
        let mut k: usize = 0;
        while k < row.len()
            invariant
                k <= row@.len(),
                row@ == self.row_tents(py as int),
                acc == self.row_weight(start, py as int, k as nat),
            decreases row@.len() - k,
        {
            acc = acc.plus(row[k]);
            k = k + 1;
        }
        acc
    }

    /// The sum of the tent, and the tent itself, row by row.
    fn total_weight(&self) -> (r: (Scalar, Vec<Vec<Scalar>>))
        requires
            self.x1 < u64::MAX,
            self.y1 < u64::MAX,
        ensures
            r.0 == self.weight(self.rows()),
            r.1@.len() == self.rows(),
            forall|y: int|
                0 <= y < r.1@.len() ==> (#[trigger] r.1@[y])@ == self.row_tents(self.y0 + y),
    {
        let squares: Vec<Scalar> = self.column_squares();
        let mut acc: Scalar = Scalar { bits: 0 };
        let mut tents: Vec<Vec<Scalar>> = Vec::new();
        let mut py: u64 = self.y0;
        while py <= self.y1
            invariant
                self.x1 < u64::MAX,
                self.y1 < u64::MAX,
                self.y0 <= py,
                py == self.y0 || py <= self.y1 + 1,
                squares@ == Seq::new(
                    self.columns(),
                    |k: int| offset_square(self.x0 + k, self.cx),
                ),
                acc == self.weight((py - self.y0) as nat),
                tents@.len() == py - self.y0,
                forall|y: int|
                    0 <= y < tents@.len() ==> (#[trigger] tents@[y])@ == self.row_tents(
                        self.y0 + y,
                    ),
            decreases self.y1 + 1 - py,
        {
            let row: Vec<Scalar> = self.tents_of_row(&squares, py);
            acc = self.add_row_weight(acc, &row, py);
            tents.push(row);
            py = py + 1;
        }
        (acc, tents)
    }

    fn spread_row(
        &self,
        image: &mut Vec<Xyz>,
        width: usize,
        height: usize,
        color: Xyz,
        inv: Scalar,
        row: &Vec<Scalar>,
        py: u64,
    )
        requires
            self.well_formed(width as int, height as int),
            old(image)@.len() == width * height,
            width * height <= usize::MAX,
            py < height,
            row@ == self.row_tents(py as int),
        ensures
            final(image)@.len() == old(image)@.len(),
            final(image)@ == self.row_spread(
                old(image)@,
                width as int,
                color,
                inv,
                py as int,
                self.columns(),
            ),
    {
        let zero: Scalar = Scalar { bits: 0 };
        let mut k: usize = 0;
        while k < row.len()
            invariant
                self.well_formed(width as int, height as int),
                width * height <= usize::MAX,
                py < height,
                zero == (Scalar { bits: 0 }),
                k <= row@.len(),
                row@ == self.row_tents(py as int),
                image@.len() == width * height,
                image@ == self.row_spread(
                    old(image)@,
                    width as int,
                    color,
                    inv,
                    py as int,
                    k as nat,
                ),
            decreases row@.len() - k,
        {
            let w: Scalar = row[k].times(inv);
            if w.gt(zero) {
                let px: u64 = self.x0 + k as u64;
                proof {
                    lemma_index_in_image(px as int, py as int, width as int, height as int);
                }
                let i: usize = py as usize * width + px as usize;
                let value: Xyz = image[i].plus(color.times(w));
                image[i] = value;
            }
            k = k + 1;
        }
    }

    fn spread_rows(
        &self,
        image: &mut Vec<Xyz>,
        width: usize,
        height: usize,
        color: Xyz,
        inv: Scalar,
        tents: &Vec<Vec<Scalar>>,
    )
        requires
            self.well_formed(width as int, height as int),
            old(image)@.len() == width * height,
            width * height <= usize::MAX,
            tents@.len() == self.rows(),
            forall|y: int|
                0 <= y < tents@.len() ==> (#[trigger] tents@[y])@ == self.row_tents(self.y0 + y),
        ensures
            final(image)@.len() == old(image)@.len(),
            final(image)@ == self.spread(old(image)@, width as int, color, inv, self.rows()),
    {
        let mut k: usize = 0;
        while k < tents.len()
            invariant
                self.well_formed(width as int, height as int),
                width * height <= usize::MAX,
                k <= tents@.len() == self.rows(),
                forall|y: int|
                    0 <= y < tents@.len() ==> (#[trigger] tents@[y])@ == self.row_tents(
                        self.y0 + y,
                    ),
                image@.len() == old(image)@.len() == width * height,
                image@ == self.spread(old(image)@, width as int, color, inv, k as nat),
            decreases tents@.len() - k,
        {
            self.spread_row(image, width, height, color, inv, &tents[k], self.y0 + k as u64);
            k = k + 1;
        }
    }
}

/// The index of a pixel of the image.
pub proof fn lemma_index_in_image(px: int, py: int, width: int, height: int)
    requires
        0 <= px < width,
        0 <= py < height,
    ensures
        0 <= py * width + px < width * height,
        0 <= py * width <= width * height,
{
    assert(0 <= py * width && py * width + width <= width * height) by (nonlinear_arith)
        requires
            0 <= py,
            py + 1 <= height,
            width > 0,
    ;
}

fn clamp_index(i: i64, n: usize) -> (r: usize)
    requires
        n > 0,
    ensures
        r == inside(i as int, n as int),
        r < n,
{
    if i < 0 {
        0
    } else if i as u64 > (n - 1) as u64 {
        n - 1
    } else {
        i as usize
    }
}

/// The footprint of a splat at `s` across and `t` up an image.
pub fn footprint(
    width: usize,
    height: usize,
    s: Scalar,
    t: Scalar,
    radius: Scalar,
) -> (f: Footprint)
    requires
        width > 0,
        height > 0,
    ensures
        f == footprint_at(width as int, height as int, s, t, radius),
        f.well_formed(width as int, height as int),
        (Scalar { bits: 0 }).below(f.r),
{
    proof {
        lemma_magnitude_increases(0, HALF_BITS as int);
    }
    let half: Scalar = Scalar { bits: HALF_BITS };
    let cx: Scalar = s.times(from_u64(width as u64)).minus(half);
    let cy: Scalar = (Scalar { bits: ONE_BITS }).minus(t).times(from_u64(height as u64)).minus(
        half,
    );
    let r: Scalar = radius.max(half);
    Footprint {
        cx,
        cy,
        r,
        x0: cx.minus(r).to_index(),
        x1: clamp_index(cx.plus(r).ceil_i64(), width) as u64,
        y0: cy.minus(r).to_index(),
        y1: clamp_index(cy.plus(r).ceil_i64(), height) as u64,
    }
}

/// The image with a color splatted at `s` across and `t` up, over a tent of
/// the given radius in pixels.
pub open spec fn transverse_splat(
    image: Seq<Xyz>,
    width: int,
    height: int,
    s: Scalar,
    t: Scalar,
    color: Xyz,
    radius: Scalar,
) -> Seq<Xyz> {
    footprint_at(width, height, s, t, radius).splat(image, width, height, color)
}

/// Splats a color onto an image.
pub fn splat_transverse(
    image: &mut Vec<Xyz>,
    width: usize,
    height: usize,
    s: Scalar,
    t: Scalar,
    color: Xyz,
    radius_px: Scalar,
)
    requires
        width > 0,
        height > 0,
        width * height <= usize::MAX,
        old(image)@.len() == width * height,
    ensures
        final(image)@.len() == old(image)@.len(),
        final(image)@ == transverse_splat(
            old(image)@,
            width as int,
            height as int,
            s,
            t,
            color,
            radius_px,
        ),
{
    let f: Footprint = footprint(width, height, s, t, radius_px);
    let (total, tents): (Scalar, Vec<Vec<Scalar>>) = f.total_weight();
    if total.le(Scalar { bits: 0 }) {
        let px: usize = clamp_index(f.cx.round_i64(), width);
        let py: usize = clamp_index(f.cy.round_i64(), height);
        proof {
            lemma_index_in_image(px as int, py as int, width as int, height as int);
        }
        let i: usize = py * width + px;
        let value: Xyz = image[i].plus(color);
        image[i] = value;
    } else {
        let inv: Scalar = (Scalar { bits: ONE_BITS }).over(total);
        f.spread_rows(image, width, height, color, inv, &tents);
    }
}

impl Footprint {
    /// A splat changes only pixels of its rectangle, in the rows it has been
    /// spread over.
    pub proof fn lemma_spread_local(
        self,
        image: Seq<Xyz>,
        width: int,
        height: int,
        color: Xyz,
        inv: Scalar,
        n: nat,
    )
        requires
            self.well_formed(width, height),
            image.len() == width * height,
            width >= 0,
            n <= self.rows(),
        ensures
            self.spread(image, width, color, inv, n).len() == image.len(),
            forall|x: int, y: int|
                #![trigger image[y * width + x]]
                0 <= x < width && 0 <= y < height && !(self.x0 <= x <= self.x1 && self.y0 <= y
                    < self.y0 + n) ==> self.spread(image, width, color, inv, n)[y * width + x]
                    == image[y * width + x],
        decreases n,
    {
        if n > 0 {
            let before = self.spread(image, width, color, inv, (n - 1) as nat);
            self.lemma_spread_local(image, width, height, color, inv, (n - 1) as nat);
            let py: int = self.y0 + n - 1;
            self.lemma_row_local(before, width, height, color, inv, py, self.columns());
            assert forall|x: int, y: int|
                #![trigger image[y * width + x]]
                0 <= x < width && 0 <= y < height && !(self.x0 <= x <= self.x1 && self.y0 <= y
                    < self.y0 + n) implies self.spread(image, width, color, inv, n)[y * width + x]
                == image[y * width + x] by {
                assert(before[y * width + x] == image[y * width + x]);
            }
        }
    }

    pub proof fn lemma_row_local(
        self,
        image: Seq<Xyz>,
        width: int,
        height: int,
        color: Xyz,
        inv: Scalar,
        py: int,
        n: nat,
    )
        requires
            self.well_formed(width, height),
            image.len() == width * height,
            width >= 0,
            0 <= py < height,
            n <= self.columns(),
        ensures
            self.row_spread(image, width, color, inv, py, n).len() == image.len(),
            forall|x: int, y: int|
                #![trigger image[y * width + x]]
                0 <= x < width && 0 <= y < height && !(self.x0 <= x <= self.x1 && y == py)
                    ==> self.row_spread(image, width, color, inv, py, n)[y * width + x]
                    == image[y * width + x],
        decreases n,
    {
        if n > 0 {
            let before = self.row_spread(image, width, color, inv, py, (n - 1) as nat);
            self.lemma_row_local(image, width, height, color, inv, py, (n - 1) as nat);
            let px: int = self.x0 + n - 1;
            lemma_index_in_image(px, py, width, height);
            assert forall|x: int, y: int|
                #![trigger image[y * width + x]]
                0 <= x < width && 0 <= y < height && !(self.x0 <= x <= self.x1 && y
                    == py) implies self.row_spread(image, width, color, inv, py, n)[y * width + x]
                == image[y * width + x] by {
                lemma_index_in_image(x, y, width, height);
                assert(before[y * width + x] == image[y * width + x]);
                if y * width + x == py * width + px {
                    lemma_index_unique(x, y, px, py, width);
                }
            }
        }
    }
}

impl Footprint {
    /// The exact sum of the tent over the first `n` pixels of a row, in units
    /// of 2^-149.
    pub open spec fn row_exact(self, py: int, n: nat) -> int
        decreases n,
    {
        if n == 0 {
            0
        } else {
            self.row_exact(py, (n - 1) as nat) + self.tent(self.x0 + n - 1, py).value()
        }
    }

    /// The exact sum of the tent over the first `n` rows.
    pub open spec fn exact(self, n: nat) -> int
        decreases n,
    {
        if n == 0 {
            0
        } else {
            self.exact((n - 1) as nat) + self.row_exact(self.y0 + n - 1, self.columns())
        }
    }

    /// The exact sum of what the first `n` pixels of a row are given of the
    /// color.
    pub open spec fn row_shares(self, inv: Scalar, py: int, n: nat) -> int
        decreases n,
    {
        if n == 0 {
            0
        } else {
            self.row_shares(inv, py, (n - 1) as nat) + self.tent(
                self.x0 + n - 1,
                py,
            ).product(inv).value()
        }
    }

    /// The exact sum of what the pixels of the first `n` rows are given.
    pub open spec fn shares(self, inv: Scalar, n: nat) -> int
        decreases n,
    {
        if n == 0 {
            0
        } else {
            self.shares(inv, (n - 1) as nat) + self.row_shares(
                inv,
                self.y0 + n - 1,
                self.columns(),
            )
        }
    }

    proof fn lemma_tent(self, px: int, py: int)
        requires
            (Scalar { bits: 0 }).below(self.r),
        ensures
            is_weight(self.tent(px, py)),
    {
        let square = offset_square(px, self.cx).sum(offset_square(py, self.cy));
        let dist = square.square_root();
        lemma_magnitude_sign(0);
        if !dist.nan() {
            lemma_root_sign(square);
            if !dist.quotient(self.r).nan() {
                lemma_quotient_not_negative(dist, self.r);
            }
        } else {
            reveal(Scalar::quotient);
        }
        lemma_rest_is_weight(dist.quotient(self.r));
    }

    proof fn lemma_row_tracks(self, acc: Scalar, exact: int, count: int, py: int, n: nat)
        requires
            (Scalar { bits: 0 }).below(self.r),
            tracks(acc, exact, count),
            0 <= count,
            count + n <= 0x40_0000,
        ensures
            tracks(self.row_weight(acc, py, n), exact + self.row_exact(py, n), count + n),
        decreases n,
    {
        if n > 0 {
            let k = (n - 1) as nat;
            self.lemma_row_tracks(acc, exact, count, py, k);
            self.lemma_tent(self.x0 + k, py);
            lemma_tracks_step(
                self.row_weight(acc, py, k),
                exact + self.row_exact(py, k),
                count + k,
                self.tent(self.x0 + k, py),
            );
        }
    }

    proof fn lemma_tracks(self, n: nat)
        requires
            (Scalar { bits: 0 }).below(self.r),
            n * self.columns() <= 0x40_0000,
        ensures
            tracks(self.weight(n), self.exact(n), (n * self.columns()) as int),
        decreases n,
    {
        lemma_magnitude_sign(0);
        if n == 0 {
            assert(0 * self.columns() == 0);
        } else {
            let k = (n - 1) as nat;
            let c = self.columns();
            assert(k * c + c == n * c && k * c >= 0) by (nonlinear_arith)
                requires
                    n == k + 1,
            ;
            self.lemma_tracks(k);
            self.lemma_row_tracks(self.weight(k), self.exact(k), (k * c) as int, self.y0 + k, c);
        }
    }

    proof fn lemma_row_shares(self, inv: Scalar, py: int, n: nat)
        requires
            (Scalar { bits: 0 }).below(self.r),
            inv.finite(),
            pow2(127) <= inv.value(),
        ensures
            ({
                let product = self.row_exact(py, n) * inv.value();
                0x100_0000 * absolute(self.row_shares(inv, py, n) * one() - product) <= product
            }),
        decreases n,
    {
        let i = inv.value();
        if n == 0 {
            assert(0 * i == 0 && 0 * one() == 0);
        } else {
            let k = (n - 1) as nat;
            let t = self.tent(self.x0 + k, py);
            self.lemma_row_shares(inv, py, k);
            self.lemma_tent(self.x0 + k, py);
            lemma_share(t, inv);
            lemma_shares_add(
                self.row_exact(py, k),
                self.row_shares(inv, py, k),
                t.value(),
                t.product(inv).value(),
                i,
            );
        }
    }

    proof fn lemma_shares(self, inv: Scalar, n: nat)
        requires
            (Scalar { bits: 0 }).below(self.r),
            inv.finite(),
            pow2(127) <= inv.value(),
        ensures
            ({
                let product = self.exact(n) * inv.value();
                0x100_0000 * absolute(self.shares(inv, n) * one() - product) <= product
            }),
        decreases n,
    {
        let i = inv.value();
        if n == 0 {
            assert(0 * i == 0 && 0 * one() == 0);
        } else {
            let k = (n - 1) as nat;
            self.lemma_shares(inv, k);
            self.lemma_row_shares(inv, self.y0 + k, self.columns());
            lemma_shares_add(
                self.exact(k),
                self.shares(inv, k),
                self.row_exact(self.y0 + k, self.columns()),
                self.row_shares(inv, self.y0 + k, self.columns()),
                i,
            );
        }
    }

    /// A splat loses no light and makes none: whatever the edge of the image
    /// cuts off, the shares of the color that the pixels of the footprint are
    /// given sum to one, to within three parts in 2^24 and another for each
    /// pixel, which rounding takes or gives. The footprint has at most 2^22
    /// pixels.
    pub proof fn lemma_splat_conserves(self)
        requires
            (Scalar { bits: 0 }).below(self.r),
            self.rows() * self.columns() <= 0x40_0000,
            !self.weight(self.rows()).at_most(Scalar { bits: 0 }),
        ensures
            ({
                let inv = (Scalar { bits: ONE_BITS }).quotient(self.weight(self.rows()));
                0x100_0000 * absolute(self.shares(inv, self.rows()) - one()) <= (self.rows()
                    * self.columns() + 3) * one()
            }),
    {
        let n = self.rows();
        let total = self.weight(n);
        let count = (n * self.columns()) as int;
        let inv = (Scalar { bits: ONE_BITS }).quotient(total);
        lemma_magnitude_sign(0);
        lemma_pow2_pos(149);
        self.lemma_tracks(n);
        assert(count * one() <= 0x40_0000 * one()) by (nonlinear_arith)
            requires
                count <= 0x40_0000,
                one() > 0,
        ;
        lemma_reciprocal(total);
        self.lemma_shares(inv, n);
        lemma_shares_make_one(total, self.exact(n), count, self.shares(inv, n));
    }
}

/// Errors of parts add up to no more than the whole allows.
proof fn lemma_shares_add(exact: int, shares: int, t: int, share: int, i: int)
    requires
        0x100_0000 * absolute(shares * one() - exact * i) <= exact * i,
        0x100_0000 * absolute(share * one() - t * i) <= t * i,
    ensures
        0x100_0000 * absolute((shares + share) * one() - (exact + t) * i) <= (exact + t) * i,
{
    assert((shares + share) * one() == shares * one() + share * one()) by (nonlinear_arith);
    assert((exact + t) * i == exact * i + t * i) by (nonlinear_arith);
}

/// Two places with one index are the same.
proof fn lemma_index_unique(x: int, y: int, px: int, py: int, width: int)
    requires
        0 <= x < width,
        0 <= px < width,
        y * width + x == py * width + px,
    ensures
        x == px,
        y == py,
{
    assert(y == py) by (nonlinear_arith)
        requires
            0 <= x < width,
            0 <= px < width,
            y * width + x == py * width + px,
    ;
}

} // verus!
