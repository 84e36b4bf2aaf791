//! The running sum of an image.
use crate::arith::from_u64;
use crate::arith::integral;
use crate::cie::Xyz;
use crate::scalar::Scalar;
use crate::supplied::single_valued;
use vstd::prelude::*;

verus! {

/// Per-pixel sums of tristimulus contributions, row by row, and the number of
/// samples that went into each.
#[derive(Debug)]
pub struct AccumBuffer {
    pub width: usize,
    pub height: usize,
    pub sum: Vec<Xyz>,
    pub samples: u32,
}

/// `n` dark pixels.
pub open spec fn dark_image(n: nat) -> Seq<Xyz> {
    Seq::new(n, |i: int| Xyz::dark())
}

/// A new image of `n` dark pixels.
pub fn blank_image(n: usize) -> (r: Vec<Xyz>)
    ensures
        r@ == dark_image(n as nat),
{
    let mut out: Vec<Xyz> = Vec::new();
    let mut k: usize = 0;
    while k < n
        invariant
            k <= n,
            out@ == dark_image(k as nat),
        decreases n - k,
    {
        out.push(Xyz::black());
        k = k + 1;
        assert(out@ =~= dark_image(k as nat));
    }
    out
}

impl AccumBuffer {
    /// One sum for each pixel.
    pub open spec fn well_formed(self) -> bool {
        self.sum@.len() == self.width * self.height
    }

    /// Every sum over the number of samples, or over one where there are none.
    pub open spec fn mean_spec(self) -> Seq<Xyz> {
        let n = integral(
            if self.samples == 0 {
                1
            } else {
                self.samples as int
            },
        );
        self.sum@.map_values(|s: Xyz| s.shared(n))
    }

    pub fn new(width: usize, height: usize) -> (r: Self)
        requires
            width * height <= usize::MAX,
        ensures
            r.well_formed(),
            r.width == width,
            r.height == height,
            r.sum@ == dark_image((width * height) as nat),
            r.samples == 0,
    {
        AccumBuffer { width, height, sum: blank_image(width * height), samples: 0 }
    }

    /// Back to the dark, with no samples.
    pub fn reset(&mut self)
        ensures
            final(self).width == old(self).width,
            final(self).height == old(self).height,
            final(self).sum@ == dark_image(old(self).sum@.len()),
            final(self).samples == 0,
    {
        let n: usize = self.sum.len();
        self.sum = blank_image(n);
        self.samples = 0;
    }

    /// The mean of each pixel.
    pub fn mean(&self) -> (r: Vec<Xyz>)
        ensures
            r@ == self.mean_spec(),
    {
        let count: u64 = if self.samples == 0 {
            1
        } else {
            self.samples as u64
        };
        let n: Scalar = from_u64(count);
        let mut out: Vec<Xyz> = Vec::new();
        let mut k: usize = 0;
        while k < self.sum.len()
            invariant
                k <= self.sum@.len(),
                out@ == self.sum@.take(k as int).map_values(|s: Xyz| s.shared(n)),
            decreases self.sum@.len() - k,
        {
            out.push(self.sum[k].over(n));
            k = k + 1;
            assert(out@ =~= self.sum@.take(k as int).map_values(|s: Xyz| s.shared(n)));
        }
        assert(self.sum@.take(k as int) =~= self.sum@);
        out
    }

    /// Adds a batch of sums, each of `count` samples.
    pub fn merge(&mut self, batch: &Vec<Xyz>, count: u32)
        requires
            batch@.len() == old(self).sum@.len(),
            old(self).samples + count <= u32::MAX,
        ensures
            final(self).width == old(self).width,
            final(self).height == old(self).height,
            final(self).samples == old(self).samples + count,
            final(self).sum@ == Seq::new(
                old(self).sum@.len(),
                |i: int| old(self).sum@[i].total(batch@[i]),
            ),
    {
        let ghost before = self.sum@;
        let mut out: Vec<Xyz> = Vec::new();
        let mut k: usize = 0;
        while k < self.sum.len()
            invariant
                k <= self.sum@.len(),
                self.sum@ == before,
                batch@.len() == before.len(),
                out@.len() == k,
                forall|i: int| 0 <= i < k ==> #[trigger] out@[i] == before[i].total(batch@[i]),
            decreases self.sum@.len() - k,
        {
            out.push(self.sum[k].plus(batch[k]));
            k = k + 1;
        }
        assert(out@ =~= Seq::new(before.len(), |i: int| before[i].total(batch@[i])));
        self.sum = out;
        self.samples = self.samples + count;
    }
}

/// A renderer that adds samples to an image, whatever it runs on. `turn` gives
/// the cosine and sine of an angle.
pub trait Renderer {
    /// The image so far.
    spec fn shown(&self) -> AccumBuffer;

    /// The renderer can add to its image.
    spec fn ready(&self) -> bool;

    /// Adds `samples_per_pixel` samples to every pixel.
    fn accumulate<F: Fn(Scalar) -> (Scalar, Scalar)>(
        &mut self,
        samples_per_pixel: u32,
        turn: &F,
    )
        requires
            old(self).ready(),
            old(self).shown().samples + samples_per_pixel <= u32::MAX,
            single_valued(*turn),
        ensures
            final(self).ready(),
            final(self).shown().width == old(self).shown().width,
            final(self).shown().height == old(self).shown().height,
            final(self).shown().samples == old(self).shown().samples + samples_per_pixel,
    ;

    /// The image so far.
    fn buffer(&self) -> (r: &AccumBuffer)
        ensures
            *r == self.shown(),
    ;

    /// Starts the image over.
    fn reset(&mut self)
        requires
            old(self).ready(),
        ensures
            final(self).ready(),
            final(self).shown().width == old(self).shown().width,
            final(self).shown().height == old(self).shown().height,
            final(self).shown().samples == 0,
            final(self).shown().sum@ == dark_image(old(self).shown().sum@.len()),
    ;
}

} // verus!
