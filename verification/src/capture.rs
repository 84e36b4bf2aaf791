//! Pictures read back from the device, whose rows are padded.
use crate::film::ceil_div;
use crate::film::groups;
use vstd::prelude::*;

verus! {

/// The device aligns the rows of a copied picture to this many bytes.
pub const ROW_ALIGNMENT: u32 = 256;

/// The bytes of a pixel.
pub const PIXEL_BYTES: u32 = 4;

/// The bytes of a row as the device copies it.
pub open spec fn row_stride(width: int) -> int {
    ceil_div(PIXEL_BYTES * width, ROW_ALIGNMENT as int) * ROW_ALIGNMENT
}

/// A row fits its stride, which is aligned and less than one alignment longer.
pub proof fn lemma_row_stride(width: int)
    requires
        width >= 0,
    ensures
        PIXEL_BYTES * width <= row_stride(width) < PIXEL_BYTES * width + ROW_ALIGNMENT,
        row_stride(width) % (ROW_ALIGNMENT as int) == 0,
{
}

/// The bytes of a row as the device copies it.
pub fn padded_row(width: u32) -> (r: u32)
    requires
        PIXEL_BYTES * width + ROW_ALIGNMENT <= u32::MAX,
    ensures
        r == row_stride(width as int),
{
    groups(PIXEL_BYTES * width, ROW_ALIGNMENT) * ROW_ALIGNMENT
}

/// The tight picture of padded rows: byte `b` of row `y`.
pub open spec fn tight(data: Seq<u8>, width: int, height: int) -> Seq<u8> {
    Seq::new(
        (PIXEL_BYTES * width * height) as nat,
        |k: int|
            data[(k / (PIXEL_BYTES * width)) * row_stride(width) + k % (PIXEL_BYTES * width)],
    )
}

/// Rows padded to their stride with zeros.
pub open spec fn padded(pixels: Seq<u8>, width: int, height: int) -> Seq<u8> {
    Seq::new(
        (row_stride(width) * height) as nat,
        |k: int|
            if k % row_stride(width) < PIXEL_BYTES * width {
                pixels[(k / row_stride(width)) * (PIXEL_BYTES * width) + k % row_stride(width)]
            } else {
                0u8
            },
    )
}

/// Takes the padding off the rows of a picture.
pub fn depad(data: &Vec<u8>, width: u32, height: u32) -> (r: Vec<u8>)
    requires
        width > 0,
        PIXEL_BYTES * width + ROW_ALIGNMENT <= u32::MAX,
        row_stride(width as int) * height <= data@.len(),
    ensures
        r@ == tight(data@, width as int, height as int),
{
    let stride: usize = padded_row(width) as usize;
    let row: usize = (PIXEL_BYTES * width) as usize;
    let total: usize = data.len();
    let mut out: Vec<u8> = Vec::new();
    let mut y: u32 = 0;
    let mut at: usize = 0;
    while y < height
        invariant
            y <= height,
            row == PIXEL_BYTES * width,
            0 < row <= stride,
            stride == row_stride(width as int),
            total == data@.len(),
            stride * height <= total,
            at == stride * y,
            out@.len() == row * y,
            forall|k: int|
                0 <= k < out@.len() ==> (#[trigger] out@[k]) == data@[(k / (row as int)) * stride
                    + k % (row as int)],
        decreases height - y,
    {
        assert(at + stride <= total && stride * (y + 1) == at + stride && row * (y + 1) == row * y
            + row) by (nonlinear_arith)
            requires
                at == stride * y,
                y + 1 <= height,
                stride * height <= total,
        ;
        let mut b: usize = 0;
        while b < row
            invariant
                b <= row,
                0 < row <= stride,
                total == data@.len(),
                at == stride * y,
                at + stride <= total,
                out@.len() == row * y + b,
                forall|k: int|
                    0 <= k < out@.len() ==> (#[trigger] out@[k]) == data@[(k / (row as int))
                        * stride + k % (row as int)],
            decreases row - b,
        {
            proof {
                let k: int = row * y + b;
                assert(row * y == y * row) by (nonlinear_arith);
                vstd::arithmetic::div_mod::lemma_fundamental_div_mod_converse(
                    k,
                    row as int,
                    y as int,
                    b as int,
                );
                assert(stride * y == y * stride) by (nonlinear_arith);
            }
            out.push(data[at + b]);
            b = b + 1;
        }
        at = at + stride;
        y = y + 1;
    }
    proof {
        assert(row * height == PIXEL_BYTES * width * height);
        assert(out@ =~= tight(data@, width as int, height as int));
    }
    out
}

/// Taking the padding off undoes putting it on.
pub proof fn lemma_depad_undoes_padding(pixels: Seq<u8>, width: int, height: int)
    requires
        width > 0,
        height >= 0,
        pixels.len() == PIXEL_BYTES * width * height,
    ensures
        tight(padded(pixels, width, height), width, height) == pixels,
{
    let row: int = PIXEL_BYTES * width;
    let stride: int = row_stride(width);
    lemma_row_stride(width);
    let wide = padded(pixels, width, height);
    assert forall|k: int| 0 <= k < pixels.len() implies tight(wide, width, height)[k]
        == pixels[k] by {
        let y: int = k / row;
        let b: int = k % row;
        vstd::arithmetic::div_mod::lemma_fundamental_div_mod(k, row);
        assert(0 <= y < height) by (nonlinear_arith)
            requires
                k == row * y + b,
                0 <= b < row,
                0 <= k < row * height,
                row > 0,
        ;
        let at: int = y * stride + b;
        assert(0 <= at < stride * height) by (nonlinear_arith)
            requires
                at == y * stride + b,
                0 <= y < height,
                0 <= b < stride,
        ;
        assert(y * stride == stride * y) by (nonlinear_arith);
        vstd::arithmetic::div_mod::lemma_fundamental_div_mod_converse(at, stride, y, b);
        assert(y * row == row * y) by (nonlinear_arith);
    }
    assert(tight(wide, width, height) =~= pixels);
}

} // verus!
