//! Byte-level pixel operations of the software path: the pixmap-to-image
//! conversion, the box-average downsample, the crop and the box blur passes.

use vstd::prelude::*;
use vstd::arithmetic::div_mod::{lemma_fundamental_div_mod, lemma_fundamental_div_mod_converse};
use vstd::slice::slice_to_vec;

use crate::blur::Crop;
use crate::size::{PixelSize, divide_side, divided_side, lemma_divided_side_bounds};

verus! {

/// `c` with a premultiplied alpha of `a` taken back out, rounded to nearest
/// and capped at 255.
pub open spec fn demultiply(c: u8, a: u8) -> u8
    recommends
        a > 0,
{
    let v = (c as int * 255 + a as int / 2) / a as int;
    if v > 255 {
        255
    } else {
        v as u8
    }
}

/// Byte `k` (0..4) of the straight-alpha RGBA pixel made from the
/// premultiplied BGRA pixel `p` of `src`.
pub open spec fn rgba_byte(src: Seq<u8>, p: int, k: int) -> u8 {
    let b = src[4 * p];
    let g = src[4 * p + 1];
    let r = src[4 * p + 2];
    let a = src[4 * p + 3];
    if a == 0 {
        0
    } else if k == 0 {
        demultiply(r, a)
    } else if k == 1 {
        demultiply(g, a)
    } else if k == 2 {
        demultiply(b, a)
    } else {
        a
    }
}

/// Whether `v` is `c` divided by the alpha `a` (as a fraction of 255),
/// rounded to nearest with halves up, and capped at 255: `v * a` is within
/// the rounding of `c * 255`, or the quotient reaches 256 and `v` is 255.
pub open spec fn demultiplied(c: int, a: int, v: int) -> bool {
    if c * 255 + a / 2 < 256 * a {
        v * a <= c * 255 + a / 2 < v * a + a
    } else {
        v == 255
    }
}

/// Demultiplying divides by the alpha, rounded to nearest and capped.
pub proof fn lemma_demultiply_rounds(c: u8, a: u8)
    requires
        a > 0,
    ensures
        demultiplied(c as int, a as int, demultiply(c, a) as int),
{
    let n = c as int * 255 + a as int / 2;
    let q = n / a as int;
    assert(q * a <= n < q * a + a) by (nonlinear_arith)
        requires
            a > 0,
            n >= 0,
            q == n / a as int,
    ;
    if n < 256 * a {
        assert(q < 256) by (nonlinear_arith)
            requires
                q * a <= n,
                n < 256 * a,
                a > 0,
        ;
    } else {
        assert(q >= 256) by (nonlinear_arith)
            requires
                n < q * a + a,
                n >= 256 * a,
                a > 0,
        ;
    }
}

/// Each pixel of the conversion, whatever the pixmap: a transparent pixel
/// comes out all zeros; otherwise the alpha is kept, red and blue trade
/// places, and every colour channel alike is divided by the alpha.
pub proof fn lemma_pixel_converts(src: Seq<u8>, p: int)
    requires
        0 <= p,
        4 * p + 3 < src.len(),
    ensures
        ({
            let (b, g, r, a) = (src[4 * p], src[4 * p + 1], src[4 * p + 2], src[4 * p + 3]);
            &&& a == 0 ==> rgba_byte(src, p, 0) == 0 && rgba_byte(src, p, 1) == 0 && rgba_byte(
                src,
                p,
                2,
            ) == 0 && rgba_byte(src, p, 3) == 0
            &&& a > 0 ==> {
                &&& rgba_byte(src, p, 3) == a
                &&& demultiplied(r as int, a as int, rgba_byte(src, p, 0) as int)
                &&& demultiplied(g as int, a as int, rgba_byte(src, p, 1) as int)
                &&& demultiplied(b as int, a as int, rgba_byte(src, p, 2) as int)
            }
        }),
{
    let a = src[4 * p + 3];
    if a > 0 {
        lemma_demultiply_rounds(src[4 * p], a);
        lemma_demultiply_rounds(src[4 * p + 1], a);
        lemma_demultiply_rounds(src[4 * p + 2], a);
    }
}

/// Three equal premultiplied colour channels convert to three equal
/// straight ones: the conversion treats every channel alike.
pub proof fn lemma_grey_stays_grey(src: Seq<u8>, p: int)
    requires
        0 <= p,
        4 * p + 3 < src.len(),
        src[4 * p] == src[4 * p + 1],
        src[4 * p + 1] == src[4 * p + 2],
    ensures
        rgba_byte(src, p, 0) == rgba_byte(src, p, 1),
        rgba_byte(src, p, 1) == rgba_byte(src, p, 2),
{
    let a = src[4 * p + 3];
    if a > 0 {
        lemma_pixel_converts(src, p);
        lemma_demultiplied_unique(src[4 * p] as int, a as int, rgba_byte(src, p, 0) as int, rgba_byte(src, p, 1) as int);
        lemma_demultiplied_unique(src[4 * p] as int, a as int, rgba_byte(src, p, 1) as int, rgba_byte(src, p, 2) as int);
    }
}

/// The rounded quotient is unique.
proof fn lemma_demultiplied_unique(c: int, a: int, v: int, w: int)
    requires
        a > 0,
        demultiplied(c, a, v),
        demultiplied(c, a, w),
    ensures
        v == w,
{
    if c * 255 + a / 2 < 256 * a {
        let n = c * 255 + a / 2;
        assert(v == w) by (nonlinear_arith)
            requires
                a > 0,
                v * a <= n < v * a + a,
                w * a <= n < w * a + a,
        ;
    }
}

/// Converts premultiplied BGRA (what the software rasteriser produces) into
/// the straight-alpha RGBA an image handle expects.
///
/// Red and blue trade places, every colour channel is divided by the alpha
/// again (rounded to nearest), a transparent pixel becomes all zeros and the
/// alpha byte is kept. The buffer holds whole pixels.
pub fn pixmap_to_rgba(premultiplied_bgra: &[u8]) -> (out: Vec<u8>)
    requires
        premultiplied_bgra@.len() % 4 == 0,
    ensures
        out@.len() == premultiplied_bgra@.len(),
        forall|p: int, k: int|
            0 <= p < premultiplied_bgra@.len() / 4 && 0 <= k < 4 ==> #[trigger] out@[4 * p + k]
                == rgba_byte(premultiplied_bgra@, p, k),
        forall|p: int|
            #![trigger out@[4 * p + 3]]
            0 <= p < premultiplied_bgra@.len() / 4 && premultiplied_bgra@[4 * p + 3] > 0 ==> {
                &&& out@[4 * p + 3] == premultiplied_bgra@[4 * p + 3]
                &&& demultiplied(
                    premultiplied_bgra@[4 * p + 2] as int,
                    premultiplied_bgra@[4 * p + 3] as int,
                    out@[4 * p] as int,
                )
                &&& demultiplied(
                    premultiplied_bgra@[4 * p + 1] as int,
                    premultiplied_bgra@[4 * p + 3] as int,
                    out@[4 * p + 1] as int,
                )
                &&& demultiplied(
                    premultiplied_bgra@[4 * p] as int,
                    premultiplied_bgra@[4 * p + 3] as int,
                    out@[4 * p + 2] as int,
                )
            },
        forall|p: int|
            0 <= p < premultiplied_bgra@.len() / 4 && #[trigger] premultiplied_bgra@[4 * p + 3] == 0 ==> out@[4
                * p] == 0 && out@[4 * p + 1] == 0 && out@[4 * p + 2] == 0 && out@[4 * p + 3] == 0,
{
    let len = premultiplied_bgra.len();
    let mut out: Vec<u8> = vec![0u8; len];
    let pixels = len / 4;
    let mut p: usize = 0;
    while p < pixels
        invariant
            pixels == len / 4,
            len == premultiplied_bgra@.len(),
            out@.len() == len,
            p <= pixels,
            forall|q: int, k: int|
                0 <= q < p && 0 <= k < 4 ==> #[trigger] out@[4 * q + k] == rgba_byte(
                    premultiplied_bgra@,
                    q,
                    k,
                ),
            forall|i: int| 4 * p <= i < len ==> #[trigger] out@[i] == 0,
        decreases pixels - p,
    {
        let at = 4 * p;
        let b = premultiplied_bgra[at];
        let g = premultiplied_bgra[at + 1];
        let r = premultiplied_bgra[at + 2];
        let a = premultiplied_bgra[at + 3];
        if a == 0 {
        } else if a == 255 {
            proof {
                lemma_opaque_is_identity(r);
                lemma_opaque_is_identity(g);
                lemma_opaque_is_identity(b);
            }
            out.set(at, r);
            out.set(at + 1, g);
            out.set(at + 2, b);
            out.set(at + 3, 255);
        } else {
            out.set(at, demultiply_channel(r, a));
            out.set(at + 1, demultiply_channel(g, a));
            out.set(at + 2, demultiply_channel(b, a));
            out.set(at + 3, a);
        }
        assert forall|q: int, k: int|
            0 <= q < p + 1 && 0 <= k < 4 implies #[trigger] out@[4 * q + k] == rgba_byte(
                premultiplied_bgra@,
                q,
                k,
            ) by {
            if q < p {
            } else {
                assert(4 * q + k == at + k);
            }
        }
        p = p + 1;
    }
    proof {
        let src = premultiplied_bgra@;
        assert forall|p: int| #![trigger out@[4 * p + 3]] 0 <= p < src.len() / 4 implies ({
            &&& src[4 * p + 3] > 0 ==> {
                &&& out@[4 * p + 3] == src[4 * p + 3]
                &&& demultiplied(src[4 * p + 2] as int, src[4 * p + 3] as int, out@[4 * p] as int)
                &&& demultiplied(src[4 * p + 1] as int, src[4 * p + 3] as int, out@[4 * p + 1] as int)
                &&& demultiplied(src[4 * p] as int, src[4 * p + 3] as int, out@[4 * p + 2] as int)
            }
        }) by {
            lemma_pixel_converts(src, p);
            assert(out@[4 * p + 0] == rgba_byte(src, p, 0));
            assert(out@[4 * p + 1] == rgba_byte(src, p, 1));
            assert(out@[4 * p + 2] == rgba_byte(src, p, 2));
            assert(out@[4 * p + 3] == rgba_byte(src, p, 3));
        }
        assert forall|p: int|
            0 <= p < premultiplied_bgra@.len() / 4 && #[trigger] premultiplied_bgra@[4 * p + 3] == 0 implies out@[4
                * p] == 0 && out@[4 * p + 1] == 0 && out@[4 * p + 2] == 0 && out@[4 * p + 3] == 0 by {
            assert(out@[4 * p + 0] == rgba_byte(src, p, 0));
            assert(out@[4 * p + 1] == rgba_byte(src, p, 1));
            assert(out@[4 * p + 2] == rgba_byte(src, p, 2));
            assert(out@[4 * p + 3] == rgba_byte(src, p, 3));
        }
    }
    out
}

/// One colour channel of a partly transparent pixel, demultiplied.
fn demultiply_channel(c: u8, a: u8) -> (out: u8)
    requires
        a > 0,
    ensures
        out == demultiply(c, a),
{
    let alpha = a as u32;
    let v = ((c as u32) * 255 + alpha / 2) / alpha;
    if v > 255 {
        255
    } else {
        v as u8
    }
}

/// Demultiplying by a full alpha gives the channel back unchanged, so the
/// conversion's opaque fast path is the general formula.
pub proof fn lemma_opaque_is_identity(c: u8)
    ensures
        demultiply(c, 255) == c,
{
    assert((c as int * 255 + 127) / 255 == c as int) by (nonlinear_arith)
        requires
            0 <= c <= 255,
    ;
}

/// Whether every row of `crop` lies inside a buffer of `len` bytes laid out
/// as rows of `width` RGBA pixels.
pub open spec fn crop_readable(len: int, width: int, crop: Crop) -> bool {
    crop.height > 0 ==> (crop.y as int + crop.height as int - 1) * (width * 4) + crop.x as int * 4
        + crop.width as int * 4 <= len
}

/// Whether [`crop_out`] can copy `crop` out of a `size` buffer of `len`
/// bytes: the rectangle lies inside the buffer and its copy fits in memory.
pub fn can_crop(len: usize, size: PixelSize, crop: Crop) -> (ok: bool)
    ensures
        ok == (size.width as int * 4 <= usize::MAX && crop.width as int * 4 <= usize::MAX
            && crop.width as int * 4 * crop.height as int <= usize::MAX && crop.y as int
            + crop.height as int <= usize::MAX && crop_readable(len as int, size.width as int, crop)),
{
    let width = size.width as u128;
    let cw = crop.width as u128;
    let ch = crop.height as u128;
    let cx = crop.x as u128;
    let cy = crop.y as u128;
    assert(cw * 4 * ch <= 0xffff_ffff * 4 * 0xffff_ffff) by (nonlinear_arith)
        requires
            cw <= 0xffff_ffff,
            ch <= 0xffff_ffff,
    ;
    let fits = width * 4 <= usize::MAX as u128 && cw * 4 <= usize::MAX as u128 && cw * 4 * ch
        <= usize::MAX as u128 && cy + ch <= usize::MAX as u128;
    if !fits {
        return false;
    }
    if ch == 0 {
        return true;
    }
    assert((cy + ch - 1) * (width * 4) <= 0x2_0000_0000 * 0x4_0000_0000) by (nonlinear_arith)
        requires
            cy + ch - 1 <= 0x2_0000_0000,
            width * 4 <= 0x4_0000_0000,
    ;
    (cy + ch - 1) * (width * 4) + cx * 4 + cw * 4 <= len as u128
}

/// Copies `crop` out of a `size` buffer into a tight one: row `r` of the
/// result is the `crop.width` pixels of row `crop.y + r` that start at
/// column `crop.x`.
pub fn crop_out(src: &[u8], size: PixelSize, crop: Crop) -> (out: Vec<u8>)
    requires
        size.width as int * 4 <= usize::MAX,
        crop.width as int * 4 <= usize::MAX,
        crop.width as int * 4 * crop.height as int <= usize::MAX,
        crop.y as int + crop.height as int <= usize::MAX,
        crop_readable(src@.len() as int, size.width as int, crop),
    ensures
        out@.len() == crop.width as int * 4 * crop.height as int,
        forall|r: int, j: int|
            0 <= r < crop.height && 0 <= j < crop.width as int * 4 ==> #[trigger] out@[r * (
            crop.width as int * 4) + j] == src@[(crop.y as int + r) * (size.width as int * 4)
                + crop.x as int * 4 + j],
{
    let len = src.len();
    let stride = size.width as usize * 4;
    let out_stride = crop.width as usize * 4;
    let rows = crop.height as usize;
    let mut out: Vec<u8> = Vec::new();
    let mut row: usize = 0;
    while row < rows
        invariant
            stride == size.width as int * 4,
            out_stride == crop.width as int * 4,
            rows == crop.height,
            out_stride * rows <= usize::MAX,
            crop_readable(src@.len() as int, size.width as int, crop),
            crop.y as int + crop.height as int <= usize::MAX,
            len == src@.len(),
            row <= rows,
            out@.len() == row * out_stride,
            forall|r: int, j: int|
                0 <= r < row && 0 <= j < out_stride ==> #[trigger] out@[r * out_stride + j]
                    == src@[(crop.y as int + r) * stride + crop.x as int * 4 + j],
        decreases rows - row,
    {
        assert((crop.y as int + row) * stride <= (crop.y as int + rows - 1) * stride)
            by (nonlinear_arith)
            requires
                row < rows,
                stride >= 0,
        ;
        assert((crop.y as int + rows - 1) * stride >= 0) by (nonlinear_arith)
            requires
                row < rows,
                stride >= 0,
        ;
        assert((crop.y as int + row) * stride >= 0) by (nonlinear_arith)
            requires
                stride >= 0,
        ;
        assert((crop.y as int + rows - 1) * stride + crop.x as int * 4 + out_stride
            <= src@.len());
        let line = crop.y as usize + row;
        assert(line * stride <= (crop.y as int + rows - 1) * stride);
        let start = line * stride;
        let from = start + crop.x as usize * 4;
        let ghost before = out@;
        let mut j: usize = 0;
        while j < out_stride
            invariant
                stride == size.width as int * 4,
                out_stride == crop.width as int * 4,
                rows == crop.height,
                out_stride * rows <= usize::MAX,
                row < rows,
                from == (crop.y as int + row) * stride + crop.x as int * 4,
                from + out_stride <= src@.len(),
                len == src@.len(),
                j <= out_stride,
                out@.len() == row * out_stride + j,
                forall|i: int| 0 <= i < row * out_stride ==> #[trigger] out@[i] == before[i],
                forall|i: int| 0 <= i < j ==> #[trigger] out@[row * out_stride + i] == src@[from + i],
            decreases out_stride - j,
        {
            assert(row * out_stride + j < (row + 1) * out_stride) by (nonlinear_arith)
                requires j < out_stride;
            assert((row + 1) * out_stride <= rows * out_stride) by (nonlinear_arith)
                requires row < rows;
            out.push(src[from + j]);
            j = j + 1;
        }
        assert forall|r: int, i: int|
            0 <= r < row + 1 && 0 <= i < out_stride implies #[trigger] out@[r * out_stride + i]
                == src@[(crop.y as int + r) * stride + crop.x as int * 4 + i] by {
            if r < row {
                assert(r * out_stride + i < row * out_stride) by (nonlinear_arith)
                    requires r < row, i < out_stride;
            }
        }
        assert((row + 1) * out_stride == row * out_stride + out_stride) by (nonlinear_arith);
        row = row + 1;
    }
    assert(rows * out_stride == crop.width as int * 4 * crop.height as int) by (nonlinear_arith)
        requires
            rows == crop.height,
            out_stride == crop.width as int * 4,
    ;
    out
}

/// Offset of channel `k` of pixel (`x`, `y`) in an RGBA buffer whose rows
/// are `width` pixels wide.
pub open spec fn byte_at(width: int, x: int, y: int, k: int) -> int {
    y * (width * 4) + x * 4 + k
}

/// Sum of channel `k` over columns `x0..x1` of row `y`.
pub open spec fn row_sum(src: Seq<u8>, width: int, k: int, y: int, x0: int, x1: int) -> int
    decreases x1 - x0,
{
    if x1 <= x0 {
        0
    } else {
        row_sum(src, width, k, y, x0, x1 - 1) + src[byte_at(width, x1 - 1, y, k)] as int
    }
}

/// Sum of channel `k` over the block of columns `x0..x1` and rows `y0..y1`.
pub open spec fn block_sum(
    src: Seq<u8>,
    width: int,
    k: int,
    x0: int,
    x1: int,
    y0: int,
    y1: int,
) -> int
    decreases y1 - y0,
{
    if y1 <= y0 {
        0
    } else {
        block_sum(src, width, k, x0, x1, y0, y1 - 1) + row_sum(src, width, k, y1 - 1, x0, x1)
    }
}

/// Channel `k` of pixel (`ox`, `oy`) of the `factor`-times downsampled
/// buffer: the rounded average of the source block it covers, clipped to the
/// source at the right and bottom edges.
pub open spec fn block_average(
    src: Seq<u8>,
    size: PixelSize,
    factor: int,
    ox: int,
    oy: int,
    k: int,
) -> int {
    let x0 = ox * factor;
    let x1 = if x0 + factor < size.width { x0 + factor } else { size.width as int };
    let y0 = oy * factor;
    let y1 = if y0 + factor < size.height { y0 + factor } else { size.height as int };
    let count = (x1 - x0) * (y1 - y0);
    (block_sum(src, size.width as int, k, x0, x1, y0, y1) + count / 2) / count
}

proof fn lemma_row_sum_bound(src: Seq<u8>, width: int, k: int, y: int, x0: int, x1: int)
    requires
        x0 <= x1,
    ensures
        0 <= row_sum(src, width, k, y, x0, x1) <= 255 * (x1 - x0),
    decreases x1 - x0,
{
    if x1 > x0 {
        lemma_row_sum_bound(src, width, k, y, x0, x1 - 1);
    }
}

proof fn lemma_block_sum_bound(
    src: Seq<u8>,
    width: int,
    k: int,
    x0: int,
    x1: int,
    y0: int,
    y1: int,
)
    requires
        x0 <= x1,
        y0 <= y1,
    ensures
        0 <= block_sum(src, width, k, x0, x1, y0, y1) <= 255 * ((x1 - x0) * (y1 - y0)),
    decreases y1 - y0,
{
    if y1 > y0 {
        lemma_block_sum_bound(src, width, k, x0, x1, y0, y1 - 1);
        lemma_row_sum_bound(src, width, k, y1 - 1, x0, x1);
        assert(255 * ((x1 - x0) * (y1 - 1 - y0)) + 255 * (x1 - x0) == 255 * ((x1 - x0) * (y1
            - y0))) by (nonlinear_arith);
    }
}

/// A pixel inside a `width` x `height` buffer has all four bytes inside it.
proof fn lemma_pixel_in_bounds(width: int, height: int, x: int, y: int)
    requires
        0 <= x < width,
        0 <= y < height,
    ensures
        0 <= byte_at(width, x, y, 0),
        byte_at(width, x, y, 3) < width * height * 4,
{
    assert(y * (width * 4) + x * 4 + 3 < width * height * 4) by (nonlinear_arith)
        requires
            0 <= x < width,
            0 <= y < height,
    ;
    assert(y * (width * 4) >= 0) by (nonlinear_arith)
        requires
            0 <= x < width,
            0 <= y < height,
    ;
}

/// The four channel sums of the block `x0..x1` by `y0..y1`.
fn block_sums(src: &[u8], width: u32, height: u32, x0: u32, x1: u32, y0: u32, y1: u32) -> (sums: (
    u32,
    u32,
    u32,
    u32,
))
    requires
        x0 <= x1 <= width,
        y0 <= y1 <= height,
        height >= 1,
        width as int * height as int * 4 <= src@.len(),
        255 * ((x1 - x0) * (y1 - y0)) <= u32::MAX,
    ensures
        sums.0 == block_sum(src@, width as int, 0, x0 as int, x1 as int, y0 as int, y1 as int),
        sums.1 == block_sum(src@, width as int, 1, x0 as int, x1 as int, y0 as int, y1 as int),
        sums.2 == block_sum(src@, width as int, 2, x0 as int, x1 as int, y0 as int, y1 as int),
        sums.3 == block_sum(src@, width as int, 3, x0 as int, x1 as int, y0 as int, y1 as int),
{
    let len = src.len();
    assert(width as int * 4 <= width as int * height as int * 4) by (nonlinear_arith)
        requires height >= 1;
    let stride = width as usize * 4;
    let (mut s0, mut s1, mut s2, mut s3): (u32, u32, u32, u32) = (0, 0, 0, 0);
    let mut y: u32 = y0;
    while y < y1
        invariant
            len == src@.len(),
            stride == width as int * 4,
            x0 <= x1 <= width,
            y0 <= y <= y1 <= height,
            width as int * height as int * 4 <= len,
            255 * ((x1 - x0) * (y1 - y0)) <= u32::MAX,
            s0 == block_sum(src@, width as int, 0, x0 as int, x1 as int, y0 as int, y as int),
            s1 == block_sum(src@, width as int, 1, x0 as int, x1 as int, y0 as int, y as int),
            s2 == block_sum(src@, width as int, 2, x0 as int, x1 as int, y0 as int, y as int),
            s3 == block_sum(src@, width as int, 3, x0 as int, x1 as int, y0 as int, y as int),
        decreases y1 - y,
    {
        proof {
            lemma_block_sum_bound(src@, width as int, 0, x0 as int, x1 as int, y0 as int, y as int);
            lemma_block_sum_bound(src@, width as int, 1, x0 as int, x1 as int, y0 as int, y as int);
            lemma_block_sum_bound(src@, width as int, 2, x0 as int, x1 as int, y0 as int, y as int);
            lemma_block_sum_bound(src@, width as int, 3, x0 as int, x1 as int, y0 as int, y as int);
            assert(255 * ((x1 - x0) * (y + 1 - y0)) <= 255 * ((x1 - x0) * (y1 - y0)))
                by (nonlinear_arith)
                requires
                    y < y1,
                    x0 <= x1,
            ;
            assert(255 * ((x1 - x0) * (y - y0)) + 255 * (x1 - x0) == 255 * ((x1 - x0) * (y + 1
                - y0))) by (nonlinear_arith);
        }
        let ghost r0 = s0;
        let ghost r1 = s1;
        let ghost r2 = s2;
        let ghost r3 = s3;
        let mut x: u32 = x0;
        while x < x1
            invariant
                len == src@.len(),
                stride == width as int * 4,
                x0 <= x <= x1 <= width,
                y0 <= y < y1 <= height,
                width as int * height as int * 4 <= len,
                r0 + 255 * (x1 - x0) <= u32::MAX,
                r1 + 255 * (x1 - x0) <= u32::MAX,
                r2 + 255 * (x1 - x0) <= u32::MAX,
                r3 + 255 * (x1 - x0) <= u32::MAX,
                s0 == r0 + row_sum(src@, width as int, 0, y as int, x0 as int, x as int),
                s1 == r1 + row_sum(src@, width as int, 1, y as int, x0 as int, x as int),
                s2 == r2 + row_sum(src@, width as int, 2, y as int, x0 as int, x as int),
                s3 == r3 + row_sum(src@, width as int, 3, y as int, x0 as int, x as int),
            decreases x1 - x,
        {
            proof {
                lemma_pixel_in_bounds(width as int, height as int, x as int, y as int);
                lemma_row_sum_bound(src@, width as int, 0, y as int, x0 as int, x as int);
                lemma_row_sum_bound(src@, width as int, 1, y as int, x0 as int, x as int);
                lemma_row_sum_bound(src@, width as int, 2, y as int, x0 as int, x as int);
                lemma_row_sum_bound(src@, width as int, 3, y as int, x0 as int, x as int);
            }
            let line = y as usize;
            let row = line * stride;
            let at = row + x as usize * 4;
            s0 = s0 + src[at] as u32;
            s1 = s1 + src[at + 1] as u32;
            s2 = s2 + src[at + 2] as u32;
            s3 = s3 + src[at + 3] as u32;
            x = x + 1;
        }
        y = y + 1;
    }
    (s0, s1, s2, s3)
}

/// The rounded average of `sum` over `count` values.
fn rounded_average(sum: u32, count: u32) -> (out: u8)
    requires
        count > 0,
        sum <= 255 * count,
        255 * count + count / 2 <= u32::MAX,
    ensures
        out as int == (sum as int + count as int / 2) / count as int,
{
    assert((sum as int + count as int / 2) / count as int <= 255) by (nonlinear_arith)
        requires
            count > 0,
            sum <= 255 * count,
    ;
    ((sum + count / 2) / count) as u8
}

/// Whether [`downsample`] can average `factor` x `factor` blocks of a
/// `size` buffer of `len` bytes: a factor of at most one always can;
/// otherwise the picture is not empty, lies in the buffer, and its sums and
/// sizes fit in 32 bits.
pub fn can_downsample(len: usize, size: PixelSize, factor: u32) -> (ok: bool)
    ensures
        ok == (factor > 1 ==> size.width >= 1 && size.height >= 1 && size.rgba_len() <= len
            && size.width as int + factor <= u32::MAX && size.height as int + factor <= u32::MAX
            && 255 * (factor * factor) + factor * factor / 2 <= u32::MAX
            && size.spec_downscaled(factor as int).rgba_len() <= u32::MAX),
{
    if factor <= 1 {
        return true;
    }
    if size.width == 0 || size.height == 0 {
        return false;
    }
    let w = size.width as u128;
    let h = size.height as u128;
    let f = factor as u128;
    assert(w * h * 4 <= 0xffff_ffff * 0xffff_ffff * 4) by (nonlinear_arith)
        requires
            w <= 0xffff_ffff,
            h <= 0xffff_ffff,
    ;
    assert(f * f <= 0xffff_ffff * 0xffff_ffff) by (nonlinear_arith)
        requires
            f <= 0xffff_ffff,
    ;
    if w * h * 4 > len as u128 || w + f > 0xffff_ffff || h + f > 0xffff_ffff {
        return false;
    }
    if 255 * (f * f) + f * f / 2 > 0xffff_ffff {
        return false;
    }
    let out_w = divide_side(size.width, factor) as u128;
    let out_h = divide_side(size.height, factor) as u128;
    assert(out_w * out_h * 4 <= 0xffff_ffff * 0xffff_ffff * 4) by (nonlinear_arith)
        requires
            out_w <= 0xffff_ffff,
            out_h <= 0xffff_ffff,
    ;
    out_w * out_h * 4 <= 0xffff_ffff
}

/// Averages `factor` x `factor` blocks; a factor of at most one hands back a
/// copy. The partial blocks at the right and bottom edges average the texels
/// they actually cover, so the far edge keeps its content.
pub fn downsample(src: &[u8], size: PixelSize, factor: u32) -> (result: (Vec<u8>, PixelSize))
    requires
        factor > 1 ==> size.width >= 1 && size.height >= 1,
        factor > 1 ==> size.rgba_len() <= src@.len(),
        factor > 1 ==> size.width as int + factor <= u32::MAX,
        factor > 1 ==> size.height as int + factor <= u32::MAX,
        factor > 1 ==> 255 * (factor * factor) + factor * factor / 2 <= u32::MAX,
        factor > 1 ==> size.spec_downscaled(factor as int).rgba_len() <= u32::MAX,
    ensures
        factor <= 1 ==> result.0@ == src@ && result.1 == size,
        factor > 1 ==> result.1 == size.spec_downscaled(factor as int),
        factor > 1 ==> result.0@.len() == result.1.rgba_len(),
        factor > 1 ==> forall|ox: int, oy: int, k: int|
            0 <= ox < result.1.width && 0 <= oy < result.1.height && 0 <= k < 4
                ==> #[trigger] result.0@[byte_at(result.1.width as int, ox, oy, k)]
                == block_average(src@, size, factor as int, ox, oy, k),
{
    if factor <= 1 {
        return (slice_to_vec(src), size);
    }
    let out_size = PixelSize { width: divide_side(size.width, factor), height: divide_side(size.height, factor) };
    proof {
        lemma_divided_side_bounds(size.width as int, factor as int);
        lemma_divided_side_bounds(size.height as int, factor as int);
    }
    let (ow, oh) = (out_size.width, out_size.height);
    let out_len = ((ow * oh) * 4) as usize;
    let mut out: Vec<u8> = vec![0u8; out_len];
    let mut out_y: u32 = 0;
    while out_y < oh
        invariant
            out_size == size.spec_downscaled(factor as int),
            ow == out_size.width,
            oh == out_size.height,
            1 <= ow <= size.width,
            1 <= oh <= size.height,
            (ow - 1) * factor < size.width,
            (oh - 1) * factor < size.height,
            factor > 1,
            size.rgba_len() <= src@.len(),
            size.width as int + factor <= u32::MAX,
            size.height as int + factor <= u32::MAX,
            255 * (factor * factor) + factor * factor / 2 <= u32::MAX,
            out_len == ow * oh * 4,
            out_len <= u32::MAX,
            out@.len() == out_len,
            out_y <= oh,
            forall|ox: int, oy: int, k: int|
                0 <= ox < ow && 0 <= oy < out_y && 0 <= k < 4 ==> #[trigger] out@[byte_at(
                    ow as int,
                    ox,
                    oy,
                    k,
                )] == block_average(src@, size, factor as int, ox, oy, k),
        decreases oh - out_y,
    {
        assert(out_y * factor <= (oh - 1) * factor) by (nonlinear_arith)
            requires out_y < oh, factor > 1;
        let y0 = out_y * factor;
        let y1 = if y0 + factor < size.height { y0 + factor } else { size.height };
        let mut out_x: u32 = 0;
        while out_x < ow
            invariant
                out_size == size.spec_downscaled(factor as int),
                ow == out_size.width,
                oh == out_size.height,
                1 <= ow <= size.width,
                1 <= oh <= size.height,
                (ow - 1) * factor < size.width,
                (oh - 1) * factor < size.height,
                factor > 1,
                size.rgba_len() <= src@.len(),
                size.width as int + factor <= u32::MAX,
                255 * (factor * factor) + factor * factor / 2 <= u32::MAX,
                out_len == ow * oh * 4,
                out_len <= u32::MAX,
                out@.len() == out_len,
                out_y < oh,
                y0 == out_y * factor,
                y0 < y1 <= size.height,
                y1 - y0 <= factor,
                y1 == (if y0 + factor < size.height { y0 + factor } else { size.height as int }),
                out_x <= ow,
                forall|ox: int, oy: int, k: int|
                    0 <= ox < ow && 0 <= oy < out_y && 0 <= k < 4 ==> #[trigger] out@[byte_at(
                        ow as int,
                        ox,
                        oy,
                        k,
                    )] == block_average(src@, size, factor as int, ox, oy, k),
                forall|ox: int, k: int|
                    0 <= ox < out_x && 0 <= k < 4 ==> #[trigger] out@[byte_at(
                        ow as int,
                        ox,
                        out_y as int,
                        k,
                    )] == block_average(src@, size, factor as int, ox, out_y as int, k),
            decreases ow - out_x,
        {
            assert(out_x * factor <= (ow - 1) * factor) by (nonlinear_arith)
                requires out_x < ow, factor > 1;
            let x0 = out_x * factor;
            let x1 = if x0 + factor < size.width { x0 + factor } else { size.width };
            assert((x1 - x0) * (y1 - y0) <= factor * factor) by (nonlinear_arith)
                requires 0 < x1 - x0 <= factor, 0 < y1 - y0 <= factor;
            assert((x1 - x0) * (y1 - y0) > 0) by (nonlinear_arith)
                requires 0 < x1 - x0, 0 < y1 - y0;
            assert(255 * ((x1 - x0) * (y1 - y0)) + ((x1 - x0) * (y1 - y0)) / 2 <= 255 * (factor * factor) + factor * factor / 2) by (nonlinear_arith)
                requires (x1 - x0) * (y1 - y0) <= factor * factor, (x1 - x0) * (y1 - y0) > 0;
            let count = (x1 - x0) * (y1 - y0);
            let sums = block_sums(src, size.width, size.height, x0, x1, y0, y1);
            proof {
                lemma_block_sum_bound(src@, size.width as int, 0, x0 as int, x1 as int, y0 as int, y1 as int);
                lemma_block_sum_bound(src@, size.width as int, 1, x0 as int, x1 as int, y0 as int, y1 as int);
                lemma_block_sum_bound(src@, size.width as int, 2, x0 as int, x1 as int, y0 as int, y1 as int);
                lemma_block_sum_bound(src@, size.width as int, 3, x0 as int, x1 as int, y0 as int, y1 as int);
                lemma_pixel_in_bounds(ow as int, oh as int, out_x as int, out_y as int);
            }
            assert((out_y * ow + out_x) * 4 + 3 < ow * oh * 4) by (nonlinear_arith)
                requires out_y < oh, out_x < ow;
            let at = ((out_y * ow + out_x) * 4) as usize;
            assert(at == byte_at(ow as int, out_x as int, out_y as int, 0)) by (nonlinear_arith)
                requires at == (out_y * ow + out_x) * 4;
            let ghost prev = out@;
            out.set(at, rounded_average(sums.0, count));
            out.set(at + 1, rounded_average(sums.1, count));
            out.set(at + 2, rounded_average(sums.2, count));
            out.set(at + 3, rounded_average(sums.3, count));
            assert forall|ox: int, oy: int, k: int|
                0 <= ox < ow && 0 <= oy <= out_y && 0 <= k < 4 && (oy < out_y || ox <= out_x)
                implies #[trigger] out@[byte_at(ow as int, ox, oy, k)] == block_average(
                src@, size, factor as int, ox, oy, k) by {
                if oy == out_y && ox == out_x {
                    assert(byte_at(ow as int, ox, oy, k) == at + k);
                    if k == 0 {
                    } else if k == 1 {
                    } else if k == 2 {
                    } else {
                    }
                } else {
                    lemma_distinct_pixels(ow as int, ox, oy, k, out_x as int, out_y as int);
                    lemma_pixel_in_bounds(ow as int, oh as int, ox, oy);
                    assert(byte_at(ow as int, out_x as int, out_y as int, 0) == at);
                    assert(byte_at(ow as int, out_x as int, out_y as int, 1) == at + 1);
                    assert(byte_at(ow as int, out_x as int, out_y as int, 2) == at + 2);
                    assert(byte_at(ow as int, out_x as int, out_y as int, 3) == at + 3);
                    assert(out@[byte_at(ow as int, ox, oy, k)] == prev[byte_at(ow as int, ox, oy, k)]);
                }
            }
            out_x = out_x + 1;
        }
        out_y = out_y + 1;
    }
    (out, out_size)
}

/// Two different pixels of one buffer never share a byte.
proof fn lemma_distinct_pixels(width: int, x: int, y: int, k: int, x2: int, y2: int)
    requires
        0 <= x < width,
        0 <= x2 < width,
        0 <= k < 4,
        y >= 0,
        y2 >= 0,
        x != x2 || y != y2,
    ensures
        forall|k2: int| 0 <= k2 < 4 ==> byte_at(width, x, y, k) != #[trigger] byte_at(width, x2, y2, k2),
{
    assert forall|k2: int| 0 <= k2 < 4 implies byte_at(width, x, y, k) != #[trigger] byte_at(width, x2, y2, k2) by {
        if y == y2 {
            assert(y * (width * 4) == y2 * (width * 4));
        } else if y < y2 {
            assert(y * (width * 4) + width * 4 <= y2 * (width * 4)) by (nonlinear_arith)
                requires y < y2, width > 0;
        } else {
            assert(y2 * (width * 4) + width * 4 <= y * (width * 4)) by (nonlinear_arith)
                requires y2 < y, width > 0;
        }
    }
}

/// `i` held inside `0..n`.
pub open spec fn clamp_index(i: int, n: int) -> int {
    if i < 0 {
        0
    } else if i > n - 1 {
        n - 1
    } else {
        i
    }
}

/// Element `i` of the line of `n` bytes that starts at `base` and advances
/// by `step`, with `i` clamped to the line: reading past either end repeats
/// the end byte.
pub open spec fn line_value(src: Seq<u8>, base: int, step: int, n: int, i: int) -> int {
    src[base + clamp_index(i, n) * step] as int
}

/// Sum of the clamped line elements `lo..hi`.
pub open spec fn window_sum(src: Seq<u8>, base: int, step: int, n: int, lo: int, hi: int) -> int
    decreases hi - lo,
{
    if hi <= lo {
        0
    } else {
        window_sum(src, base, step, n, lo, hi - 1) + line_value(src, base, step, n, hi - 1)
    }
}

/// Element `i` of the line after a box of width `2 * radius + 1`: the
/// rounded mean of the window centred on it, clamped to the line's ends.
pub open spec fn box_value(src: Seq<u8>, base: int, step: int, n: int, i: int, radius: int) -> int {
    let span = 2 * radius + 1;
    (window_sum(src, base, step, n, i - radius, i + radius + 1) + span / 2) / span
}

proof fn lemma_window_bound(src: Seq<u8>, base: int, step: int, n: int, lo: int, hi: int)
    requires
        lo <= hi,
    ensures
        0 <= window_sum(src, base, step, n, lo, hi) <= 255 * (hi - lo),
    decreases hi - lo,
{
    if hi > lo {
        lemma_window_bound(src, base, step, n, lo, hi - 1);
    }
}

/// Peeling the first element off a window.
proof fn lemma_window_front(src: Seq<u8>, base: int, step: int, n: int, lo: int, hi: int)
    requires
        lo < hi,
    ensures
        window_sum(src, base, step, n, lo, hi) == line_value(src, base, step, n, lo)
            + window_sum(src, base, step, n, lo + 1, hi),
    decreases hi - lo,
{
    if hi - 1 > lo {
        lemma_window_front(src, base, step, n, lo, hi - 1);
        assert(window_sum(src, base, step, n, lo + 1, hi) == window_sum(src, base, step, n, lo + 1, hi - 1) + line_value(src, base, step, n, hi - 1));
    } else {
        assert(window_sum(src, base, step, n, lo, hi - 1) == 0);
        assert(window_sum(src, base, step, n, lo + 1, hi) == 0);
    }
}

/// The clamped element `i` of a line, read from the buffer.
fn line_at(src: &[u8], base: usize, step: usize, n: usize, i: i64) -> (v: u32)
    requires
        n >= 1,
        n <= i64::MAX,
        base + (n - 1) * step < src@.len(),
    ensures
        v == line_value(src@, base as int, step as int, n as int, i as int),
{
    let last = (n - 1) as i64;
    let c: i64 = if i < 0 {
        0
    } else if i > last {
        last
    } else {
        i
    };
    assert(c * step <= (n - 1) * step) by (nonlinear_arith)
        requires
            0 <= c <= n - 1,
    ;
    assert(c * step >= 0) by (nonlinear_arith)
        requires
            0 <= c,
    ;
    let len = src.len();
    let cu = c as usize;
    assert(cu == c);
    let offset = cu * step;
    src[base + offset] as u32
}

/// One box pass over a single line with a running sum: element `i` of the
/// line in `dst` becomes the rounded mean of the `2 * radius + 1` elements
/// of the line in `src` centred on it, the window clamped to the line.
/// Nothing off the line is written.
fn box_line(src: &[u8], dst: &mut Vec<u8>, base: usize, step: usize, n: usize, radius: u32)
    requires
        n >= 1,
        step >= 1,
        radius >= 1,
        base + (n - 1) * step < src@.len(),
        base + (n - 1) * step < old(dst)@.len(),
        (2 * radius as int + 2) * 255 <= u32::MAX,
        (2 * radius as int + 1) * 255 + radius <= u32::MAX,
        n <= u32::MAX,
    ensures
        final(dst)@.len() == old(dst)@.len(),
        forall|i: int|
            0 <= i < n ==> #[trigger] final(dst)@[base + i * step] == box_value(
                src@,
                base as int,
                step as int,
                n as int,
                i,
                radius as int,
            ),
        forall|j: int|
            0 <= j < old(dst)@.len() && (j < base || (j - base) % (step as int) != 0 || (j - base)
                / (step as int) >= n) ==> #[trigger] final(dst)@[j] == old(dst)@[j],
{
    let span: u32 = 2 * radius + 1;
    let half: u32 = span / 2;
    let r = radius as i64;
    let ghost s = src@;
    let mut sum: u32 = 0;
    let mut t: i64 = -r;
    while t <= r
        invariant
            n >= 1,
            base + (n - 1) * step < src@.len(),
            s == src@,
            r == radius,
            n <= u32::MAX,
            (2 * radius as int + 2) * 255 <= u32::MAX,
            -r <= t <= r + 1,
            sum == window_sum(s, base as int, step as int, n as int, -r as int, t as int),
        decreases r + 1 - t,
    {
        proof {
            lemma_window_bound(s, base as int, step as int, n as int, -r as int, t as int);
        }
        sum = sum + line_at(src, base, step, n, t);
        t = t + 1;
    }
    let nn = n as i64;
    let len = src.len();
    let dlen = dst.len();
    let ghost old_dst = dst@;
    let mut i: i64 = 0;
    while i < nn
        invariant
            n >= 1,
            step >= 1,
            nn == n,
            n <= u32::MAX,
            base + (n - 1) * step < src@.len(),
            base + (n - 1) * step < old_dst.len(),
            dst@.len() == old_dst.len(),
            s == src@,
            r == radius,
            span == 2 * radius + 1,
            half == span / 2,
            (2 * radius as int + 2) * 255 <= u32::MAX,
            (2 * radius as int + 1) * 255 + radius <= u32::MAX,
            len == src@.len(),
            dlen == dst@.len(),
            0 <= i <= nn,
            sum == window_sum(s, base as int, step as int, n as int, i - r, i + r + 1),
            forall|q: int|
                0 <= q < i ==> #[trigger] dst@[base + q * step] == box_value(
                    s,
                    base as int,
                    step as int,
                    n as int,
                    q,
                    radius as int,
                ),
            forall|j: int|
                0 <= j < old_dst.len() && (j < base || (j - base) % (step as int) != 0 || (j
                    - base) / (step as int) >= i) ==> #[trigger] dst@[j] == old_dst[j],
        decreases nn - i,
    {
        proof {
            lemma_window_bound(s, base as int, step as int, n as int, i - r, i + r + 1);
            assert((i - r) + 2 * r + 1 == i + r + 1);
        }
        assert(half == radius);
        assert(sum <= 255 * (2 * radius + 1));
        assert(sum + half <= u32::MAX);
        assert((sum as int + half as int) / span as int <= 255) by (nonlinear_arith)
            requires
                sum <= 255 * span,
                half < span,
                span > 0,
        ;
        let value = ((sum + half) / span) as u8;
        assert(i * step <= (n - 1) * step) by (nonlinear_arith)
            requires
                0 <= i < n,
                step >= 1,
        ;
        assert(i * step >= 0) by (nonlinear_arith)
            requires
                0 <= i,
                step >= 1,
        ;
        let iu = i as usize;
        assert(iu == i);
        let at = base + iu * step;
        let ghost before = dst@;
        dst.set(at, value);
        proof {
            assert forall|q: int|
                0 <= q < i + 1 implies #[trigger] dst@[base + q * step] == box_value(
                s,
                base as int,
                step as int,
                n as int,
                q,
                radius as int,
            ) by {
                if q < i {
                    assert(q * step < i * step) by (nonlinear_arith)
                        requires
                            q < i,
                            step >= 1,
                    ;
                    assert(q * step >= 0) by (nonlinear_arith)
                        requires
                            0 <= q,
                            step >= 1,
                    ;
                }
            }
            assert forall|j: int|
                0 <= j < old_dst.len() && (j < base || (j - base) % (step as int) != 0 || (j
                    - base) / (step as int) >= i + 1) implies #[trigger] dst@[j] == old_dst[j] by {
                if j == at {
                    assert((at - base) % (step as int) == 0 && (at - base) / (step as int) == i)
                        by (nonlinear_arith)
                        requires
                            at - base == i * step,
                            step >= 1,
                            i >= 0,
                    ;
                }
            }
            lemma_window_front(s, base as int, step as int, n as int, i - r, i + r + 2);
            assert(window_sum(s, base as int, step as int, n as int, i - r, i + r + 2)
                == window_sum(s, base as int, step as int, n as int, i - r, i + r + 1)
                + line_value(s, base as int, step as int, n as int, i + r + 1));
        }
        let incoming = line_at(src, base, step, n, i + r + 1);
        let outgoing = line_at(src, base, step, n, i - r);
        proof {
            lemma_window_bound(s, base as int, step as int, n as int, i - r, i + r + 2);
            lemma_window_bound(s, base as int, step as int, n as int, i - r + 1, i + r + 2);
        }
        let widened = sum + incoming;
        sum = widened - outgoing;
        i = i + 1;
    }
}

/// The row of byte `j` in a buffer whose rows are `width` pixels wide.
pub open spec fn row_of(width: int, j: int) -> int {
    j / (width * 4)
}

/// The column of byte `j`.
pub open spec fn column_of(width: int, j: int) -> int {
    (j % (width * 4)) / 4
}

/// The channel of byte `j`.
pub open spec fn channel_of(j: int) -> int {
    j % 4
}

/// A pixel's byte decodes back to that pixel and channel.
proof fn lemma_decode(width: int, x: int, y: int, c: int)
    requires
        0 <= x < width,
        0 <= c < 4,
        0 <= y,
    ensures
        row_of(width, byte_at(width, x, y, c)) == y,
        column_of(width, byte_at(width, x, y, c)) == x,
        channel_of(byte_at(width, x, y, c)) == c,
{
    let j = byte_at(width, x, y, c);
    lemma_fundamental_div_mod_converse(j, width * 4, y, x * 4 + c);
    lemma_fundamental_div_mod_converse(x * 4 + c, 4, x, c);
    assert(j == (y * width + x) * 4 + c) by (nonlinear_arith)
        requires
            j == y * (width * 4) + x * 4 + c,
    ;
    lemma_fundamental_div_mod_converse(j, 4, y * width + x, c);
}

/// Every byte of a `width` x `height` buffer is a pixel's byte.
proof fn lemma_encode(width: int, height: int, j: int)
    requires
        0 <= width,
        0 <= height,
        0 <= j < width * height * 4,
    ensures
        0 <= column_of(width, j) < width,
        0 <= row_of(width, j) < height,
        0 <= channel_of(j) < 4,
        byte_at(width, column_of(width, j), row_of(width, j), channel_of(j)) == j,
{
    assert(width > 0) by (nonlinear_arith)
        requires
            0 <= width,
            0 <= height,
            0 <= j < width * height * 4,
    ;
    lemma_fundamental_div_mod(j, width * 4);
    let y = j / (width * 4);
    let r = j % (width * 4);
    lemma_fundamental_div_mod(r, 4);
    let x = r / 4;
    let c = r % 4;
    assert(0 <= r < width * 4);
    assert(0 <= x < width);
    assert(0 <= y < height) by (nonlinear_arith)
        requires
            j == width * 4 * y + r,
            0 <= r < width * 4,
            0 <= j < width * height * 4,
    ;
    assert(j == (y * width + x) * 4 + c) by (nonlinear_arith)
        requires
            j == width * 4 * y + r,
            r == 4 * x + c,
    ;
    lemma_fundamental_div_mod_converse(j, 4, y * width + x, c);
    assert(j == y * (width * 4) + x * 4 + c) by (nonlinear_arith)
        requires
            j == width * 4 * y + r,
            r == 4 * x + c,
    ;
}

/// The whole buffer after one horizontal box pass of `radius`: each byte of
/// the picture is the box of its row and channel; bytes past the picture
/// keep the value `prev` had there.
pub open spec fn horizontal_pass(src: Seq<u8>, size: PixelSize, radius: int, prev: Seq<u8>) -> Seq<
    u8,
> {
    let w = size.width as int;
    Seq::new(
        prev.len(),
        |j: int|
            if j < size.rgba_len() {
                box_value(src, byte_at(w, 0, row_of(w, j), channel_of(j)), 4, w, column_of(w, j), radius) as u8
            } else {
                prev[j]
            },
    )
}

/// The whole buffer after one vertical box pass of `radius`.
pub open spec fn vertical_pass(src: Seq<u8>, size: PixelSize, radius: int, prev: Seq<u8>) -> Seq<
    u8,
> {
    let w = size.width as int;
    Seq::new(
        prev.len(),
        |j: int|
            if j < size.rgba_len() {
                box_value(src, byte_at(w, column_of(w, j), 0, channel_of(j)), w * 4, size.height as int, row_of(w, j), radius) as u8
            } else {
                prev[j]
            },
    )
}

/// One horizontal box pass with a running sum over every row and channel.
///
/// The window is clamped to the edge rather than padded with zeros, so an
/// opaque edge stays opaque. A radius of zero copies `src`.
pub fn box_pass_horizontal(src: &[u8], dst: &mut Vec<u8>, size: PixelSize, radius: u32)
    requires
        old(dst)@.len() == src@.len(),
        size.rgba_len() <= src@.len(),
        radius > 0 && size.height > 0 ==> size.width >= 1,
        (2 * radius as int + 2) * 255 <= u32::MAX,
        (2 * radius as int + 1) * 255 + radius <= u32::MAX,
    ensures
        radius == 0 ==> final(dst)@ == src@,
        radius > 0 ==> final(dst)@ == horizontal_pass(src@, size, radius as int, old(dst)@),
{
    if radius == 0 {
        *dst = slice_to_vec(src);
        return;
    }
    let ghost prev = dst@;
    let ghost target = horizontal_pass(src@, size, radius as int, prev);
    let ghost w = size.width as int;
    let len = src.len();
    if size.height == 0 {
        assert(dst@ =~= target);
        return;
    }
    assert(size.width as int * 4 <= size.rgba_len()) by (nonlinear_arith)
        requires size.height >= 1;
    let width = size.width as usize;
    let stride = width * 4;
    let mut y: u32 = 0;
    while y < size.height
        invariant
            len == src@.len(),
            dst@.len() == len,
            prev.len() == len,
            width == size.width,
            w == width,
            stride == width * 4,
            radius > 0,
            size.height > 0 ==> size.width >= 1,
            size.rgba_len() <= len,
            (2 * radius as int + 2) * 255 <= u32::MAX,
            (2 * radius as int + 1) * 255 + radius <= u32::MAX,
            target == horizontal_pass(src@, size, radius as int, prev),
            y <= size.height,
            forall|j: int|
                0 <= j < len ==> #[trigger] dst@[j] == if j < y as int * stride {
                    target[j]
                } else {
                    prev[j]
                },
        decreases size.height - y,
    {
        let mut c: usize = 0;
        while c < 4
            invariant
                len == src@.len(),
                dst@.len() == len,
                prev.len() == len,
                width == size.width,
                w == width,
                width >= 1,
                stride == width * 4,
                radius > 0,
                size.rgba_len() <= len,
                (2 * radius as int + 2) * 255 <= u32::MAX,
                (2 * radius as int + 1) * 255 + radius <= u32::MAX,
                target == horizontal_pass(src@, size, radius as int, prev),
                y < size.height,
                c <= 4,
                forall|j: int|
                    0 <= j < len ==> #[trigger] dst@[j] == if j < y as int * stride || (j
                        < size.rgba_len() && row_of(w, j) == y && channel_of(j) < c) {
                        target[j]
                    } else {
                        prev[j]
                    },
            decreases 4 - c,
        {
            proof {
                lemma_pixel_in_bounds(w, size.height as int, w - 1, y as int);
                lemma_pixel_in_bounds(w, size.height as int, 0, y as int);
            }
            let base = (y as usize) * stride + c;
            assert(base == byte_at(w, 0, y as int, c as int));
            let ghost before = dst@;
            box_line(src, dst, base, 4, width, radius);
            proof {
                assert forall|j: int| 0 <= j < len implies #[trigger] dst@[j] == if j < y as int
                    * stride || (j < size.rgba_len() && row_of(w, j) == y && channel_of(j) < c
                    + 1) {
                    target[j]
                } else {
                    prev[j]
                } by {
                    if j >= base && (j - base) % 4 == 0 && (j - base) / 4 < w {
                        let x = (j - base) / 4;
                        assert(j == byte_at(w, x, y as int, c as int));
                        lemma_decode(w, x, y as int, c as int);
                        lemma_pixel_in_bounds(w, size.height as int, x, y as int);
                        assert(j == base + x * 4);
                        assert(j >= y as int * stride);
                    } else {
                        assert(dst@[j] == before[j]);
                        if j < size.rgba_len() {
                            lemma_encode(w, size.height as int, j);
                            if row_of(w, j) == y && channel_of(j) == c {
                                assert(j == base + column_of(w, j) * 4);
                            }
                            if j < y as int * stride {
                                assert(row_of(w, j) < y) by (nonlinear_arith)
                                    requires
                                        j == row_of(w, j) * (w * 4) + column_of(w, j) * 4 + channel_of(j),
                                        0 <= column_of(w, j) < w,
                                        0 <= channel_of(j) < 4,
                                        j < y * (w * 4),
                                ;
                            }
                        }
                    }
                }
            }
            c = c + 1;
        }
        proof {
            assert forall|j: int| 0 <= j < len implies #[trigger] dst@[j] == if j < (y + 1) as int
                * stride {
                target[j]
            } else {
                prev[j]
            } by {
                if j < size.rgba_len() {
                    lemma_encode(w, size.height as int, j);
                    assert(j < (y + 1) as int * stride <==> row_of(w, j) <= y) by (nonlinear_arith)
                        requires
                            j == row_of(w, j) * (w * 4) + column_of(w, j) * 4 + channel_of(j),
                            0 <= column_of(w, j) < w,
                            0 <= channel_of(j) < 4,
                            stride == w * 4,
                    ;
                    assert(j < y as int * stride <==> row_of(w, j) < y) by (nonlinear_arith)
                        requires
                            j == row_of(w, j) * (w * 4) + column_of(w, j) * 4 + channel_of(j),
                            0 <= column_of(w, j) < w,
                            0 <= channel_of(j) < 4,
                            stride == w * 4,
                    ;
                } else {
                    assert((y + 1) as int * stride <= size.rgba_len()) by (nonlinear_arith)
                        requires
                            y < size.height,
                            stride == size.width * 4,
                    ;
                }
            }
        }
        y = y + 1;
    }
    proof {
        assert(dst@ =~= target) by {
            assert forall|j: int| 0 <= j < len implies dst@[j] == target[j] by {
                if j >= size.rgba_len() {
                } else {
                    assert(size.rgba_len() == size.height as int * stride) by (nonlinear_arith)
                        requires stride == size.width as int * 4;
                }
            }
        }
    }
}

/// One vertical box pass with a running sum over every column and channel;
/// see [`box_pass_horizontal`].
pub fn box_pass_vertical(src: &[u8], dst: &mut Vec<u8>, size: PixelSize, radius: u32)
    requires
        old(dst)@.len() == src@.len(),
        size.rgba_len() <= src@.len(),
        radius > 0 && size.width > 0 ==> size.height >= 1,
        (2 * radius as int + 2) * 255 <= u32::MAX,
        (2 * radius as int + 1) * 255 + radius <= u32::MAX,
    ensures
        radius == 0 ==> final(dst)@ == src@,
        radius > 0 ==> final(dst)@ == vertical_pass(src@, size, radius as int, old(dst)@),
{
    if radius == 0 {
        *dst = slice_to_vec(src);
        return;
    }
    let ghost prev = dst@;
    let ghost target = vertical_pass(src@, size, radius as int, prev);
    let ghost w = size.width as int;
    let ghost h = size.height as int;
    let len = src.len();
    if size.width == 0 {
        assert(size.width as int * size.height as int * 4 == 0) by (nonlinear_arith)
            requires
                size.width == 0,
        ;
        assert(dst@ =~= target);
        return;
    }
    assert(size.width as int * 4 <= size.rgba_len()) by (nonlinear_arith)
        requires size.height >= 1;
    let width = size.width as usize;
    let height = size.height as usize;
    let stride = width * 4;
    let mut x: usize = 0;
    while x < width
        invariant
            len == src@.len(),
            dst@.len() == len,
            prev.len() == len,
            width == size.width,
            height == size.height,
            w == width,
            h == height,
            width >= 1,
            height >= 1,
            stride == width * 4,
            radius > 0,
            size.rgba_len() <= len,
            (2 * radius as int + 2) * 255 <= u32::MAX,
            (2 * radius as int + 1) * 255 + radius <= u32::MAX,
            target == vertical_pass(src@, size, radius as int, prev),
            x <= width,
            forall|j: int|
                0 <= j < len ==> #[trigger] dst@[j] == if j < size.rgba_len() && column_of(w, j)
                    < x {
                    target[j]
                } else {
                    prev[j]
                },
        decreases width - x,
    {
        let mut c: usize = 0;
        while c < 4
            invariant
                len == src@.len(),
                dst@.len() == len,
                prev.len() == len,
                width == size.width,
                height == size.height,
                w == width,
                h == height,
                width >= 1,
                height >= 1,
                stride == width * 4,
                radius > 0,
                size.rgba_len() <= len,
                (2 * radius as int + 2) * 255 <= u32::MAX,
                (2 * radius as int + 1) * 255 + radius <= u32::MAX,
                target == vertical_pass(src@, size, radius as int, prev),
                x < width,
                c <= 4,
                forall|j: int|
                    0 <= j < len ==> #[trigger] dst@[j] == if j < size.rgba_len() && (column_of(
                        w,
                        j,
                    ) < x || (column_of(w, j) == x && channel_of(j) < c)) {
                        target[j]
                    } else {
                        prev[j]
                    },
            decreases 4 - c,
        {
            proof {
                lemma_pixel_in_bounds(w, h, x as int, h - 1);
                lemma_pixel_in_bounds(w, h, x as int, 0);
            }
            let base = x * 4 + c;
            assert(base == byte_at(w, x as int, 0, c as int));
            assert(base + (height - 1) * stride == byte_at(w, x as int, h - 1, c as int));
            let ghost before = dst@;
            box_line(src, dst, base, stride, height, radius);
            proof {
                assert forall|j: int| 0 <= j < len implies #[trigger] dst@[j] == if j
                    < size.rgba_len() && (column_of(w, j) < x || (column_of(w, j) == x
                    && channel_of(j) < c + 1)) {
                    target[j]
                } else {
                    prev[j]
                } by {
                    if j >= base && (j - base) % (stride as int) == 0 && (j - base) / (stride as int) < h {
                        let y = (j - base) / (stride as int);
                        lemma_fundamental_div_mod(j - base, stride as int);
                        assert(j == base + y * stride);
                        assert(j == byte_at(w, x as int, y, c as int));
                        lemma_decode(w, x as int, y, c as int);
                        lemma_pixel_in_bounds(w, h, x as int, y);
                    } else {
                        assert(dst@[j] == before[j]);
                        if j < size.rgba_len() {
                            lemma_encode(w, h, j);
                            if column_of(w, j) == x && channel_of(j) == c {
                                let y = row_of(w, j);
                                assert(j - base == y * stride);
                                lemma_fundamental_div_mod_converse(j - base, stride as int, y, 0);
                            }
                        }
                    }
                }
            }
            c = c + 1;
        }
        proof {
            assert forall|j: int| 0 <= j < len implies #[trigger] dst@[j] == if j < size.rgba_len()
                && column_of(w, j) < x + 1 {
                target[j]
            } else {
                prev[j]
            } by {
                if j < size.rgba_len() {
                    lemma_encode(w, h, j);
                }
            }
        }
        x = x + 1;
    }
    proof {
        assert(dst@ =~= target) by {
            assert forall|j: int| 0 <= j < len implies dst@[j] == target[j] by {
                if j < size.rgba_len() {
                    lemma_encode(w, h, j);
                }
            }
        }
    }
}

/// Element `t` of the line that starts at `base` and advances by `step`.
pub open spec fn line_byte(a: Seq<u8>, base: int, step: int, t: int) -> u8 {
    a[base + t * step]
}

/// Windows over two buffers that agree along the line are equal.
proof fn lemma_window_local(a: Seq<u8>, b: Seq<u8>, base: int, step: int, n: int, lo: int, hi: int)
    requires
        n >= 1,
        forall|t: int| 0 <= t < n ==> #[trigger] line_byte(a, base, step, t) == line_byte(b, base, step, t),
    ensures
        window_sum(a, base, step, n, lo, hi) == window_sum(b, base, step, n, lo, hi),
    decreases hi - lo,
{
    if hi > lo {
        lemma_window_local(a, b, base, step, n, lo, hi - 1);
        let t = clamp_index(hi - 1, n);
        assert(line_byte(a, base, step, t) == line_byte(b, base, step, t));
    }
}

/// A vertical pass reads nothing past the picture, so what the buffer it
/// reads holds there does not matter.
proof fn lemma_vertical_pass_local(a: Seq<u8>, b: Seq<u8>, size: PixelSize, radius: int, prev: Seq<u8>)
    requires
        radius >= 0,
        size.rgba_len() <= a.len(),
        size.rgba_len() <= b.len(),
        forall|j: int| 0 <= j < size.rgba_len() ==> a[j] == b[j],
    ensures
        vertical_pass(a, size, radius, prev) == vertical_pass(b, size, radius, prev),
{
    let w = size.width as int;
    let h = size.height as int;
    assert(vertical_pass(a, size, radius, prev) =~= vertical_pass(b, size, radius, prev)) by {
        assert forall|j: int| 0 <= j < prev.len() implies vertical_pass(a, size, radius, prev)[j]
            == vertical_pass(b, size, radius, prev)[j] by {
            if j < size.rgba_len() {
                lemma_encode(w, h, j);
                let x = column_of(w, j);
                let c = channel_of(j);
                let base = byte_at(w, x, 0, c);
                assert forall|t: int| 0 <= t < h implies #[trigger] line_byte(a, base, w * 4, t) == line_byte(b, base, w * 4, t) by {
                    lemma_pixel_in_bounds(w, h, x, t);
                    assert(base + t * (w * 4) == byte_at(w, x, t, c));
                }
                lemma_window_local(a, b, base, w * 4, h, row_of(w, j) - radius, row_of(w, j) + radius + 1);
            }
        }
    }
}

/// One round of the blur: a horizontal and a vertical box of `radius`.
pub open spec fn box_round(s: Seq<u8>, size: PixelSize, radius: int) -> Seq<u8> {
    if radius == 0 {
        s
    } else {
        vertical_pass(horizontal_pass(s, size, radius, s), size, radius, s)
    }
}

/// Whether the running sum of a box of `radius` fits in 32 bits.
pub open spec fn box_sums_fit(radius: int) -> bool {
    &&& (2 * radius + 2) * 255 <= u32::MAX
    &&& (2 * radius + 1) * 255 + radius <= u32::MAX
}

/// The radius of a box of odd width `width`.
pub open spec fn box_radius(width: u32) -> int {
    (width as int - 1) / 2
}

/// Whether a box of odd width `width` is at least one wide and its running
/// sum fits in 32 bits: what [`blur_boxes`] asks of each width.
pub fn box_sums_fit_for(width: u32) -> (fit: bool)
    ensures
        fit == (width >= 1 && box_sums_fit(box_radius(width))),
{
    if width == 0 {
        return false;
    }
    let radius = ((width - 1) / 2) as u64;
    (2 * radius + 2) * 255 <= 0xffff_ffff && (2 * radius + 1) * 255 + radius <= 0xffff_ffff
}

/// The buffer after three rounds of box blur, one per width.
pub open spec fn blurred(s: Seq<u8>, size: PixelSize, widths: [u32; 3]) -> Seq<u8> {
    box_round(
        box_round(box_round(s, size, box_radius(widths[0])), size, box_radius(widths[1])),
        size,
        box_radius(widths[2]),
    )
}

/// Whether any of `widths` is wide enough to reach a neighbour, that is,
/// whether the blur reads the picture at all.
pub open spec fn has_box(widths: [u32; 3]) -> bool {
    widths[0] >= 3 || widths[1] >= 3 || widths[2] >= 3
}

/// Three horizontal and three vertical box passes over premultiplied BGRA,
/// one pair per box width; three boxes converge on a Gaussian. Widths of one
/// are the identity, and leave the buffer alone whatever its size.
pub fn blur_boxes(buf: &mut Vec<u8>, size: PixelSize, widths: [u32; 3])
    requires
        !(widths[0] == 1 && widths[1] == 1 && widths[2] == 1) ==> forall|k: int|
            0 <= k < 3 ==> widths[k] >= 1,
        has_box(widths) ==> size.rgba_len() <= old(buf)@.len(),
        has_box(widths) ==> forall|k: int|
            0 <= k < 3 ==> box_sums_fit(box_radius(#[trigger] widths[k])),
        has_box(widths) ==> (size.width == 0) == (size.height == 0),
    ensures
        final(buf)@ == blurred(old(buf)@, size, widths),
        !has_box(widths) ==> final(buf)@ == old(buf)@,
{
    if widths[0] < 3 && widths[1] < 3 && widths[2] < 3 {
        assert(box_radius(widths[0]) == 0 && box_radius(widths[1]) == 0 && box_radius(widths[2])
            == 0);
        return;
    }
    let len = buf.len();
    let mut scratch: Vec<u8> = vec![0u8; len];
    let ghost start = buf@;
    let mut k: usize = 0;
    while k < 3
        invariant
            buf@.len() == len,
            scratch@.len() == len,
            size.rgba_len() <= len,
            forall|q: int| 0 <= q < 3 ==> widths[q] >= 1,
            forall|q: int| 0 <= q < 3 ==> box_sums_fit(box_radius(#[trigger] widths[q])),
            (size.width == 0) == (size.height == 0),
            k <= 3,
            buf@ == (if k == 0 {
                start
            } else if k == 1 {
                box_round(start, size, box_radius(widths[0]))
            } else if k == 2 {
                box_round(box_round(start, size, box_radius(widths[0])), size, box_radius(widths[1]))
            } else {
                blurred(start, size, widths)
            }),
        decreases 3 - k,
    {
        let radius = (widths[k] - 1) / 2;
        assert(radius == box_radius(widths[k as int]));
        let ghost before = buf@;
        box_pass_horizontal(buf.as_slice(), &mut scratch, size, radius);
        let ghost middle = scratch@;
        box_pass_vertical(scratch.as_slice(), buf, size, radius);
        proof {
            if radius > 0 {
                lemma_vertical_pass_local(middle, horizontal_pass(before, size, radius as int, before), size, radius as int, before);
            }
        }
        k = k + 1;
    }
}

/// Every pixel of the `size` picture in `s` is `color`.
pub open spec fn uniform(s: Seq<u8>, size: PixelSize, color: Seq<u8>) -> bool {
    forall|x: int, y: int, c: int|
        0 <= x < size.width && 0 <= y < size.height && 0 <= c < 4 ==> #[trigger] s[byte_at(
            size.width as int,
            x,
            y,
            c,
        )] == color[c]
}

proof fn lemma_window_constant(src: Seq<u8>, base: int, step: int, n: int, lo: int, hi: int, v: int)
    requires
        n >= 1,
        lo <= hi,
        forall|t: int| 0 <= t < n ==> #[trigger] line_byte(src, base, step, t) == v,
    ensures
        window_sum(src, base, step, n, lo, hi) == (hi - lo) * v,
    decreases hi - lo,
{
    if hi > lo {
        lemma_window_constant(src, base, step, n, lo, hi - 1, v);
        let t = clamp_index(hi - 1, n);
        assert(line_byte(src, base, step, t) == v);
        assert((hi - 1 - lo) * v + v == (hi - lo) * v) by (nonlinear_arith);
    } else {
        assert((hi - lo) * v == 0) by (nonlinear_arith)
            requires
                hi == lo,
        ;
    }
}

proof fn lemma_box_constant(src: Seq<u8>, base: int, step: int, n: int, i: int, radius: int, v: int)
    requires
        n >= 1,
        radius >= 0,
        forall|t: int| 0 <= t < n ==> #[trigger] line_byte(src, base, step, t) == v,
    ensures
        box_value(src, base, step, n, i, radius) == v,
{
    lemma_window_constant(src, base, step, n, i - radius, i + radius + 1, v);
    let span = 2 * radius + 1;
    assert((span * v + span / 2) / span == v) by (nonlinear_arith)
        requires
            span >= 1,
    ;
    assert((i + radius + 1 - (i - radius)) * v == span * v);
}

/// One round of box blur leaves a uniform picture exactly as it was: the
/// window is clamped to the edge, so nothing from outside the picture
/// leaks in.
proof fn lemma_uniform_round(s: Seq<u8>, size: PixelSize, radius: int, color: Seq<u8>)
    requires
        radius >= 0,
        size.rgba_len() <= s.len(),
        uniform(s, size, color),
        forall|c: int| 0 <= c < 4 ==> 0 <= #[trigger] color[c] <= 255,
    ensures
        box_round(s, size, radius) == s,
{
    if radius > 0 {
        let w = size.width as int;
        let h = size.height as int;
        let hp = horizontal_pass(s, size, radius, s);
        assert forall|j: int| 0 <= j < s.len() implies #[trigger] hp[j] == s[j] by {
            if j < size.rgba_len() {
                lemma_encode(w, h, j);
                let y = row_of(w, j);
                let c = channel_of(j);
                let base = byte_at(w, 0, y, c);
                assert forall|t: int| 0 <= t < w implies #[trigger] line_byte(s, base, 4, t) == color[c] by {
                    assert(base + t * 4 == byte_at(w, t, y, c));
                }
                lemma_box_constant(s, base, 4, w, column_of(w, j), radius, color[c] as int);
            }
        }
        assert(hp =~= s);
        let vp = vertical_pass(hp, size, radius, s);
        assert forall|j: int| 0 <= j < s.len() implies #[trigger] vp[j] == s[j] by {
            if j < size.rgba_len() {
                lemma_encode(w, h, j);
                let x = column_of(w, j);
                let c = channel_of(j);
                let base = byte_at(w, x, 0, c);
                assert forall|t: int| 0 <= t < h implies #[trigger] line_byte(s, base, w * 4, t) == color[c] by {
                    assert(base + t * (w * 4) == byte_at(w, x, t, c));
                }
                lemma_box_constant(s, base, w * 4, h, row_of(w, j), radius, color[c] as int);
            }
        }
        assert(vp =~= s);
    }
}

/// Three boxes of width one are the identity.
pub proof fn lemma_unit_boxes_are_identity(s: Seq<u8>, size: PixelSize)
    ensures
        blurred(s, size, [1u32, 1u32, 1u32]) == s,
{
}

/// A uniform texture is its own blur, whatever the box widths.
pub proof fn lemma_uniform_blur_is_identity(s: Seq<u8>, size: PixelSize, widths: [u32; 3], color: Seq<u8>)
    requires
        size.rgba_len() <= s.len(),
        uniform(s, size, color),
        forall|c: int| 0 <= c < 4 ==> 0 <= #[trigger] color[c] <= 255,
        forall|k: int| 0 <= k < 3 ==> widths[k] >= 1,
    ensures
        blurred(s, size, widths) == s,
{
    lemma_uniform_round(s, size, box_radius(widths[0]), color);
    lemma_uniform_round(s, size, box_radius(widths[1]), color);
    lemma_uniform_round(s, size, box_radius(widths[2]), color);
}

proof fn lemma_row_sum_constant(src: Seq<u8>, width: int, k: int, y: int, x0: int, x1: int, v: int)
    requires
        x0 <= x1,
        forall|x: int| x0 <= x < x1 ==> #[trigger] src[byte_at(width, x, y, k)] == v,
    ensures
        row_sum(src, width, k, y, x0, x1) == (x1 - x0) * v,
    decreases x1 - x0,
{
    if x1 > x0 {
        lemma_row_sum_constant(src, width, k, y, x0, x1 - 1, v);
        assert(src[byte_at(width, x1 - 1, y, k)] == v);
        assert((x1 - 1 - x0) * v + v == (x1 - x0) * v) by (nonlinear_arith);
    } else {
        assert((x1 - x0) * v == 0) by (nonlinear_arith)
            requires
                x1 == x0,
        ;
    }
}

proof fn lemma_block_sum_constant(src: Seq<u8>, width: int, k: int, x0: int, x1: int, y0: int, y1: int, v: int)
    requires
        x0 <= x1,
        y0 <= y1,
        forall|x: int, y: int| x0 <= x < x1 && y0 <= y < y1 ==> #[trigger] src[byte_at(width, x, y, k)] == v,
    ensures
        block_sum(src, width, k, x0, x1, y0, y1) == (x1 - x0) * (y1 - y0) * v,
    decreases y1 - y0,
{
    if y1 > y0 {
        lemma_block_sum_constant(src, width, k, x0, x1, y0, y1 - 1, v);
        assert forall|x: int| x0 <= x < x1 implies #[trigger] src[byte_at(width, x, y1 - 1, k)] == v by {}
        lemma_row_sum_constant(src, width, k, y1 - 1, x0, x1, v);
        assert((x1 - x0) * (y1 - 1 - y0) * v + (x1 - x0) * v == (x1 - x0) * (y1 - y0) * v) by (nonlinear_arith);
    } else {
        assert((x1 - x0) * (y1 - y0) * v == 0) by (nonlinear_arith)
            requires
                y1 == y0,
        ;
    }
}

/// Downsampling a uniform picture gives the same colour everywhere, partial
/// blocks at the edges included.
pub proof fn lemma_uniform_downsample(src: Seq<u8>, size: PixelSize, factor: int, color: Seq<u8>, ox: int, oy: int, k: int)
    requires
        factor > 1,
        uniform(src, size, color),
        0 <= ox < size.spec_downscaled(factor).width,
        0 <= oy < size.spec_downscaled(factor).height,
        0 <= k < 4,
        size.width >= 1,
        size.height >= 1,
    ensures
        block_average(src, size, factor, ox, oy, k) == color[k],
{
    crate::size::lemma_divided_side_bounds(size.width as int, factor);
    crate::size::lemma_divided_side_bounds(size.height as int, factor);
    let dw = size.spec_downscaled(factor).width as int;
    let dh = size.spec_downscaled(factor).height as int;
    let w = size.width as int;
    let h = size.height as int;
    assert(0 <= ox * factor < w) by (nonlinear_arith)
        requires
            0 <= ox <= dw - 1,
            (dw - 1) * factor < w,
            factor > 1,
    ;
    assert(0 <= oy * factor < h) by (nonlinear_arith)
        requires
            0 <= oy <= dh - 1,
            (dh - 1) * factor < h,
            factor > 1,
    ;
    let x0 = ox * factor;
    let x1 = if x0 + factor < w { x0 + factor } else { w };
    let y0 = oy * factor;
    let y1 = if y0 + factor < h { y0 + factor } else { h };
    assert(x1 > x0 && y1 > y0);
    lemma_block_sum_constant(src, w, k, x0, x1, y0, y1, color[k] as int);
    let a = x1 - x0;
    let b = y1 - y0;
    let cv = color[k] as int;
    assert(a * b > 0) by (nonlinear_arith)
        requires
            a > 0,
            b > 0,
    ;
    assert((a * b * cv + (a * b) / 2) / (a * b) == cv) by (nonlinear_arith)
        requires
            a * b > 0,
    ;
}

/// `i` with `a` and `b` exchanged.
pub open spec fn exchanged(i: int, a: int, b: int) -> int {
    if i == a {
        b
    } else if i == b {
        a
    } else {
        i
    }
}

proof fn lemma_row_sum_split(src: Seq<u8>, width: int, k: int, y: int, x0: int, xm: int, x1: int)
    requires
        x0 <= xm <= x1,
    ensures
        row_sum(src, width, k, y, x0, x1) == row_sum(src, width, k, y, x0, xm) + row_sum(
            src,
            width,
            k,
            y,
            xm,
            x1,
        ),
    decreases x1 - xm,
{
    if x1 > xm {
        lemma_row_sum_split(src, width, k, y, x0, xm, x1 - 1);
    }
}

proof fn lemma_row_sum_ext(a: Seq<u8>, b: Seq<u8>, width: int, k: int, ya: int, yb: int, x0: int, x1: int)
    requires
        forall|x: int| x0 <= x < x1 ==> a[byte_at(width, x, ya, k)] == b[byte_at(width, x, yb, k)],
    ensures
        row_sum(a, width, k, ya, x0, x1) == row_sum(b, width, k, yb, x0, x1),
    decreases x1 - x0,
{
    if x1 > x0 {
        lemma_row_sum_ext(a, b, width, k, ya, yb, x0, x1 - 1);
    }
}

proof fn lemma_block_sum_split(
    src: Seq<u8>,
    width: int,
    k: int,
    x0: int,
    x1: int,
    y0: int,
    ym: int,
    y1: int,
)
    requires
        y0 <= ym <= y1,
    ensures
        block_sum(src, width, k, x0, x1, y0, y1) == block_sum(src, width, k, x0, x1, y0, ym)
            + block_sum(src, width, k, x0, x1, ym, y1),
    decreases y1 - ym,
{
    if y1 > ym {
        lemma_block_sum_split(src, width, k, x0, x1, y0, ym, y1 - 1);
    }
}

proof fn lemma_block_sum_ext(
    a: Seq<u8>,
    b: Seq<u8>,
    width: int,
    k: int,
    x0: int,
    x1: int,
    y0: int,
    y1: int,
)
    requires
        forall|y: int|
            y0 <= y < y1 ==> #[trigger] row_sum(a, width, k, y, x0, x1) == row_sum(b, width, k, y, x0, x1),
    ensures
        block_sum(a, width, k, x0, x1, y0, y1) == block_sum(b, width, k, x0, x1, y0, y1),
    decreases y1 - y0,
{
    if y1 > y0 {
        lemma_block_sum_ext(a, b, width, k, x0, x1, y0, y1 - 1);
        assert(row_sum(a, width, k, y1 - 1, x0, x1) == row_sum(b, width, k, y1 - 1, x0, x1));
    }
}

/// A block's sum does not change when two of its rows trade places.
proof fn lemma_block_sum_rows_exchanged(
    a: Seq<u8>,
    b: Seq<u8>,
    width: int,
    k: int,
    x0: int,
    x1: int,
    y0: int,
    y1: int,
    r1: int,
    r2: int,
)
    requires
        y0 <= r1 < r2 < y1,
        forall|x: int, y: int|
            x0 <= x < x1 && y0 <= y < y1 ==> b[byte_at(width, x, y, k)] == a[byte_at(
                width,
                x,
                exchanged(y, r1, r2),
                k,
            )],
    ensures
        block_sum(b, width, k, x0, x1, y0, y1) == block_sum(a, width, k, x0, x1, y0, y1),
{
    assert forall|y: int| y0 <= y < y1 && y != r1 && y != r2 implies #[trigger] row_sum(b, width, k, y, x0, x1)
        == row_sum(a, width, k, y, x0, x1) by {
        lemma_row_sum_ext(b, a, width, k, y, y, x0, x1);
    }
    lemma_row_sum_ext(b, a, width, k, r1, r2, x0, x1);
    lemma_row_sum_ext(b, a, width, k, r2, r1, x0, x1);
    lemma_block_sum_split(a, width, k, x0, x1, y0, r1, y1);
    lemma_block_sum_split(a, width, k, x0, x1, r1, r1 + 1, y1);
    lemma_block_sum_split(a, width, k, x0, x1, r1 + 1, r2, y1);
    lemma_block_sum_split(a, width, k, x0, x1, r2, r2 + 1, y1);
    lemma_block_sum_split(b, width, k, x0, x1, y0, r1, y1);
    lemma_block_sum_split(b, width, k, x0, x1, r1, r1 + 1, y1);
    lemma_block_sum_split(b, width, k, x0, x1, r1 + 1, r2, y1);
    lemma_block_sum_split(b, width, k, x0, x1, r2, r2 + 1, y1);
    lemma_block_sum_ext(a, b, width, k, x0, x1, y0, r1);
    lemma_block_sum_ext(a, b, width, k, x0, x1, r1 + 1, r2);
    lemma_block_sum_ext(a, b, width, k, x0, x1, r2 + 1, y1);
    assert(block_sum(a, width, k, x0, x1, r1, r1) == 0);
    assert(block_sum(a, width, k, x0, x1, r2, r2) == 0);
    assert(block_sum(b, width, k, x0, x1, r1, r1) == 0);
    assert(block_sum(b, width, k, x0, x1, r2, r2) == 0);
    assert(block_sum(a, width, k, x0, x1, r1, r1 + 1) == row_sum(a, width, k, r1, x0, x1));
    assert(block_sum(a, width, k, x0, x1, r2, r2 + 1) == row_sum(a, width, k, r2, x0, x1));
    assert(block_sum(b, width, k, x0, x1, r1, r1 + 1) == row_sum(b, width, k, r1, x0, x1));
    assert(block_sum(b, width, k, x0, x1, r2, r2 + 1) == row_sum(b, width, k, r2, x0, x1));
}

/// A row's sum does not change when two of its columns trade places.
proof fn lemma_row_sum_columns_exchanged(
    a: Seq<u8>,
    b: Seq<u8>,
    width: int,
    k: int,
    y: int,
    x0: int,
    x1: int,
    c1: int,
    c2: int,
)
    requires
        x0 <= c1 < c2 < x1,
        forall|x: int|
            x0 <= x < x1 ==> b[byte_at(width, x, y, k)] == a[byte_at(width, exchanged(x, c1, c2), y, k)],
    ensures
        row_sum(b, width, k, y, x0, x1) == row_sum(a, width, k, y, x0, x1),
{
    lemma_row_sum_ext(b, a, width, k, y, y, x0, c1);
    lemma_row_sum_ext(b, a, width, k, y, y, c1 + 1, c2);
    lemma_row_sum_ext(b, a, width, k, y, y, c2 + 1, x1);
    lemma_row_sum_split(a, width, k, y, x0, c1, x1);
    lemma_row_sum_split(a, width, k, y, c1, c1 + 1, x1);
    lemma_row_sum_split(a, width, k, y, c1 + 1, c2, x1);
    lemma_row_sum_split(a, width, k, y, c2, c2 + 1, x1);
    lemma_row_sum_split(b, width, k, y, x0, c1, x1);
    lemma_row_sum_split(b, width, k, y, c1, c1 + 1, x1);
    lemma_row_sum_split(b, width, k, y, c1 + 1, c2, x1);
    lemma_row_sum_split(b, width, k, y, c2, c2 + 1, x1);
    assert(b[byte_at(width, c1, y, k)] == a[byte_at(width, c2, y, k)]);
    assert(b[byte_at(width, c2, y, k)] == a[byte_at(width, c1, y, k)]);
    assert(row_sum(a, width, k, y, c1, c1) == 0);
    assert(row_sum(a, width, k, y, c2, c2) == 0);
    assert(row_sum(b, width, k, y, c1, c1) == 0);
    assert(row_sum(b, width, k, y, c2, c2) == 0);
    assert(row_sum(a, width, k, y, c1, c1 + 1) == a[byte_at(width, c1, y, k)] as int);
    assert(row_sum(a, width, k, y, c2, c2 + 1) == a[byte_at(width, c2, y, k)] as int);
    assert(row_sum(b, width, k, y, c1, c1 + 1) == b[byte_at(width, c1, y, k)] as int);
    assert(row_sum(b, width, k, y, c2, c2 + 1) == b[byte_at(width, c2, y, k)] as int);
}

/// Downsampling averages every row of a block alike: exchanging two rows
/// that lie in one block, rows `oy * factor` up to (not including)
/// `min(oy * factor + factor, height)`, leaves that block's texel as it was.
pub proof fn lemma_downsample_rows_commute(
    a: Seq<u8>,
    b: Seq<u8>,
    size: PixelSize,
    factor: int,
    ox: int,
    oy: int,
    k: int,
    r1: int,
    r2: int,
)
    requires
        factor > 0,
        ox >= 0,
        oy >= 0,
        oy * factor <= r1 < r2,
        r2 < oy * factor + factor,
        r2 < size.height,
        forall|x: int, y: int|
            0 <= x < size.width && 0 <= y < size.height ==> b[byte_at(size.width as int, x, y, k)]
                == a[byte_at(size.width as int, x, exchanged(y, r1, r2), k)],
    ensures
        block_average(b, size, factor, ox, oy, k) == block_average(a, size, factor, ox, oy, k),
{
    let w = size.width as int;
    let x0 = ox * factor;
    let x1 = if x0 + factor < size.width { x0 + factor } else { w };
    let top = oy * factor;
    let bottom = if top + factor < size.height { top + factor } else { size.height as int };
    assert(x0 >= 0) by (nonlinear_arith)
        requires
            ox >= 0,
            factor > 0,
            x0 == ox * factor,
    ;
    lemma_block_sum_rows_exchanged(a, b, w, k, x0, x1, top, bottom, r1, r2);
}

/// Downsampling averages every column of a block alike: exchanging two
/// columns that lie in one block leaves that block's texel as it was.
pub proof fn lemma_downsample_columns_commute(
    a: Seq<u8>,
    b: Seq<u8>,
    size: PixelSize,
    factor: int,
    ox: int,
    oy: int,
    k: int,
    c1: int,
    c2: int,
)
    requires
        factor > 0,
        ox >= 0,
        oy >= 0,
        ox * factor <= c1 < c2,
        c2 < ox * factor + factor,
        c2 < size.width,
        forall|x: int, y: int|
            0 <= x < size.width && 0 <= y < size.height ==> b[byte_at(size.width as int, x, y, k)]
                == a[byte_at(size.width as int, exchanged(x, c1, c2), y, k)],
    ensures
        block_average(b, size, factor, ox, oy, k) == block_average(a, size, factor, ox, oy, k),
{
    let w = size.width as int;
    let x0 = ox * factor;
    let x1 = if x0 + factor < size.width { x0 + factor } else { w };
    let top = oy * factor;
    let bottom = if top + factor < size.height { top + factor } else { size.height as int };
    assert(top >= 0) by (nonlinear_arith)
        requires
            oy >= 0,
            factor > 0,
            top == oy * factor,
    ;
    assert forall|y: int| top <= y < bottom implies #[trigger] row_sum(b, w, k, y, x0, x1) == row_sum(
        a,
        w,
        k,
        y,
        x0,
        x1,
    ) by {
        lemma_row_sum_columns_exchanged(a, b, w, k, y, x0, x1, c1, c2);
    }
    lemma_block_sum_ext(b, a, w, k, x0, x1, top, bottom);
}

/// Every one of the three widths takes part in the blur: alone beside two
/// unit boxes, a width in any slot is one round of its own box.
pub proof fn lemma_each_width_blurs(s: Seq<u8>, size: PixelSize, width: u32)
    ensures
        blurred(s, size, [width, 1u32, 1u32]) == box_round(s, size, box_radius(width)),
        blurred(s, size, [1u32, width, 1u32]) == box_round(s, size, box_radius(width)),
        blurred(s, size, [1u32, 1u32, width]) == box_round(s, size, box_radius(width)),
{
    assert(box_radius(1u32) == 0);
}

/// On a picture one row high, a round of the blur is the horizontal box
/// alone: every byte of the row becomes the rounded mean of the window of
/// its own channel around it, the ends repeated, and the bytes past the
/// picture are kept.
pub proof fn lemma_single_row_round(s: Seq<u8>, size: PixelSize, radius: int)
    requires
        size.height == 1,
        radius > 0,
        size.rgba_len() <= s.len(),
    ensures
        box_round(s, size, radius).len() == s.len(),
        forall|x: int, c: int|
            0 <= x < size.width && 0 <= c < 4 ==> #[trigger] box_round(s, size, radius)[byte_at(
                size.width as int,
                x,
                0,
                c,
            )] == box_value(s, byte_at(size.width as int, 0, 0, c), 4, size.width as int, x, radius)
                as u8,
        forall|j: int| size.rgba_len() <= j < s.len() ==> #[trigger] box_round(s, size, radius)[j] == s[j],
{
    let w = size.width as int;
    let hp = horizontal_pass(s, size, radius, s);
    let vp = vertical_pass(hp, size, radius, s);
    assert forall|j: int| 0 <= j < size.rgba_len() implies #[trigger] vp[j] == hp[j] by {
        lemma_encode(w, 1, j);
        let base = byte_at(w, column_of(w, j), 0, channel_of(j));
        assert(base == j);
        assert(line_byte(hp, base, w * 4, 0) == hp[j]);
        lemma_box_constant(hp, base, w * 4, 1, row_of(w, j), radius, hp[j] as int);
    }
    assert forall|x: int, c: int| 0 <= x < size.width && 0 <= c < 4 implies #[trigger] vp[byte_at(w, x, 0, c)]
        == box_value(s, byte_at(w, 0, 0, c), 4, w, x, radius) as u8 by {
        let j = byte_at(w, x, 0, c);
        assert(0 <= j < size.rgba_len()) by (nonlinear_arith)
            requires
                j == x * 4 + c,
                0 <= x < w,
                0 <= c < 4,
                size.rgba_len() == w * 1 * 4,
        ;
        lemma_encode(w, 1, j);
        lemma_decode(w, x, 0, c);
        assert(vp[j] == hp[j]);
    }
}

} // verus!
