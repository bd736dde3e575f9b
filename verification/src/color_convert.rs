//! Color space conversion routines
//!
//! This file exposes functions to convert one colorspace to another in a jpeg
//! image.
//!
//! Currently supported conversions are
//!
//! - `YCbCr` to `RGB,RGBA,GRAYSCALE,RGBX`.
//!
//! The `RGB` routines use an integer approximation:
//! `r = y + (45 (cr - 128) >> 5)`, `g = y - ((11 (cb - 128) + 23 (cr - 128)) >> 5)`,
//! `b = y + (113 (cb - 128) >> 6)`, each clamped to `0..=255`.
use vstd::prelude::*;

use crate::misc::{floor_div, ColorSpace};

verus! {

/// `x` fits in an `i16`.
pub open spec fn in_i16(x: int) -> bool {
    -32768 <= x <= 32767
}

/// Every intermediate value of the conversion of one pixel fits in an `i16`,
/// the type the conversion computes in.
pub open spec fn ycbcr_fits(y: i16, cb: i16, cr: i16) -> bool {
    let cbv = cb - 128;
    let crv = cr - 128;
    &&& in_i16(cbv)
    &&& in_i16(crv)
    &&& in_i16(45 * crv)
    &&& in_i16(11 * cbv)
    &&& in_i16(23 * crv)
    &&& in_i16(11 * cbv + 23 * crv)
    &&& in_i16(113 * cbv)
    &&& in_i16(y + (45 * crv) / 32)
    &&& in_i16(y - (11 * cbv + 23 * crv) / 32)
    &&& in_i16(y + (113 * cbv) / 64)
}

/// Samples in `0..=255` never overflow the conversion.
pub proof fn lemma_samples_fit(y: i16, cb: i16, cr: i16)
    requires
        0 <= y <= 255,
        0 <= cb <= 255,
        0 <= cr <= 255,
    ensures
        ycbcr_fits(y, cb, cr),
{
}

/// Limit values to 0 and 255
pub open spec fn spec_clamp_u8(a: int) -> u8 {
    if a < 0 {
        0
    } else if a > 255 {
        255
    } else {
        a as u8
    }
}

/// Channel `c` (0 red, 1 green, 2 blue) of the pixel `(y, cb, cr)`.
pub open spec fn rgb_channel(y: i16, cb: i16, cr: i16, c: int) -> u8 {
    let cbv = cb - 128;
    let crv = cr - 128;
    if c == 0 {
        spec_clamp_u8(y + (45 * crv) / 32)
    } else if c == 1 {
        spec_clamp_u8(y - (11 * cbv + 23 * crv) / 32)
    } else {
        spec_clamp_u8(y + (113 * cbv) / 64)
    }
}

/// The bytes of the pixels `(y[i], cb[i], cr[i])`, three per pixel.
pub open spec fn rgb_bytes(y: Seq<i16>, cb: Seq<i16>, cr: Seq<i16>) -> Seq<u8> {
    Seq::new(3 * y.len(), |j: int| rgb_channel(y[j / 3], cb[j / 3], cr[j / 3], j % 3))
}

/// Channel `c` of the pixel `(y, cb, cr)` in `RGBA`: the alpha channel 3 is 255.
pub open spec fn rgba_channel(y: i16, cb: i16, cr: i16, c: int) -> u8 {
    if c == 3 {
        255
    } else {
        rgb_channel(y, cb, cr, c)
    }
}

/// The bytes of the pixels `(y[i], cb[i], cr[i])`, four per pixel, the
/// fourth (alpha) being 255.
pub open spec fn rgba_bytes(y: Seq<i16>, cb: Seq<i16>, cr: Seq<i16>) -> Seq<u8> {
    Seq::new(4 * y.len(), |j: int| rgba_channel(y[j / 4], cb[j / 4], cr[j / 4], j % 4))
}

/// `s` with the bytes from `pos` on replaced by `t`.
pub open spec fn splice(s: Seq<u8>, pos: int, t: Seq<u8>) -> Seq<u8> {
    s.subrange(0, pos) + t + s.subrange(pos + t.len(), s.len() as int)
}

/// Every pixel of the three runs fits the conversion.
pub open spec fn all_fit(y: Seq<i16>, cb: Seq<i16>, cr: Seq<i16>) -> bool {
    forall|i: int| 0 <= i < y.len() ==> #[trigger] ycbcr_fits(y[i], cb[i], cr[i])
}

/// Limit values to 0 and 255
fn clamp(a: i16) -> (r: u8)
    ensures
        r == spec_clamp_u8(a as int),
{
    if a < 0 {
        0
    } else if a > 255 {
        255
    } else {
        a as u8
    }
}

/// Convert one pixel; returns red, green and blue.
fn convert_pixel(y: i16, cb: i16, cr: i16) -> (rgb: (u8, u8, u8))
    requires
        ycbcr_fits(y, cb, cr),
    ensures
        rgb.0 == rgb_channel(y, cb, cr, 0),
        rgb.1 == rgb_channel(y, cb, cr, 1),
        rgb.2 == rgb_channel(y, cb, cr, 2),
{
    let cr = cr - 128;
    let cb = cb - 128;
    let a = 45 * cr;
    let s = 11 * cb + 23 * cr;
    let t = 113 * cb;
    let a5 = floor_div(a as i128, 32) as i16;
    let s5 = floor_div(s as i128, 32) as i16;
    let t6 = floor_div(t as i128, 64) as i16;
    let r = y + a5;
    let g = y - s5;
    let b = y + t6;
    (clamp(r), clamp(g), clamp(b))
}

#[verifier::rlimit(40)]
/// Write the `RGB` bytes of the `N` pixels `(y[i], cb[i], cr[i])` at
/// `output[pos..]` and advance `pos` past them.
fn convert_rgb_run<const N: usize>(
    y: &[i16; N],
    cb: &[i16; N],
    cr: &[i16; N],
    output: &mut [u8],
    pos: &mut usize,
)
    requires
        *old(pos) + 3 * N <= old(output)@.len(),
        all_fit(y@, cb@, cr@),
    ensures
        final(output)@ == splice(old(output)@, *old(pos) as int, rgb_bytes(y@, cb@, cr@)),
        *final(pos) == *old(pos) + 3 * N,
{
    let start = *pos;
    let len = output.len();
    let ghost want = rgb_bytes(y@, cb@, cr@);
    let mut i: usize = 0;
    while i < N
        invariant
            start == *old(pos),
            len == output@.len(),
            start + 3 * N <= len,
            output@.len() == old(output)@.len(),
            all_fit(y@, cb@, cr@),
            i <= N,
            forall|j: int| 0 <= j < start ==> #[trigger] output@[j] == old(output)@[j],
            forall|j: int|
                start + 3 * N <= j < output@.len() ==> #[trigger] output@[j] == old(output)@[j],
            forall|j: int|
                0 <= j < 3 * i ==> #[trigger] output@[start + j] == rgb_channel(
                    y@[j / 3],
                    cb@[j / 3],
                    cr@[j / 3],
                    j % 3,
                ),
        decreases N - i,
    {
        assert(ycbcr_fits(y@[i as int], cb@[i as int], cr@[i as int]));
        let (r, g, b) = convert_pixel(y[i], cb[i], cr[i]);
        let p = start + 3 * i;
        output[p] = r;
        output[p + 1] = g;
        output[p + 2] = b;
        assert((3 * i) / 3 == i as int && (3 * i) % 3 == 0);
        assert((3 * i + 1) / 3 == i as int && (3 * i + 1) % 3 == 1);
        assert((3 * i + 2) / 3 == i as int && (3 * i + 2) % 3 == 2);
        assert forall|j: int| 0 <= j < 3 * (i + 1) implies #[trigger] output@[start + j] == rgb_channel(
            y@[j / 3],
            cb@[j / 3],
            cr@[j / 3],
            j % 3,
        ) by {
            if j >= 3 * i {
                assert(j == 3 * i || j == 3 * i + 1 || j == 3 * i + 2);
            }
        }
        i += 1;
    }
    assert(y@.len() == N);
    assert forall|k: int| start <= k < start + 3 * N implies output@[k] == want[k - start] by {
        assert(output@[start + (k - start)] == want[k - start]);
        assert(0 <= k - start < want.len());
    }
    assert(output@ =~= splice(old(output)@, start as int, want));
    *pos = start + 3 * N;
}

#[verifier::rlimit(40)]
/// Write the `RGBA` bytes of the `N` pixels `(y[i], cb[i], cr[i])` at
/// `output[pos..]`, alpha 255, and advance `pos` past them.
fn convert_rgba_run<const N: usize>(
    y: &[i16; N],
    cb: &[i16; N],
    cr: &[i16; N],
    output: &mut [u8],
    pos: &mut usize,
)
    requires
        *old(pos) + 4 * N <= old(output)@.len(),
        all_fit(y@, cb@, cr@),
    ensures
        final(output)@ == splice(old(output)@, *old(pos) as int, rgba_bytes(y@, cb@, cr@)),
        *final(pos) == *old(pos) + 4 * N,
{
    let start = *pos;
    let len = output.len();
    let ghost want = rgba_bytes(y@, cb@, cr@);
    let mut i: usize = 0;
    while i < N
        invariant
            start == *old(pos),
            len == output@.len(),
            start + 4 * N <= len,
            output@.len() == old(output)@.len(),
            all_fit(y@, cb@, cr@),
            i <= N,
            forall|j: int| 0 <= j < start ==> #[trigger] output@[j] == old(output)@[j],
            forall|j: int|
                start + 4 * N <= j < output@.len() ==> #[trigger] output@[j] == old(output)@[j],
            forall|j: int|
                0 <= j < 4 * i ==> #[trigger] output@[start + j] == rgba_channel(
                    y@[j / 4],
                    cb@[j / 4],
                    cr@[j / 4],
                    j % 4,
                ),
        decreases N - i,
    {
        assert(ycbcr_fits(y@[i as int], cb@[i as int], cr@[i as int]));
        let (r, g, b) = convert_pixel(y[i], cb[i], cr[i]);
        let p = start + 4 * i;
        output[p] = r;
        output[p + 1] = g;
        output[p + 2] = b;
        output[p + 3] = 255;
        assert((4 * i) / 4 == i as int && (4 * i) % 4 == 0);
        assert((4 * i + 1) / 4 == i as int && (4 * i + 1) % 4 == 1);
        assert((4 * i + 2) / 4 == i as int && (4 * i + 2) % 4 == 2);
        assert((4 * i + 3) / 4 == i as int && (4 * i + 3) % 4 == 3);
        assert forall|j: int| 0 <= j < 4 * (i + 1) implies #[trigger] output@[start + j] == rgba_channel(
            y@[j / 4],
            cb@[j / 4],
            cr@[j / 4],
            j % 4,
        ) by {
            if j >= 4 * i {
                assert(j == 4 * i || j == 4 * i + 1 || j == 4 * i + 2 || j == 4 * i + 3);
            }
        }
        i += 1;
    }
    assert(y@.len() == N);
    assert forall|k: int| start <= k < start + 4 * N implies output@[k] == want[k - start] by {
        assert(output@[start + (k - start)] == want[k - start]);
        assert(0 <= k - start < want.len());
    }
    assert(output@ =~= splice(old(output)@, start as int, want));
    *pos = start + 4 * N;
}

/// Convert eight `YCbCr` pixels to `RGB`, writing 24 bytes at `output[pos..]`
/// and advancing `pos` by 24.
pub fn ycbcr_to_rgb(y: &[i16; 8], cb: &[i16; 8], cr: &[i16; 8], output: &mut [u8], pos: &mut usize)
    requires
        *old(pos) + 24 <= old(output)@.len(),
        all_fit(y@, cb@, cr@),
    ensures
        final(output)@ == splice(old(output)@, *old(pos) as int, rgb_bytes(y@, cb@, cr@)),
        *final(pos) == *old(pos) + 24,
{
    convert_rgb_run(y, cb, cr, output, pos);
}

/// Convert eight `YCbCr` pixels to `RGBA` (alpha 255), writing 32 bytes at
/// `output[pos..]` and advancing `pos` by 32.
pub fn ycbcr_to_rgba(y: &[i16; 8], cb: &[i16; 8], cr: &[i16; 8], output: &mut [u8], pos: &mut usize)
    requires
        *old(pos) + 32 <= old(output)@.len(),
        all_fit(y@, cb@, cr@),
    ensures
        final(output)@ == splice(old(output)@, *old(pos) as int, rgba_bytes(y@, cb@, cr@)),
        *final(pos) == *old(pos) + 32,
{
    convert_rgba_run(y, cb, cr, output, pos);
}

/// YcbCr to RGBA color conversion of sixteen pixels: 64 bytes.
pub fn ycbcr_to_rgba_16(y: &[i16; 16], cb: &[i16; 16], cr: &[i16; 16], output: &mut [u8], pos: &mut usize)
    requires
        *old(pos) + 64 <= old(output)@.len(),
        all_fit(y@, cb@, cr@),
    ensures
        final(output)@ == splice(old(output)@, *old(pos) as int, rgba_bytes(y@, cb@, cr@)),
        *final(pos) == *old(pos) + 64,
{
    convert_rgba_run(y, cb, cr, output, pos);
}

/// YcbCr to RGB color conversion of sixteen pixels: 48 bytes.
pub fn ycbcr_to_rgb_16(y: &[i16; 16], cb: &[i16; 16], cr: &[i16; 16], output: &mut [u8], pos: &mut usize)
    requires
        *old(pos) + 48 <= old(output)@.len(),
        all_fit(y@, cb@, cr@),
    ensures
        final(output)@ == splice(old(output)@, *old(pos) as int, rgb_bytes(y@, cb@, cr@)),
        *final(pos) == *old(pos) + 48,
{
    convert_rgb_run(y, cb, cr, output, pos);
}

/// `RGB` conversion of eight pixels, the portable routine.
pub fn ycbcr_to_rgb_scalar(y: &[i16; 8], cb: &[i16; 8], cr: &[i16; 8], output: &mut [u8], pos: &mut usize)
    requires
        *old(pos) + 24 <= old(output)@.len(),
        all_fit(y@, cb@, cr@),
    ensures
        final(output)@ == splice(old(output)@, *old(pos) as int, rgb_bytes(y@, cb@, cr@)),
        *final(pos) == *old(pos) + 24,
{
    convert_rgb_run(y, cb, cr, output, pos);
}

/// `RGBA` conversion of eight pixels, the portable routine.
pub fn ycbcr_to_rgba_scalar(y: &[i16; 8], cb: &[i16; 8], cr: &[i16; 8], output: &mut [u8], pos: &mut usize)
    requires
        *old(pos) + 32 <= old(output)@.len(),
        all_fit(y@, cb@, cr@),
    ensures
        final(output)@ == splice(old(output)@, *old(pos) as int, rgba_bytes(y@, cb@, cr@)),
        *final(pos) == *old(pos) + 32,
{
    convert_rgba_run(y, cb, cr, output, pos);
}

/// `RGBA` conversion of sixteen pixels, the portable routine.
pub fn ycbcr_to_rgba_16_scalar(
    y: &[i16; 16],
    cb: &[i16; 16],
    cr: &[i16; 16],
    output: &mut [u8],
    pos: &mut usize,
)
    requires
        *old(pos) + 64 <= old(output)@.len(),
        all_fit(y@, cb@, cr@),
    ensures
        final(output)@ == splice(old(output)@, *old(pos) as int, rgba_bytes(y@, cb@, cr@)),
        *final(pos) == *old(pos) + 64,
{
    convert_rgba_run(y, cb, cr, output, pos);
}

/// `RGB` conversion of sixteen pixels, the portable routine.
pub fn ycbcr_to_rgb_16_scalar(
    y: &[i16; 16],
    cb: &[i16; 16],
    cr: &[i16; 16],
    output: &mut [u8],
    pos: &mut usize,
)
    requires
        *old(pos) + 48 <= old(output)@.len(),
        all_fit(y@, cb@, cr@),
    ensures
        final(output)@ == splice(old(output)@, *old(pos) as int, rgb_bytes(y@, cb@, cr@)),
        *final(pos) == *old(pos) + 48,
{
    convert_rgb_run(y, cb, cr, output, pos);
}

/// The length of a row of the plane `ycbcr_to_grayscale` reads, fill
/// included: the plane holds eight rows.
pub open spec fn grayscale_chunk(len: int, width: int) -> int {
    len / 8
}

/// Number of rows `ycbcr_to_grayscale` writes.
pub open spec fn grayscale_rows(len: int, width: int) -> int {
    len / grayscale_chunk(len, width)
}

/// Copy the luma plane `y`, eight rows of `len / 8` samples, to `output` as
/// bytes, row by row: the first `width` samples of a row are written, the
/// rest of the row is fill and dropped.
pub fn ycbcr_to_grayscale(y: &[i16], width: usize, output: &mut [u8])
    requires
        0 < width <= y@.len() / 8,
        grayscale_rows(y@.len() as int, width as int) * width <= old(output)@.len(),
    ensures
        final(output)@.len() == old(output)@.len(),
        forall|j: int|
            0 <= j < grayscale_rows(y@.len() as int, width as int) * width ==> #[trigger] final(output)@[j] == (y@[(j / width as int) * grayscale_chunk(y@.len() as int, width as int) + j
                % width as int] as u8),
        forall|j: int|
            grayscale_rows(y@.len() as int, width as int) * width <= j < old(output)@.len()
                ==> #[trigger] final(output)@[j] == old(output)@[j],
{
    let len = y.len();
    let width_chunk = len / 8;
    let rows = len / width_chunk;
    assert(rows * width_chunk <= len) by {
        vstd::arithmetic::div_mod::lemma_fundamental_div_mod(len as int, width_chunk as int);
        vstd::arithmetic::div_mod::lemma_mod_pos_bound(len as int, width_chunk as int);
        vstd::arithmetic::mul::lemma_mul_is_commutative(rows as int, width_chunk as int);
    }
    let olen = output.len();
    let mut k: usize = 0;
    let mut src: usize = 0;
    let mut dst: usize = 0;
    while k < rows
        invariant
            olen == output@.len(),
            output@.len() == old(output)@.len(),
            len == y@.len(),
            0 < width <= width_chunk,
            width_chunk == grayscale_chunk(len as int, width as int),
            rows == grayscale_rows(len as int, width as int),
            rows * width_chunk <= len,
            rows * width <= olen,
            k <= rows,
            src == k * width_chunk,
            dst == k * width,
            forall|j: int|
                0 <= j < dst ==> #[trigger] output@[j] == (y@[(j / width as int) * width_chunk + j
                    % width as int] as u8),
            forall|j: int| rows * width <= j < olen ==> #[trigger] output@[j] == old(output)@[j],
        decreases rows - k,
    {
        assert((k + 1) * width_chunk <= rows * width_chunk && (k + 1) * width <= rows * width) by (
        nonlinear_arith)
            requires
                k < rows,
                width_chunk >= 0,
                width >= 0,
        ;
        assert(src + width_chunk == (k + 1) * width_chunk && dst + width == (k + 1) * width) by (
        nonlinear_arith)
            requires
                src == k * width_chunk,
                dst == k * width,
        ;
        let mut x: usize = 0;
        while x < width
            invariant
                olen == output@.len(),
                output@.len() == old(output)@.len(),
                len == y@.len(),
                0 < width <= width_chunk,
                k < rows,
                src == k * width_chunk,
                dst == k * width,
                src + width_chunk <= len,
                dst + width <= rows * width,
                rows * width <= olen,
                x <= width,
                forall|j: int|
                    0 <= j < dst + x ==> #[trigger] output@[j] == (y@[(j / width as int) * width_chunk
                        + j % width as int] as u8),
                forall|j: int| rows * width <= j < olen ==> #[trigger] output@[j] == old(output)@[j],
            decreases width - x,
        {
            output[dst + x] = y[src + x] as u8;
            proof {
                vstd::arithmetic::div_mod::lemma_fundamental_div_mod_converse(
                    dst + x,
                    width as int,
                    k as int,
                    x as int,
                );
            }
            x += 1;
        }
        k += 1;
        src = src + width_chunk;
        dst = dst + width;
    }
}

/// The row length (fill included) of the planes `ycbcr_to_ycbcr` reads:
/// an eighth of the samples of the first plane per sampling unit.
pub open spec fn ycbcr_chunk(len0: int, h_samp: int, v_samp: int) -> int {
    (len0 / (h_samp * v_samp)) / 8
}

/// Number of rows `ycbcr_to_ycbcr` writes: the whole rows that all three
/// planes hold.
pub open spec fn ycbcr_rows(channels: Seq<Seq<i16>>, wc: int) -> int {
    let r0 = channels[0].len() as int / wc;
    let r1 = channels[1].len() as int / wc;
    let r2 = channels[2].len() as int / wc;
    if r0 <= r1 && r0 <= r2 {
        r0
    } else if r1 <= r2 {
        r1
    } else {
        r2
    }
}

/// The views of the three planes.
pub open spec fn planes_view(channels: &[Vec<i16>; 3]) -> Seq<Seq<i16>> {
    seq![channels[0]@, channels[1]@, channels[2]@]
}

/// Convert YcbCr to YCbCr
///
/// All we do is interleave the three planes and remove fill samples at the
/// end of each row: byte `j` of the output is sample `x` of row `k` of plane
/// `j % 3`, where `j / 3 == k * width + x`.
pub fn ycbcr_to_ycbcr(
    channels: &[Vec<i16>; 3],
    width: usize,
    h_samp: usize,
    v_samp: usize,
    output: &mut [u8],
)
    requires
        0 < h_samp * v_samp <= usize::MAX,
        0 < ycbcr_chunk(channels[0]@.len() as int, h_samp as int, v_samp as int),
        width <= ycbcr_chunk(channels[0]@.len() as int, h_samp as int, v_samp as int),
        ycbcr_rows(
            planes_view(channels),
            ycbcr_chunk(channels[0]@.len() as int, h_samp as int, v_samp as int),
        ) * (3 * width) <= old(output)@.len(),
    ensures
        final(output)@.len() == old(output)@.len(),
        forall|j: int|
            0 <= j < ycbcr_rows(
                planes_view(channels),
                ycbcr_chunk(channels[0]@.len() as int, h_samp as int, v_samp as int),
            ) * (3 * width) ==> #[trigger] final(output)@[j] == (planes_view(channels)[j % 3][((j / 3)
                / width as int) * ycbcr_chunk(channels[0]@.len() as int, h_samp as int, v_samp as int)
                + (j / 3) % width as int] as u8),
        forall|j: int|
            ycbcr_rows(
                planes_view(channels),
                ycbcr_chunk(channels[0]@.len() as int, h_samp as int, v_samp as int),
            ) * (3 * width) <= j < old(output)@.len() ==> #[trigger] final(output)@[j] == old(output)@[j],
{
    let ghost planes = planes_view(channels);
    let mcu_chunks = channels[0].len() / (h_samp * v_samp);
    let stride = width * 3;
    let width_chunk = mcu_chunks / 8;
    let r0 = channels[0].len() / width_chunk;
    let r1 = channels[1].len() / width_chunk;
    let r2 = channels[2].len() / width_chunk;
    let rows = if r0 <= r1 && r0 <= r2 {
        r0
    } else if r1 <= r2 {
        r1
    } else {
        r2
    };
    assert(rows == ycbcr_rows(planes, width_chunk as int));
    assert(rows <= r0 && rows <= r1 && rows <= r2);
    assert(planes[0].len() == channels[0]@.len() && planes[1].len() == channels[1]@.len()
        && planes[2].len() == channels[2]@.len());
    assert(forall|c: int| 0 <= c < 3 ==> rows * width_chunk <= #[trigger] planes[c].len()) by {
        assert forall|c: int| 0 <= c < 3 implies rows * width_chunk <= #[trigger] planes[c].len() by {
            let l = planes[c].len() as int;
            if c == 0 {
                assert(l / width_chunk as int == r0);
            } else if c == 1 {
                assert(l / width_chunk as int == r1);
            } else {
                assert(l / width_chunk as int == r2);
            }
            vstd::arithmetic::div_mod::lemma_fundamental_div_mod(l, width_chunk as int);
            vstd::arithmetic::div_mod::lemma_mod_pos_bound(l, width_chunk as int);
            assert(rows <= l / width_chunk as int);
            let q = l / width_chunk as int;
            assert(rows * width_chunk <= l) by (nonlinear_arith)
                requires
                    rows <= q,
                    width_chunk > 0,
                    l == width_chunk * q + l % (width_chunk as int),
                    l % (width_chunk as int) >= 0,
            ;
        }
    }
    assert(planes[0].len() == channels[0].len());
    let olen = output.len();
    let mut k: usize = 0;
    let mut src: usize = 0;
    let mut dst: usize = 0;
    while k < rows
        invariant
            planes == planes_view(channels),
            olen == output@.len(),
            output@.len() == old(output)@.len(),
            width <= width_chunk,
            0 < width_chunk,
            stride == 3 * width,
            width_chunk == ycbcr_chunk(channels[0]@.len() as int, h_samp as int, v_samp as int),
            rows == ycbcr_rows(planes, width_chunk as int),
            forall|c: int| 0 <= c < 3 ==> rows * width_chunk <= #[trigger] planes[c].len(),
            rows * width_chunk <= channels[0].len(),
            rows * stride <= olen,
            k <= rows,
            src == k * width_chunk,
            dst == k * stride,
            forall|j: int|
                0 <= j < dst ==> #[trigger] output@[j] == (planes[j % 3][((j / 3) / width as int)
                    * width_chunk + (j / 3) % width as int] as u8),
            forall|j: int| rows * stride <= j < olen ==> #[trigger] output@[j] == old(output)@[j],
        decreases rows - k,
    {
        assert((k + 1) * width_chunk <= rows * width_chunk && (k + 1) * stride <= rows * stride) by (
        nonlinear_arith)
            requires
                k < rows,
                width_chunk >= 0,
                stride >= 0,
        ;
        assert(src + width_chunk == (k + 1) * width_chunk && dst + stride == (k + 1) * stride) by (
        nonlinear_arith)
            requires
                src == k * width_chunk,
                dst == k * stride,
        ;
        assert(src + width_chunk <= planes[0].len() && src + width_chunk <= planes[1].len() && src
            + width_chunk <= planes[2].len());
        assert(planes[0].len() == channels[0].len() && planes[1].len() == channels[1].len()
            && planes[2].len() == channels[2].len());
        let mut x: usize = 0;
        while x < width
            invariant
                planes == planes_view(channels),
                olen == output@.len(),
                output@.len() == old(output)@.len(),
                width <= width_chunk,
            0 < width_chunk,
                stride == 3 * width,
                k < rows,
                src == k * width_chunk,
                dst == k * stride,
                src + width_chunk <= channels[0].len(),
                src + width_chunk <= channels[1].len(),
                src + width_chunk <= channels[2].len(),
                dst + stride <= rows * stride,
                rows * stride <= olen,
                x <= width,
                forall|j: int|
                    0 <= j < dst + 3 * x ==> #[trigger] output@[j] == (planes[j % 3][((j / 3)
                        / width as int) * width_chunk + (j / 3) % width as int] as u8),
                forall|j: int| rows * stride <= j < olen ==> #[trigger] output@[j] == old(output)@[j],
            decreases width - x,
        {
            let p = dst + 3 * x;
            output[p] = channels[0][src + x] as u8;
            output[p + 1] = channels[1][src + x] as u8;
            output[p + 2] = channels[2][src + x] as u8;
            proof {
                assert(dst == 3 * (k * width)) by (nonlinear_arith)
                    requires
                        dst == k * stride,
                        stride == 3 * width,
                ;
                vstd::arithmetic::div_mod::lemma_fundamental_div_mod_converse(
                    k * width + x,
                    width as int,
                    k as int,
                    x as int,
                );
                assert forall|c: int| 0 <= c < 3 implies #[trigger] ((p + c) / 3) == k * width + x && (p + c)
                    % 3 == c by {
                    vstd::arithmetic::div_mod::lemma_fundamental_div_mod_converse(
                        p + c,
                        3,
                        k * width + x,
                        c,
                    );
                }
                assert(planes[0][src + x as int] == channels[0]@[src + x as int]);
                assert(planes[1][src + x as int] == channels[1]@[src + x as int]);
                assert(planes[2][src + x as int] == channels[2]@[src + x as int]);
                assert forall|j: int| 0 <= j < dst + 3 * (x + 1) implies #[trigger] output@[j] == (
                planes[j % 3][((j / 3) / width as int) * width_chunk + (j / 3) % width as int] as u8) by {
                    if j >= p {
                        assert(j == p || j == p + 1 || j == p + 2);
                    }
                }
            }
            x += 1;
        }
        k += 1;
        src = src + width_chunk;
        dst = dst + stride;
    }
}

/// The `RGBA` bytes of a run of pixels are its `RGB` bytes with an opaque
/// alpha byte after each pixel.
pub proof fn lemma_rgba_is_rgb_with_alpha(y: Seq<i16>, cb: Seq<i16>, cr: Seq<i16>, i: int, c: int)
    requires
        0 <= i < y.len(),
        0 <= c < 3,
    ensures
        rgba_bytes(y, cb, cr)[4 * i + c] == rgb_bytes(y, cb, cr)[3 * i + c],
        rgba_bytes(y, cb, cr)[4 * i + 3] == 255,
{
    assert((4 * i + c) / 4 == i && (4 * i + c) % 4 == c);
    assert((3 * i + c) / 3 == i && (3 * i + c) % 3 == c);
    assert((4 * i + 3) / 4 == i && (4 * i + 3) % 4 == 3);
}

/// A routine converting sixteen pixels.
#[derive(Debug, Clone, Copy, PartialEq, Eq, Structural)]
pub enum ColorConvert16Ptr {
    /// `ycbcr_to_rgb_16`
    Rgb16,
    /// `ycbcr_to_rgba_16`
    Rgba16,
}

/// A routine converting eight pixels.
#[derive(Debug, Clone, Copy, PartialEq, Eq, Structural)]
pub enum ColorConvertPtr {
    /// `ycbcr_to_rgb`
    Rgb,
    /// `ycbcr_to_rgba`
    Rgba,
}

impl ColorConvert16Ptr {
    /// Bytes written per pixel.
    pub open spec fn spec_bytes_per_pixel(self) -> int {
        match self {
            ColorConvert16Ptr::Rgb16 => 3,
            ColorConvert16Ptr::Rgba16 => 4,
        }
    }

    /// The bytes written for a run of pixels.
    pub open spec fn spec_bytes(self, y: Seq<i16>, cb: Seq<i16>, cr: Seq<i16>) -> Seq<u8> {
        match self {
            ColorConvert16Ptr::Rgb16 => rgb_bytes(y, cb, cr),
            ColorConvert16Ptr::Rgba16 => rgba_bytes(y, cb, cr),
        }
    }

    /// Run the routine on sixteen pixels.
    pub fn convert(self, y: &[i16; 16], cb: &[i16; 16], cr: &[i16; 16], output: &mut [u8], pos: &mut usize)
        requires
            *old(pos) + 16 * self.spec_bytes_per_pixel() <= old(output)@.len(),
            all_fit(y@, cb@, cr@),
        ensures
            final(output)@ == splice(old(output)@, *old(pos) as int, self.spec_bytes(y@, cb@, cr@)),
            *final(pos) == *old(pos) + 16 * self.spec_bytes_per_pixel(),
    {
        match self {
            ColorConvert16Ptr::Rgb16 => ycbcr_to_rgb_16(y, cb, cr, output, pos),
            ColorConvert16Ptr::Rgba16 => ycbcr_to_rgba_16(y, cb, cr, output, pos),
        }
    }
}

impl ColorConvertPtr {
    /// Bytes written per pixel.
    pub open spec fn spec_bytes_per_pixel(self) -> int {
        match self {
            ColorConvertPtr::Rgb => 3,
            ColorConvertPtr::Rgba => 4,
        }
    }

    /// The bytes written for a run of pixels.
    pub open spec fn spec_bytes(self, y: Seq<i16>, cb: Seq<i16>, cr: Seq<i16>) -> Seq<u8> {
        match self {
            ColorConvertPtr::Rgb => rgb_bytes(y, cb, cr),
            ColorConvertPtr::Rgba => rgba_bytes(y, cb, cr),
        }
    }

    /// Run the routine on eight pixels.
    pub fn convert(self, y: &[i16; 8], cb: &[i16; 8], cr: &[i16; 8], output: &mut [u8], pos: &mut usize)
        requires
            *old(pos) + 8 * self.spec_bytes_per_pixel() <= old(output)@.len(),
            all_fit(y@, cb@, cr@),
        ensures
            final(output)@ == splice(old(output)@, *old(pos) as int, self.spec_bytes(y@, cb@, cr@)),
            *final(pos) == *old(pos) + 8 * self.spec_bytes_per_pixel(),
    {
        match self {
            ColorConvertPtr::Rgb => ycbcr_to_rgb(y, cb, cr, output, pos),
            ColorConvertPtr::Rgba => ycbcr_to_rgba(y, cb, cr, output, pos),
        }
    }
}

/// The routines `choose_ycbcr_to_rgb_convert_func` picks for an output
/// colour space.
pub open spec fn spec_convert_funcs(type_need: ColorSpace) -> Option<(ColorConvert16Ptr, ColorConvertPtr)> {
    match type_need {
        ColorSpace::RGB => Some((ColorConvert16Ptr::Rgb16, ColorConvertPtr::Rgb)),
        ColorSpace::RGBA | ColorSpace::RGBX => Some((ColorConvert16Ptr::Rgba16, ColorConvertPtr::Rgba)),
        _ => None,
    }
}

/// This function determines the best color-convert function to carry out
/// based on the colorspace needed: `RGB` gets the three byte routines,
/// `RGBA` and `RGBX` the four byte ones, any other colour space none.
pub fn choose_ycbcr_to_rgb_convert_func(type_need: ColorSpace) -> (r: Option<(ColorConvert16Ptr, ColorConvertPtr)>)
    ensures
        r == spec_convert_funcs(type_need),
{
    match type_need {
        ColorSpace::RGB => Some((ColorConvert16Ptr::Rgb16, ColorConvertPtr::Rgb)),
        ColorSpace::RGBA | ColorSpace::RGBX => Some((ColorConvert16Ptr::Rgba16, ColorConvertPtr::Rgba)),
        _ => None,
    }
}


/// `a` clamped to `0..=255000`: a sample in thousandths, clamped.
pub open spec fn clamp_milli(a: int) -> int {
    if a < 0 {
        0
    } else if a > 255000 {
        255000
    } else {
        a
    }
}

/// The absolute value of `a`.
pub open spec fn abs_int(a: int) -> int {
    if a < 0 {
        -a
    } else {
        a
    }
}

/// The pixels follow the JFIF conversion from YCbCr to RGB,
/// `R = Y + 1.402 (Cr - 128)`, `G = Y - 0.344 (Cb - 128) - 0.714 (Cr - 128)`,
/// `B = Y + 1.772 (Cb - 128)`, clamped to `0..=255`: each channel is within
/// two of the exact value. A pixel without colour (`Cb == Cr == 128`) is grey
/// at its luminance.
pub proof fn lemma_rgb_follows_jfif(y: i16, cb: i16, cr: i16)
    requires
        0 <= y <= 255,
        0 <= cb <= 255,
        0 <= cr <= 255,
    ensures
        abs_int(1000 * rgb_channel(y, cb, cr, 0) - clamp_milli(1000 * y + 1402 * (cr - 128))) <= 2000,
        abs_int(
            1000 * rgb_channel(y, cb, cr, 1) - clamp_milli(1000 * y - 344 * (cb - 128) - 714 * (cr - 128)),
        ) <= 2000,
        abs_int(1000 * rgb_channel(y, cb, cr, 2) - clamp_milli(1000 * y + 1772 * (cb - 128))) <= 2000,
        cb == 128 && cr == 128 ==> rgb_channel(y, cb, cr, 0) == y && rgb_channel(y, cb, cr, 1) == y
            && rgb_channel(y, cb, cr, 2) == y,
{
    let cbv = cb - 128;
    let crv = cr - 128;
    let fr = (45 * crv) / 32;
    let fg = (11 * cbv + 23 * crv) / 32;
    let fb = (113 * cbv) / 64;
    vstd::arithmetic::div_mod::lemma_fundamental_div_mod(45 * crv, 32);
    vstd::arithmetic::div_mod::lemma_fundamental_div_mod(11 * cbv + 23 * crv, 32);
    vstd::arithmetic::div_mod::lemma_fundamental_div_mod(113 * cbv, 64);
    assert(-2000 <= 1000 * fr - 1402 * crv <= 2000);
    assert(-2000 <= 1000 * fg - 344 * cbv - 714 * crv <= 2000);
    assert(-2000 <= 1000 * fb - 1772 * cbv <= 2000);
}

} // verus!
