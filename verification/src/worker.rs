//! Handle everything else in jpeg processing that doesn't involve bitstream
//! decoding: inverse DCT of the coefficient planes, their arrangement into
//! rows of samples, up-sampling of the chrominance planes and colour
//! conversion into the output pixels.
use vstd::prelude::*;

use crate::color_convert::{
    all_fit, choose_ycbcr_to_rgb_convert_func, lemma_samples_fit, rgb_channel, rgba_channel,
    spec_convert_funcs, splice, ColorConvert16Ptr, ColorConvertPtr,
};
use crate::components::UpSampler;
use crate::idct::{choose_idct_func, lemma_idct_output_in_range, spec_idct};
use crate::decoder::MAX_DIMENSIONS;
use crate::mcu::{chroma_sampler, decoded_pixels, lemma_geometry_bounds, Geometry};
use crate::misc::{spec_num_components, Aligned32, ColorSpace};
use crate::upsampler::{
    samples_in_range, upsample_h_at, upsample_horizontal, upsample_v_at, upsample_vertical,
};

verus! {

/// Sample `j` (in rows of `8 * bw` samples) of a plane stored as blocks of
/// 64 samples, `bw` blocks per row of blocks.
pub open spec fn raster_sample(blocks: Seq<i16>, bw: int, j: int) -> i16 {
    let pw = 8 * bw;
    let y = j / pw;
    let x = j % pw;
    blocks[((y / 8) * bw + x / 8) * 64 + (y % 8) * 8 + x % 8]
}

proof fn lemma_block_index(bw: int, bh: int, j: int)
    requires
        bw > 0,
        bh > 0,
        0 <= j < 64 * bw * bh,
    ensures
        0 <= ((j / (8 * bw)) / 8) * bw + (j % (8 * bw)) / 8 < bw * bh,
        0 <= ((j / (8 * bw) / 8) * bw + (j % (8 * bw)) / 8) * 64 + ((j / (8 * bw)) % 8) * 8 + (j % (
        8 * bw)) % 8 < 64 * bw * bh,
{
    let pw = 8 * bw;
    let y = j / pw;
    let x = j % pw;
    vstd::arithmetic::div_mod::lemma_fundamental_div_mod(j, pw);
    vstd::arithmetic::div_mod::lemma_mod_pos_bound(j, pw);
    assert(0 <= y < 8 * bh) by {
        vstd::arithmetic::div_mod::lemma_div_pos_is_pos(j, pw);
        assert(64 * bw * bh == (8 * bh) * pw) by (nonlinear_arith)
            requires
                pw == 8 * bw,
        ;
        if y >= 8 * bh {
            assert(j >= (8 * bh) * pw) by (nonlinear_arith)
                requires
                    j == pw * y + j % pw,
                    j % pw >= 0,
                    y >= 8 * bh,
                    pw > 0,
            ;
        }
    }
    let by = y / 8;
    let bx = x / 8;
    assert(0 <= by < bh && 0 <= bx < bw);
    assert(0 <= by * bw + bx < bw * bh) by (nonlinear_arith)
        requires
            0 <= by < bh,
            0 <= bx < bw,
    ;
    assert(0 <= (by * bw + bx) * 64 + (y % 8) * 8 + x % 8 < 64 * bw * bh) by (nonlinear_arith)
        requires
            0 <= by * bw + bx < bw * bh,
            0 <= y % 8 < 8,
            0 <= x % 8 < 8,
    ;
}

/// Arrange a plane of decoded 8x8 blocks (`bw` per row, `bh` rows of them)
/// into rows of `8 * bw` samples.
pub fn blocks_to_raster(blocks: &Vec<i16>, bw: usize, bh: usize) -> (out: Vec<i16>)
    requires
        bw > 0,
        bh > 0,
        blocks@.len() == 64 * bw * bh,
    ensures
        out@.len() == blocks@.len(),
        forall|j: int| 0 <= j < out@.len() ==> #[trigger] out@[j] == raster_sample(blocks@, bw as int, j),
        samples_in_range(blocks@) ==> samples_in_range(out@),
{
    let n = blocks.len();
    assert(8 * bw <= 64 * bw * bh) by (nonlinear_arith)
        requires
            bh > 0,
            bw > 0,
    ;
    let pw = 8 * bw;
    let mut out: Vec<i16> = Vec::new();
    let mut j: usize = 0;
    while j < n
        invariant
            n == blocks@.len(),
            n == 64 * bw * bh,
            pw == 8 * bw,
            bw > 0,
            bh > 0,
            j <= n,
            out@.len() == j,
            forall|k: int| 0 <= k < j ==> #[trigger] out@[k] == raster_sample(blocks@, bw as int, k),
            samples_in_range(blocks@) ==> samples_in_range(out@),
        decreases n - j,
    {
        proof {
            lemma_block_index(bw as int, bh as int, j as int);
        }
        let y = j / pw;
        let x = j % pw;
        let idx = ((y / 8) * bw + x / 8) * 64 + (y % 8) * 8 + x % 8;
        out.push(blocks[idx]);
        j += 1;
    }
    out
}

/// Row `y` (of `pw` samples) of a plane.
pub open spec fn row_of(plane: Seq<i16>, pw: int, y: int) -> Seq<i16> {
    plane.subrange(y * pw, y * pw + pw)
}

/// Sample `j` of a plane whose rows of `pw` samples are each up-sampled
/// horizontally to `2 * pw`.
pub open spec fn upsample_rows_at(plane: Seq<i16>, pw: int, j: int) -> i16 {
    upsample_h_at(row_of(plane, pw, j / (2 * pw)), 2 * pw, j % (2 * pw))
}

/// Sample `j` of a plane whose bands of eight rows of `pw` samples are each
/// up-sampled vertically to sixteen rows.
pub open spec fn upsample_bands_at(plane: Seq<i16>, pw: int, j: int) -> i16 {
    let band = plane.subrange((j / (16 * pw)) * (8 * pw), (j / (16 * pw)) * (8 * pw) + 8 * pw);
    upsample_v_at(band, 16 * pw, j % (16 * pw))
}

/// Up-sample each row of `pw` samples of a plane horizontally to `2 * pw`.
pub fn upsample_rows(plane: &Vec<i16>, pw: usize, ph: usize) -> (out: Vec<i16>)
    requires
        pw >= 8,
        plane@.len() == pw * ph,
        2 * pw * ph <= usize::MAX,
    ensures
        out@.len() == 2 * pw * ph,
        forall|j: int| 0 <= j < out@.len() ==> #[trigger] out@[j] == upsample_rows_at(plane@, pw as int, j),
        samples_in_range(plane@) ==> samples_in_range(out@),
{
    let mut out: Vec<i16> = Vec::new();
    let mut y: usize = 0;
    while y < ph
        invariant
            pw >= 8,
            plane@.len() == pw * ph,
            2 * pw * ph <= usize::MAX,
            y <= ph,
            out@.len() == 2 * pw * y,
            forall|j: int| 0 <= j < out@.len() ==> #[trigger] out@[j] == upsample_rows_at(plane@, pw as int, j),
            samples_in_range(plane@) ==> samples_in_range(out@),
        decreases ph - y,
    {
        assert(y * pw + pw <= pw * ph && 2 * pw * (y + 1) <= 2 * pw * ph && 2 * pw <= 2 * pw * ph)
            by (nonlinear_arith)
            requires
                y < ph,
                pw >= 0,
        ;
        assert(plane@.len() == plane.len());
        let start = y * pw;
        let row = vstd::slice::slice_subrange(plane.as_slice(), start, start + pw);
        assert(row@ == row_of(plane@, pw as int, y as int));
        let up = upsample_horizontal(row, 2 * pw);
        let ghost before = out@;
        out.extend_from_slice(up.as_slice());
        assert(2 * pw * y + 2 * pw == 2 * pw * (y + 1)) by (nonlinear_arith);
        assert forall|j: int| 0 <= j < out@.len() implies #[trigger] out@[j] == upsample_rows_at(
            plane@,
            pw as int,
            j,
        ) by {
            if j >= before.len() {
                let k = j - before.len();
                assert(before.len() == y * (2 * pw)) by (nonlinear_arith)
                    requires
                        before.len() == 2 * pw * y,
                ;
                vstd::arithmetic::div_mod::lemma_fundamental_div_mod_converse(
                    j,
                    2 * pw as int,
                    y as int,
                    k,
                );
            }
        }
        proof {
            if samples_in_range(plane@) {
                assert(samples_in_range(row@));
                assert forall|i: int| 0 <= i < out@.len() implies 0 <= #[trigger] out@[i] <= 255 by {
                    if i >= before.len() {
                        assert(out@[i] == up@[i - before.len()]);
                    }
                }
            }
        }
        y += 1;
    }
    out
}

/// Up-sample each band of eight rows of `pw` samples of a plane vertically
/// to sixteen rows.
pub fn upsample_bands(plane: &Vec<i16>, pw: usize, ph: usize) -> (out: Vec<i16>)
    requires
        pw >= 8,
        ph % 8 == 0,
        plane@.len() == pw * ph,
        2 * pw * ph <= usize::MAX,
    ensures
        out@.len() == 2 * pw * ph,
        forall|j: int| 0 <= j < out@.len() ==> #[trigger] out@[j] == upsample_bands_at(plane@, pw as int, j),
        samples_in_range(plane@) ==> samples_in_range(out@),
{
    let bands = ph / 8;
    let mut out: Vec<i16> = Vec::new();
    let mut b: usize = 0;
    assert(plane@.len() == plane.len());
    while b < bands
        invariant
            pw >= 8,
            ph == 8 * bands,
            plane@.len() == pw * ph,
            plane@.len() == plane.len(),
            2 * pw * ph <= usize::MAX,
            b <= bands,
            out@.len() == 16 * pw * b,
            forall|j: int| 0 <= j < out@.len() ==> #[trigger] out@[j] == upsample_bands_at(plane@, pw as int, j),
            samples_in_range(plane@) ==> samples_in_range(out@),
        decreases bands - b,
    {
        assert(8 * pw <= pw * ph) by (nonlinear_arith)
            requires
                b < bands,
                ph == 8 * bands,
                pw >= 0,
        ;
        let band_len = 8 * pw;
        assert(b * band_len + band_len <= pw * ph && 2 * band_len * (b + 1) <= 2 * pw * ph
            && 2 * band_len <= 2 * pw * ph) by (nonlinear_arith)
            requires
                b < bands,
                ph == 8 * bands,
                band_len == 8 * pw,
                pw >= 0,
        ;
        let start = b * band_len;
        let band = vstd::slice::slice_subrange(plane.as_slice(), start, start + band_len);
        assert(band@.len() / 8 == pw as int);
        let up = upsample_vertical(band, 2 * band_len);
        let ghost before = out@;
        out.extend_from_slice(up.as_slice());
        assert(16 * pw * b + 2 * band_len == 16 * pw * (b + 1)) by (nonlinear_arith)
            requires
                band_len == 8 * pw,
        ;
        assert forall|j: int| 0 <= j < out@.len() implies #[trigger] out@[j] == upsample_bands_at(
            plane@,
            pw as int,
            j,
        ) by {
            if j >= before.len() {
                let k = j - before.len();
                assert(before.len() == b * (16 * pw)) by (nonlinear_arith)
                    requires
                        before.len() == 16 * pw * b,
                ;
                vstd::arithmetic::div_mod::lemma_fundamental_div_mod_converse(
                    j,
                    16 * pw as int,
                    b as int,
                    k,
                );
                assert(start == (j / (16 * pw as int)) * (8 * pw));
            }
        }
        proof {
            if samples_in_range(plane@) {
                assert(samples_in_range(band@));
                assert forall|i: int| 0 <= i < out@.len() implies 0 <= #[trigger] out@[i] <= 255 by {
                    if i >= before.len() {
                        assert(out@[i] == up@[i - before.len()]);
                    }
                }
            }
        }
        b += 1;
    }
    assert(16 * pw * bands == 2 * pw * ph) by (nonlinear_arith)
        requires
            ph == 8 * bands,
    ;
    out
}

/// A plane whose rows are up-sampled horizontally.
pub open spec fn rows_up(plane: Seq<i16>, pw: int, ph: int) -> Seq<i16> {
    Seq::new((2 * pw * ph) as nat, |j: int| upsample_rows_at(plane, pw, j))
}

/// A plane whose bands of eight rows are up-sampled vertically.
pub open spec fn bands_up(plane: Seq<i16>, pw: int, ph: int) -> Seq<i16> {
    Seq::new((2 * pw * ph) as nat, |j: int| upsample_bands_at(plane, pw, j))
}

/// A plane of `pw` by `ph` samples up-sampled by `s`.
pub open spec fn upsampled(plane: Seq<i16>, pw: int, ph: int, s: UpSampler) -> Seq<i16> {
    match s {
        UpSampler::NoOp => plane,
        UpSampler::Horizontal => rows_up(plane, pw, ph),
        UpSampler::Vertical => bands_up(plane, pw, ph),
        UpSampler::HorizontalVertical => rows_up(bands_up(plane, pw, ph), pw, 2 * ph),
    }
}

/// Width of a plane of width `pw` up-sampled by `s`.
pub open spec fn upsampled_width(pw: int, s: UpSampler) -> int {
    match s {
        UpSampler::Horizontal | UpSampler::HorizontalVertical => 2 * pw,
        _ => pw,
    }
}

/// Height of a plane of height `ph` up-sampled by `s`.
pub open spec fn upsampled_height(ph: int, s: UpSampler) -> int {
    match s {
        UpSampler::Vertical | UpSampler::HorizontalVertical => 2 * ph,
        _ => ph,
    }
}

/// Up-sample a plane of `pw` by `ph` samples with the routine `s`.
pub fn upsample_plane(plane: Vec<i16>, pw: usize, ph: usize, s: UpSampler) -> (out: Vec<i16>)
    requires
        pw >= 8,
        ph % 8 == 0,
        plane@.len() == pw * ph,
        4 * pw * ph <= usize::MAX,
    ensures
        out@ == upsampled(plane@, pw as int, ph as int, s),
        out@.len() == upsampled_width(pw as int, s) * upsampled_height(ph as int, s),
        samples_in_range(plane@) ==> samples_in_range(out@),
{
    assert(2 * pw * ph <= 4 * pw * ph && 2 * pw * (2 * ph) == 4 * pw * ph && 2 * ph <= 4 * pw * ph)
        by (nonlinear_arith)
        requires
            pw >= 8,
            ph >= 0,
    ;
    match s {
        UpSampler::NoOp => plane,
        UpSampler::Horizontal => {
            let out = upsample_rows(&plane, pw, ph);
            assert(out@ =~= rows_up(plane@, pw as int, ph as int));
            assert(2 * pw * ph == (2 * pw) * ph) by (nonlinear_arith);
            out
        },
        UpSampler::Vertical => {
            let out = upsample_bands(&plane, pw, ph);
            assert(out@ =~= bands_up(plane@, pw as int, ph as int));
            assert(2 * pw * ph == pw * (2 * ph)) by (nonlinear_arith);
            out
        },
        UpSampler::HorizontalVertical => {
            let first = upsample_bands(&plane, pw, ph);
            assert(first@ =~= bands_up(plane@, pw as int, ph as int));
            assert(2 * pw * ph == pw * (2 * ph) && 2 * pw * (2 * ph) == 4 * pw * ph) by (nonlinear_arith);
            let out = upsample_rows(&first, pw, 2 * ph);
            assert(out@ =~= rows_up(first@, pw as int, 2 * ph as int));
            assert(2 * pw * (2 * ph) == (2 * pw) * (2 * ph)) by (nonlinear_arith);
            out
        },
    }
}

/// Byte `c` of the output pixel made from the samples `(yv, cbv, crv)` when
/// an image in colour space `in_cs` is decoded into `out_cs`: grayscale keeps
/// the luminance, `YCbCr` keeps the three samples, `RGB`, `RGBA` and `RGBX`
/// are converted; any other combination gives zero bytes.
pub open spec fn output_byte(yv: i16, cbv: i16, crv: i16, in_cs: ColorSpace, out_cs: ColorSpace, c: int) -> u8 {
    let ycc = in_cs == ColorSpace::YCbCr;
    match out_cs {
        ColorSpace::GRAYSCALE => if ycc || in_cs == ColorSpace::GRAYSCALE {
            yv as u8
        } else {
            0
        },
        ColorSpace::YCbCr => if !ycc {
            0
        } else if c == 0 {
            yv as u8
        } else if c == 1 {
            cbv as u8
        } else {
            crv as u8
        },
        ColorSpace::RGB => if ycc {
            rgb_channel(yv, cbv, crv, c)
        } else {
            0
        },
        ColorSpace::RGBA | ColorSpace::RGBX => if ycc {
            rgba_channel(yv, cbv, crv, c)
        } else {
            0
        },
        _ => 0,
    }
}

/// Whether converting from `in_cs` to `out_cs` reads the chrominance planes.
pub open spec fn needs_chroma(in_cs: ColorSpace, out_cs: ColorSpace) -> bool {
    in_cs == ColorSpace::YCbCr && (out_cs == ColorSpace::YCbCr || out_cs == ColorSpace::RGB
        || out_cs == ColorSpace::RGBA || out_cs == ColorSpace::RGBX)
}

/// Sixteen samples from `b` on.
fn gather16(v: &Vec<i16>, b: usize) -> (a: [i16; 16])
    requires
        b + 16 <= v@.len(),
    ensures
        forall|k: int| 0 <= k < 16 ==> #[trigger] a[k] == v@[b + k],
        a@ == v@.subrange(b as int, b + 16),
{
    let len = v.len();
    let a = [
        v[b + 0],
        v[b + 1],
        v[b + 2],
        v[b + 3],
        v[b + 4],
        v[b + 5],
        v[b + 6],
        v[b + 7],
        v[b + 8],
        v[b + 9],
        v[b + 10],
        v[b + 11],
        v[b + 12],
        v[b + 13],
        v[b + 14],
        v[b + 15],
    ];
    assert(a@ =~= v@.subrange(b as int, b + 16));
    a
}

/// Eight samples from `b` on.
fn gather8(v: &Vec<i16>, b: usize) -> (a: [i16; 8])
    requires
        b + 8 <= v@.len(),
    ensures
        forall|k: int| 0 <= k < 8 ==> #[trigger] a[k] == v@[b + k],
        a@ == v@.subrange(b as int, b + 8),
{
    let len = v.len();
    let a = [
        v[b + 0],
        v[b + 1],
        v[b + 2],
        v[b + 3],
        v[b + 4],
        v[b + 5],
        v[b + 6],
        v[b + 7],
    ];
    assert(a@ =~= v@.subrange(b as int, b + 8));
    a
}

/// The byte `output_byte` gives, for the combinations that need no
/// colour conversion.
fn plain_output_byte(yv: i16, cbv: i16, crv: i16, in_cs: ColorSpace, out_cs: ColorSpace, c: usize) -> (b: u8)
    requires
        !(in_cs == ColorSpace::YCbCr && (out_cs == ColorSpace::RGB || out_cs == ColorSpace::RGBA
            || out_cs == ColorSpace::RGBX)),
    ensures
        b == output_byte(yv, cbv, crv, in_cs, out_cs, c as int),
{
    let ycc = in_cs == ColorSpace::YCbCr;
    match out_cs {
        ColorSpace::GRAYSCALE => if ycc || in_cs == ColorSpace::GRAYSCALE {
            yv as u8
        } else {
            0
        },
        ColorSpace::YCbCr => if !ycc {
            0
        } else if c == 0 {
            yv as u8
        } else if c == 1 {
            cbv as u8
        } else {
            crv as u8
        },
        _ => 0,
    }
}

/// Byte `q` of a row of output pixels made from the samples at `base`
/// onwards, `n` bytes per pixel.
pub open spec fn row_byte(
    y: Seq<i16>,
    cb: Seq<i16>,
    cr: Seq<i16>,
    base: int,
    n: int,
    in_cs: ColorSpace,
    out_cs: ColorSpace,
    q: int,
) -> u8 {
    output_byte(y[base + q / n], cb[base + q / n], cr[base + q / n], in_cs, out_cs, q % n)
}

/// Every sample of the three runs of samples fits the conversion.
proof fn lemma_runs_fit(ya: Seq<i16>, cba: Seq<i16>, cra: Seq<i16>)
    requires
        samples_in_range(ya),
        samples_in_range(cba),
        samples_in_range(cra),
        ya.len() == cba.len(),
        ya.len() == cra.len(),
    ensures
        all_fit(ya, cba, cra),
{
    assert forall|i: int| 0 <= i < ya.len() implies #[trigger] crate::color_convert::ycbcr_fits(
        ya[i],
        cba[i],
        cra[i],
    ) by {
        lemma_samples_fit(ya[i], cba[i], cra[i]);
    }
}

/// The bytes a conversion routine writes for pixels `x..x + m` of a row are
/// the row's bytes there.
proof fn lemma_converted_bytes(
    y: Seq<i16>,
    cb: Seq<i16>,
    cr: Seq<i16>,
    base: int,
    x: int,
    m: int,
    n: int,
    out_cs: ColorSpace,
    bytes: Seq<u8>,
    k: int,
)
    requires
        (out_cs == ColorSpace::RGB && n == 3 && bytes == crate::color_convert::rgb_bytes(
            y.subrange(base + x, base + x + m),
            cb.subrange(base + x, base + x + m),
            cr.subrange(base + x, base + x + m),
        )) || ((out_cs == ColorSpace::RGBA || out_cs == ColorSpace::RGBX) && n == 4 && bytes
            == crate::color_convert::rgba_bytes(
            y.subrange(base + x, base + x + m),
            cb.subrange(base + x, base + x + m),
            cr.subrange(base + x, base + x + m),
        )),
        0 <= base,
        0 <= x,
        0 < m,
        base + x + m <= y.len(),
        base + x + m <= cb.len(),
        base + x + m <= cr.len(),
        0 <= k < n * m,
    ensures
        bytes[k] == row_byte(y, cb, cr, base, n, ColorSpace::YCbCr, out_cs, x * n + k),
{
    vstd::arithmetic::div_mod::lemma_fundamental_div_mod(k, n);
    vstd::arithmetic::div_mod::lemma_mod_pos_bound(k, n);
    let i = k / n;
    let c = k % n;
    assert(x * n + k == (x + i) * n + c) by (nonlinear_arith)
        requires
            k == n * i + c,
    ;
    vstd::arithmetic::div_mod::lemma_fundamental_div_mod_converse(x * n + k, n, x + i, c);
    assert(0 <= i < m) by {
        vstd::arithmetic::div_mod::lemma_div_pos_is_pos(k, n);
        if i >= m {
            assert(k >= n * m) by (nonlinear_arith)
                requires
                    k == n * i + c,
                    c >= 0,
                    i >= m,
                    n > 0,
            ;
        }
    }
}

/// After a conversion routine wrote the bytes of pixels `x..x + m` at
/// `x * n`, the row is right up to pixel `x + m`.
proof fn lemma_chunk_written(
    old_buf: Seq<u8>,
    new_buf: Seq<u8>,
    y: Seq<i16>,
    cb: Seq<i16>,
    cr: Seq<i16>,
    base: int,
    x: int,
    m: int,
    n: int,
    out_cs: ColorSpace,
    bytes: Seq<u8>,
)
    requires
        (out_cs == ColorSpace::RGB && n == 3 && bytes == crate::color_convert::rgb_bytes(
            y.subrange(base + x, base + x + m),
            cb.subrange(base + x, base + x + m),
            cr.subrange(base + x, base + x + m),
        )) || ((out_cs == ColorSpace::RGBA || out_cs == ColorSpace::RGBX) && n == 4 && bytes
            == crate::color_convert::rgba_bytes(
            y.subrange(base + x, base + x + m),
            cb.subrange(base + x, base + x + m),
            cr.subrange(base + x, base + x + m),
        )),
        0 <= base,
        0 <= x,
        0 < m,
        base + x + m <= y.len(),
        base + x + m <= cb.len(),
        base + x + m <= cr.len(),
        x * n + m * n <= old_buf.len(),
        new_buf == splice(old_buf, x * n, bytes),
        forall|q: int|
            0 <= q < x * n ==> #[trigger] old_buf[q] == row_byte(
                y,
                cb,
                cr,
                base,
                n,
                ColorSpace::YCbCr,
                out_cs,
                q,
            ),
    ensures
        new_buf.len() == old_buf.len(),
        forall|q: int|
            0 <= q < x * n + m * n ==> #[trigger] new_buf[q] == row_byte(
                y,
                cb,
                cr,
                base,
                n,
                ColorSpace::YCbCr,
                out_cs,
                q,
            ),
{
    assert(bytes.len() == n * m);
    assert forall|q: int| 0 <= q < x * n + m * n implies #[trigger] new_buf[q] == row_byte(
        y,
        cb,
        cr,
        base,
        n,
        ColorSpace::YCbCr,
        out_cs,
        q,
    ) by {
        if q >= x * n {
            lemma_converted_bytes(y, cb, cr, base, x, m, n, out_cs, bytes, q - x * n);
        }
    }
}

/// One row of output: the `width` pixels made from the samples at `base`
/// onwards, `num_components(out_cs)` bytes each. `RGB`, `RGBA` and `RGBX`
/// go through the sixteen and eight pixel conversion routines over the whole
/// row of `pw` samples, fill included, and the first `width` pixels are kept.
fn convert_row(
    y: &Vec<i16>,
    cb: &Vec<i16>,
    cr: &Vec<i16>,
    base: usize,
    pw: usize,
    width: usize,
    in_cs: ColorSpace,
    out_cs: ColorSpace,
) -> (row: Vec<u8>)
    requires
        0 < width <= pw,
        pw % 8 == 0,
        4 * pw <= usize::MAX,
        base + pw <= y.len(),
        needs_chroma(in_cs, out_cs) ==> base + pw <= cb@.len() && base + pw <= cr@.len(),
        samples_in_range(y@),
        samples_in_range(cb@),
        samples_in_range(cr@),
    ensures
        row@.len() == width * spec_num_components(out_cs),
        forall|q: int|
            0 <= q < row@.len() ==> #[trigger] row@[q] == row_byte(
                y@,
                cb@,
                cr@,
                base as int,
                spec_num_components(out_cs) as int,
                in_cs,
                out_cs,
                q,
            ),
{
    let n = out_cs.num_components();
    let mut row: Vec<u8> = Vec::new();
    if in_cs == ColorSpace::YCbCr && (out_cs == ColorSpace::RGB || out_cs == ColorSpace::RGBA
        || out_cs == ColorSpace::RGBX) {
        let (c16, c8) = match choose_ycbcr_to_rgb_convert_func(out_cs) {
            Some(f) => f,
            None => (ColorConvert16Ptr::Rgb16, ColorConvertPtr::Rgb),
        };
        assert(c16.spec_bytes_per_pixel() == n && c8.spec_bytes_per_pixel() == n);
        let mut buf: Vec<u8> = vec![0u8; pw * n];
        let mut pos: usize = 0;
        let mut x: usize = 0;
        while x + 16 <= pw
            invariant
                n == spec_num_components(out_cs),
                n == 3 || n == 4,
                c16 == spec_convert_funcs(out_cs).unwrap().0,
                c16.spec_bytes_per_pixel() == n,
                in_cs == ColorSpace::YCbCr,
                out_cs == ColorSpace::RGB || out_cs == ColorSpace::RGBA || out_cs == ColorSpace::RGBX,
                pw % 8 == 0,
                4 * pw <= usize::MAX,
                base + pw <= y.len(),
                base + pw <= cb@.len(),
                base + pw <= cr@.len(),
                samples_in_range(y@),
                samples_in_range(cb@),
                samples_in_range(cr@),
                buf@.len() == pw * n,
                x <= pw,
                x % 8 == 0,
                pos == x * n,
                forall|q: int|
                    0 <= q < pos ==> #[trigger] buf@[q] == row_byte(
                        y@,
                        cb@,
                        cr@,
                        base as int,
                        n as int,
                        in_cs,
                        out_cs,
                        q,
                    ),
            decreases pw - x,
        {
            let ya = gather16(y, base + x);
            let cba = gather16(cb, base + x);
            let cra = gather16(cr, base + x);
            proof {
                lemma_runs_fit(ya@, cba@, cra@);
            }
            assert(pos + 16 * n <= buf@.len()) by (nonlinear_arith)
                requires
                    pos == x * n,
                    x + 16 <= pw,
                    buf@.len() == pw * n,
                    n >= 0,
            ;
            let ghost old_buf = buf@;
            c16.convert(&ya, &cba, &cra, buf.as_mut_slice(), &mut pos);
            proof {
                lemma_chunk_written(
                    old_buf,
                    buf@,
                    y@,
                    cb@,
                    cr@,
                    base as int,
                    x as int,
                    16,
                    n as int,
                    out_cs,
                    c16.spec_bytes(ya@, cba@, cra@),
                );
                assert(pos == (x + 16) * n) by (nonlinear_arith)
                    requires
                        pos == x * n + 16 * n,
                ;
            }
            x += 16;
        }
        if x + 8 <= pw {
            let ya = gather8(y, base + x);
            let cba = gather8(cb, base + x);
            let cra = gather8(cr, base + x);
            proof {
                lemma_runs_fit(ya@, cba@, cra@);
            }
            assert(pos + 8 * n <= buf@.len()) by (nonlinear_arith)
                requires
                    pos == x * n,
                    x + 8 <= pw,
                    buf@.len() == pw * n,
                    n >= 0,
            ;
            let ghost old_buf = buf@;
            c8.convert(&ya, &cba, &cra, buf.as_mut_slice(), &mut pos);
            proof {
                lemma_chunk_written(
                    old_buf,
                    buf@,
                    y@,
                    cb@,
                    cr@,
                    base as int,
                    x as int,
                    8,
                    n as int,
                    out_cs,
                    c8.spec_bytes(ya@, cba@, cra@),
                );
                assert(pos == (x + 8) * n) by (nonlinear_arith)
                    requires
                        pos == x * n + 8 * n,
                ;
            }
            x += 8;
        }
        assert(x == pw);
        assert(width * n <= pos) by (nonlinear_arith)
            requires
                width <= pw,
                pos == pw * n,
                n >= 0,
        ;
        let mut q: usize = 0;
        while q < width * n
            invariant
                n == spec_num_components(out_cs),
                width * n <= pos,
                pos <= buf@.len(),
                q <= width * n,
                row@.len() == q,
                forall|k: int|
                    0 <= k < pos ==> #[trigger] buf@[k] == row_byte(
                        y@,
                        cb@,
                        cr@,
                        base as int,
                        n as int,
                        in_cs,
                        out_cs,
                        k,
                    ),
                forall|k: int|
                    0 <= k < q ==> #[trigger] row@[k] == row_byte(
                        y@,
                        cb@,
                        cr@,
                        base as int,
                        n as int,
                        in_cs,
                        out_cs,
                        k,
                    ),
            decreases width * n - q,
        {
            row.push(buf[q]);
            q += 1;
        }
    } else {
        let mut x: usize = 0;
        while x < width
            invariant
                n == spec_num_components(out_cs),
                1 <= n <= 4,
                !(in_cs == ColorSpace::YCbCr && (out_cs == ColorSpace::RGB || out_cs
                    == ColorSpace::RGBA || out_cs == ColorSpace::RGBX)),
                width <= pw,
                4 * pw <= usize::MAX,
                base + pw <= y.len(),
                needs_chroma(in_cs, out_cs) ==> base + pw <= cb@.len() && base + pw <= cr@.len(),
                x <= width,
                row@.len() == x * n,
                forall|k: int|
                    0 <= k < row@.len() ==> #[trigger] row@[k] == row_byte(
                        y@,
                        cb@,
                        cr@,
                        base as int,
                        n as int,
                        in_cs,
                        out_cs,
                        k,
                    ),
            decreases width - x,
        {
            let yv = y[base + x];
            let cbv = if needs_chroma_exec(in_cs, out_cs) {
                cb[base + x]
            } else {
                0
            };
            let crv = if needs_chroma_exec(in_cs, out_cs) {
                cr[base + x]
            } else {
                0
            };
            let mut c: usize = 0;
            while c < n
                invariant
                    n == spec_num_components(out_cs),
                    1 <= n <= 4,
                    !(in_cs == ColorSpace::YCbCr && (out_cs == ColorSpace::RGB || out_cs
                        == ColorSpace::RGBA || out_cs == ColorSpace::RGBX)),
                    x < width,
                    base + x < y@.len(),
                    yv == y@[base + x],
                    needs_chroma(in_cs, out_cs) ==> cbv == cb@[base + x] && crv == cr@[base + x],
                    c <= n,
                    row@.len() == x * n + c,
                    forall|k: int|
                        0 <= k < row@.len() ==> #[trigger] row@[k] == row_byte(
                            y@,
                            cb@,
                            cr@,
                            base as int,
                            n as int,
                            in_cs,
                            out_cs,
                            k,
                        ),
                decreases n - c,
            {
                let b = plain_output_byte(yv, cbv, crv, in_cs, out_cs, c);
                proof {
                    vstd::arithmetic::div_mod::lemma_fundamental_div_mod_converse(
                        x * n + c,
                        n as int,
                        x as int,
                        c as int,
                    );
                }
                row.push(b);
                c += 1;
            }
            assert(row@.len() == (x + 1) * n) by (nonlinear_arith)
                requires
                    row@.len() == x * n + n,
            ;
            x += 1;
        }
    }
    row
}

/// Whether converting from `in_cs` to `out_cs` reads the chrominance planes.
fn needs_chroma_exec(in_cs: ColorSpace, out_cs: ColorSpace) -> (b: bool)
    ensures
        b == needs_chroma(in_cs, out_cs),
{
    in_cs == ColorSpace::YCbCr && (out_cs == ColorSpace::YCbCr || out_cs == ColorSpace::RGB
        || out_cs == ColorSpace::RGBA || out_cs == ColorSpace::RGBX)
}

/// Index into the planes of the sample behind byte `j` of the output, whose
/// rows hold `width` pixels of `n` bytes, planes rows holding `pw` samples.
pub open spec fn pixel_sample_index(j: int, n: int, width: int, pw: int) -> int {
    ((j / n) / width) * pw + (j / n) % width
}

/// Byte `j` of the decoded image made from the three planes.
pub open spec fn image_byte(
    y: Seq<i16>,
    cb: Seq<i16>,
    cr: Seq<i16>,
    pw: int,
    width: int,
    in_cs: ColorSpace,
    out_cs: ColorSpace,
    j: int,
) -> u8 {
    let n = spec_num_components(out_cs) as int;
    let p = pixel_sample_index(j, n, width, pw);
    output_byte(y[p], cb[p], cr[p], in_cs, out_cs, j % n)
}

proof fn lemma_row_position(r: int, q: int, n: int, width: int, pw: int)
    requires
        n > 0,
        width > 0,
        r >= 0,
        0 <= q < width * n,
    ensures
        pixel_sample_index(r * (width * n) + q, n, width, pw) == r * pw + q / n,
        (r * (width * n) + q) % n == q % n,
{
    let j = r * (width * n) + q;
    vstd::arithmetic::div_mod::lemma_fundamental_div_mod(q, n);
    vstd::arithmetic::div_mod::lemma_mod_pos_bound(q, n);
    let i = q / n;
    let c = q % n;
    assert(j == (r * width + i) * n + c) by (nonlinear_arith)
        requires
            j == r * (width * n) + q,
            q == n * i + c,
    ;
    vstd::arithmetic::div_mod::lemma_fundamental_div_mod_converse(j, n, r * width + i, c);
    assert(0 <= i < width) by {
        vstd::arithmetic::div_mod::lemma_div_pos_is_pos(q, n);
        if i >= width {
            assert(q >= width * n) by (nonlinear_arith)
                requires
                    q == n * i + c,
                    c >= 0,
                    i >= width,
                    n > 0,
            ;
        }
    }
    vstd::arithmetic::div_mod::lemma_fundamental_div_mod_converse(r * width + i, width, r, i);
}

/// Colour convert the planes into `height` rows of `width` pixels; planes
/// rows hold `pw` samples.
pub fn color_convert_ycbcr(
    y: &Vec<i16>,
    cb: &Vec<i16>,
    cr: &Vec<i16>,
    pw: usize,
    width: usize,
    height: usize,
    in_cs: ColorSpace,
    out_cs: ColorSpace,
) -> (out: Vec<u8>)
    requires
        0 < width <= pw,
        pw % 8 == 0,
        4 * pw <= usize::MAX,
        4 * width * height <= usize::MAX,
        pw * height <= y.len(),
        needs_chroma(in_cs, out_cs) ==> pw * height <= cb@.len() && pw * height <= cr@.len(),
        samples_in_range(y@),
        samples_in_range(cb@),
        samples_in_range(cr@),
    ensures
        out@.len() == width * height * spec_num_components(out_cs),
        forall|j: int|
            0 <= j < out@.len() ==> #[trigger] out@[j] == image_byte(
                y@,
                cb@,
                cr@,
                pw as int,
                width as int,
                in_cs,
                out_cs,
                j,
            ),
{
    let n = out_cs.num_components();
    let mut out: Vec<u8> = Vec::new();
    let mut r: usize = 0;
    while r < height
        invariant
            0 < width <= pw,
            pw % 8 == 0,
            4 * pw <= usize::MAX,
            4 * width * height <= usize::MAX,
            pw * height <= y.len(),
            needs_chroma(in_cs, out_cs) ==> pw * height <= cb@.len() && pw * height <= cr@.len(),
            samples_in_range(y@),
            samples_in_range(cb@),
            samples_in_range(cr@),
            n == spec_num_components(out_cs),
            1 <= n <= 4,
            r <= height,
            out@.len() == r * (width * n),
            forall|j: int|
                0 <= j < out@.len() ==> #[trigger] out@[j] == image_byte(
                    y@,
                    cb@,
                    cr@,
                    pw as int,
                    width as int,
                    in_cs,
                    out_cs,
                    j,
                ),
        decreases height - r,
    {
        assert(r * pw + pw <= pw * height) by (nonlinear_arith)
            requires
                r < height,
        ;
        let base = r * pw;
        let row = convert_row(y, cb, cr, base, pw, width, in_cs, out_cs);
        let ghost before = out@;
        out.extend_from_slice(row.as_slice());
        assert forall|j: int| 0 <= j < out@.len() implies #[trigger] out@[j] == image_byte(
            y@,
            cb@,
            cr@,
            pw as int,
            width as int,
            in_cs,
            out_cs,
            j,
        ) by {
            if j >= before.len() {
                let q = j - before.len();
                lemma_row_position(r as int, q, n as int, width as int, pw as int);
                assert(out@[j] == row@[q]);
            }
        }
        assert(r * (width * n) + width * n == (r + 1) * (width * n)) by (nonlinear_arith);
        assert((r + 1) * (width * n) <= 4 * width * height) by (nonlinear_arith)
            requires
                r < height,
                n <= 4,
        ;
        r += 1;
    }
    assert(height * (width * n) == width * height * n) by (nonlinear_arith);
    out
}

/// The samples of a plane of blocks after dequantization and inverse DCT,
/// block by block.
pub open spec fn idct_plane(coeffs: Seq<i16>, qt: Seq<i32>) -> Seq<i16> {
    Seq::new(
        coeffs.len(),
        |i: int| spec_idct(coeffs.subrange(64 * (i / 64), 64 * (i / 64) + 64), qt, i % 64),
    )
}

/// A plane of blocks, `bw` per row, in rows of samples.
pub open spec fn raster_of(blocks: Seq<i16>, bw: int) -> Seq<i16> {
    Seq::new(blocks.len(), |j: int| raster_sample(blocks, bw, j))
}

/// Post process the coefficients of one component: dequantize and inverse
/// DCT each block and arrange the blocks in rows of samples.
pub fn process_component(coeffs: Vec<i16>, qt_table: &Aligned32<[i32; 64]>, bw: usize, bh: usize) -> (out:
    Vec<i16>)
    requires
        bw > 0,
        bh > 0,
        coeffs@.len() == 64 * bw * bh,
        4 * (64 * bw * bh) <= usize::MAX,
    ensures
        out@ == raster_of(idct_plane(coeffs@, qt_table.0@), bw as int),
        out@.len() == coeffs@.len(),
        samples_in_range(out@),
{
    let mut v = coeffs;
    // the inverse DCT routine for this platform
    let idct = choose_idct_func();
    idct.run(&mut v, qt_table);
    assert(v@ =~= idct_plane(coeffs@, qt_table.0@)) by {
        assert(64 * bw * bh == 64 * (bw * bh)) by (nonlinear_arith);
        vstd::arithmetic::div_mod::lemma_div_multiples_vanish(bw * bh, 64);
        assert(64 * (coeffs@.len() / 64) == coeffs@.len());
        assert forall|i: int| 0 <= i < v@.len() implies #[trigger] v@[i] == idct_plane(
            coeffs@,
            qt_table.0@,
        )[i] by {
            let b = i / 64;
            let k = i % 64;
            assert(0 <= b < coeffs@.len() / 64);
            assert(i == 64 * b + k);
            assert(v@[64 * b + k] == spec_idct(coeffs@.subrange(64 * b, 64 * b + 64), qt_table.0@, k));
        }
    }
    assert(samples_in_range(v@)) by {
        assert forall|i: int| 0 <= i < v@.len() implies 0 <= #[trigger] v@[i] <= 255 by {
            lemma_idct_output_in_range(
                coeffs@.subrange(64 * (i / 64), 64 * (i / 64) + 64),
                qt_table.0@,
                i % 64,
            );
        }
    }
    let raster = blocks_to_raster(&v, bw, bh);
    assert(raster@ =~= raster_of(v@, bw as int));
    raster
}

/// The pixels colour conversion makes of the sample planes of an image (in
/// rows, after the inverse DCT): where the output needs the chrominance
/// planes, they are up-sampled to the luminance plane's size first.
pub open spec fn converted_pixels(
    g: Geometry,
    yp: Seq<i16>,
    cbp: Seq<i16>,
    crp: Seq<i16>,
    in_cs: ColorSpace,
    out_cs: ColorSpace,
) -> Seq<u8> {
    let chroma = needs_chroma(in_cs, out_cs);
    Seq::new(
        (g.width * g.height * spec_num_components(out_cs)) as nat,
        |j: int|
            image_byte(
                yp,
                if chroma {
                    upsampled(cbp, 8 * g.bw(1), 8 * g.bh(1), g.chroma_sampler())
                } else {
                    Seq::empty()
                },
                if chroma {
                    upsampled(crp, 8 * g.bw(2), 8 * g.bh(2), g.chroma_sampler())
                } else {
                    Seq::empty()
                },
                g.pw(),
                g.width as int,
                in_cs,
                out_cs,
                j,
            ),
    )
}

/// Up-sample the chrominance planes where the output needs them, then colour
/// convert the planes (in rows, after the inverse DCT) into `width` by
/// `height` pixels of the output colour space.
pub fn post_process_inner(
    g: &Geometry,
    yp: Vec<i16>,
    cbp: Vec<i16>,
    crp: Vec<i16>,
    in_cs: ColorSpace,
    out_cs: ColorSpace,
) -> (out: Vec<u8>)
    requires
        g.wf(),
        yp@.len() == g.plane_len(0),
        samples_in_range(yp@),
        needs_chroma(in_cs, out_cs) ==> cbp@.len() == g.plane_len(1) && crp@.len() == g.plane_len(2)
            && samples_in_range(cbp@) && samples_in_range(crp@),
    ensures
        out@.len() == g.width * g.height * spec_num_components(out_cs),
        out@ == converted_pixels(*g, yp@, cbp@, crp@, in_cs, out_cs),
{
    proof {
        lemma_geometry_bounds(*g, 0);
        lemma_geometry_bounds(*g, 1);
        lemma_geometry_bounds(*g, 2);
    }
    let bw0 = g.mcu_x * g.h_max;
    let bh0 = g.mcu_y * g.v_max;
    assert(bw0 == g.bw(0) && bh0 == g.bh(0));
    let need = needs_chroma_exec(in_cs, out_cs);
    let s = chroma_sampler(g);
    let pw = 8 * bw0;
    assert(64 * g.mcu_x * g.mcu_y == (8 * g.mcu_x) * (8 * g.mcu_y) && 64 * bw0 * bh0 == pw * (8 * bh0)
        && 4 * (8 * g.mcu_x) * (8 * g.mcu_y) == 4 * (64 * g.mcu_x * g.mcu_y)) by (nonlinear_arith)
        requires
            pw == 8 * bw0,
    ;
    assert(g.plane_len(1) == 64 * g.mcu_x * g.mcu_y);
    let (cbu, cru) = if need {
        assert(g.plane_len(1) == 64 * g.mcu_x * g.mcu_y && g.plane_len(2) == 64 * g.mcu_x * g.mcu_y);
        let cbu = upsample_plane(cbp, 8 * g.mcu_x, 8 * g.mcu_y, s);
        let cru = upsample_plane(crp, 8 * g.mcu_x, 8 * g.mcu_y, s);
        (cbu, cru)
    } else {
        (Vec::new(), Vec::new())
    };
    proof {
        if need {
            assert(upsampled_width(8 * g.mcu_x, s) == pw && upsampled_height(8 * g.mcu_y, s) == 8
                * bh0) by (nonlinear_arith)
                requires
                    bw0 == g.mcu_x * g.h_max,
                    bh0 == g.mcu_y * g.v_max,
                    pw == 8 * bw0,
                    s == g.chroma_sampler(),
                    g.h_max == 1 || g.h_max == 2,
                    g.v_max == 1 || g.v_max == 2,
            ;
            assert(pw * g.height <= pw * (8 * bh0)) by (nonlinear_arith)
                requires
                    g.height <= 8 * bh0,
                    pw >= 0,
            ;
            assert(pw * (8 * bh0) == upsampled_width(8 * g.mcu_x, s) * upsampled_height(
                8 * g.mcu_y,
                s,
            ));
        }
        assert(pw * g.height <= pw * (8 * bh0)) by (nonlinear_arith)
            requires
                g.height <= 8 * bh0,
                pw >= 0,
        ;
        assert(pw * (8 * bh0) == 8 * bw0 * (8 * bh0));
        assert(4 * g.width * g.height <= 0x2000_0000) by (nonlinear_arith)
            requires
                g.height * g.width <= MAX_DIMENSIONS,
                MAX_DIMENSIONS == 134217728,
        ;
        assert(4 * pw <= 0x2000_0000) by (nonlinear_arith)
            requires
                pw * (8 * bh0) <= 0x1000_0000,
                bh0 >= 1,
                pw >= 0,
        ;
    }
    let out = color_convert_ycbcr(&yp, &cbu, &cru, pw, g.width, g.height, in_cs, out_cs);
    assert(out@ =~= converted_pixels(*g, yp@, cbp@, crp@, in_cs, out_cs));
    out
}

/// Post process decoded coefficient planes into pixels: the luminance plane
/// and, where the output needs them, the chrominance planes go through the
/// inverse DCT, the chrominance planes are up-sampled to the luminance
/// plane's size and all are converted to the output colour space, `width` by
/// `height` pixels.
pub fn post_process(
    g: &Geometry,
    y: Vec<i16>,
    cb: Vec<i16>,
    cr: Vec<i16>,
    qt_y: &Aligned32<[i32; 64]>,
    qt_cb: &Aligned32<[i32; 64]>,
    qt_cr: &Aligned32<[i32; 64]>,
    in_cs: ColorSpace,
    out_cs: ColorSpace,
) -> (out: Vec<u8>)
    requires
        g.wf(),
        y@.len() == g.plane_len(0),
        g.ncomp == 3 ==> cb@.len() == g.plane_len(1) && cr@.len() == g.plane_len(2),
        g.ncomp == 1 ==> !needs_chroma(in_cs, out_cs),
    ensures
        out@.len() == g.width * g.height * spec_num_components(out_cs),
        out@ == decoded_pixels(*g, y@, cb@, cr@, qt_y.0@, qt_cb.0@, qt_cr.0@, in_cs, out_cs),
{
    proof {
        lemma_geometry_bounds(*g, 0);
        lemma_geometry_bounds(*g, 1);
        lemma_geometry_bounds(*g, 2);
    }
    let bw0 = g.mcu_x * g.h_max;
    let bh0 = g.mcu_y * g.v_max;
    assert(bw0 == g.bw(0) && bh0 == g.bh(0));
    let yp = process_component(y, qt_y, bw0, bh0);
    let need = needs_chroma_exec(in_cs, out_cs);
    let (cbp, crp) = if need {
        let cbp = process_component(cb, qt_cb, g.mcu_x, g.mcu_y);
        let crp = process_component(cr, qt_cr, g.mcu_x, g.mcu_y);
        (cbp, crp)
    } else {
        (Vec::new(), Vec::new())
    };
    let out = post_process_inner(g, yp, cbp, crp, in_cs, out_cs);
    assert(out@ =~= decoded_pixels(*g, y@, cb@, cr@, qt_y.0@, qt_cb.0@, qt_cr.0@, in_cs, out_cs));
    out
}

/// Post process coefficient planes that stay with the caller (those a
/// progressive decode accumulates over its scans): as `post_process`, on
/// copies of the planes.
pub fn post_process_prog(
    g: &Geometry,
    y: &Vec<i16>,
    cb: &Vec<i16>,
    cr: &Vec<i16>,
    qt_y: &Aligned32<[i32; 64]>,
    qt_cb: &Aligned32<[i32; 64]>,
    qt_cr: &Aligned32<[i32; 64]>,
    in_cs: ColorSpace,
    out_cs: ColorSpace,
) -> (out: Vec<u8>)
    requires
        g.wf(),
        y@.len() == g.plane_len(0),
        g.ncomp == 3 ==> cb@.len() == g.plane_len(1) && cr@.len() == g.plane_len(2),
        g.ncomp == 1 ==> !needs_chroma(in_cs, out_cs),
    ensures
        out@.len() == g.width * g.height * spec_num_components(out_cs),
        out@ == decoded_pixels(*g, y@, cb@, cr@, qt_y.0@, qt_cb.0@, qt_cr.0@, in_cs, out_cs),
{
    proof {
        lemma_geometry_bounds(*g, 0);
        lemma_geometry_bounds(*g, 1);
        lemma_geometry_bounds(*g, 2);
    }
    let bw0 = g.mcu_x * g.h_max;
    let bh0 = g.mcu_y * g.v_max;
    assert(bw0 == g.bw(0) && bh0 == g.bh(0));
    let yc = y.clone();
    assert(yc@ =~= y@);
    let yp = process_component(yc, qt_y, bw0, bh0);
    let need = needs_chroma_exec(in_cs, out_cs);
    let (cbp, crp) = if need {
        let cbc = cb.clone();
        let crc = cr.clone();
        assert(cbc@ =~= cb@ && crc@ =~= cr@);
        let cbp = process_component(cbc, qt_cb, g.mcu_x, g.mcu_y);
        let crp = process_component(crc, qt_cr, g.mcu_x, g.mcu_y);
        (cbp, crp)
    } else {
        (Vec::new(), Vec::new())
    };
    let out = post_process_inner(g, yp, cbp, crp, in_cs, out_cs);
    assert(out@ =~= decoded_pixels(*g, y@, cb@, cr@, qt_y.0@, qt_cb.0@, qt_cr.0@, in_cs, out_cs));
    out
}

} // verus!
