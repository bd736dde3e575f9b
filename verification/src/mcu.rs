//! Implements routines to decode a MCU
//!
//! The coefficients of every needed component are decoded into a plane of
//! 8x8 blocks: component `c` has `mcu_x * h_c` blocks per row and
//! `mcu_y * v_c` rows of blocks. Once the scan is decoded, the planes are post
//! processed (inverse DCT, up-sampling, colour conversion) into the pixels.
use vstd::prelude::*;

use crate::bitstream::{
    advanced, block_decode, lemma_advanced_shifted, lemma_empty_stream_bits, segment_bits, segment_bits_at, lemma_advanced_trans, lemma_block_decode_shifted,
    lemma_skip_fill_bounds, scan_marker, skip_fill, stop_at, stream_step, BitStream,
};
use crate::components::{ComponentID, Components, SubSampRatios, UpSampler};
use crate::decoder::{Decoder, ZuneJpegOptions, MAX_COMPONENTS, MAX_DIMENSIONS};
use crate::errors::{message, message_with_number, spec_decimal, DecodeErrors};
use crate::headers::ceil_div;
use crate::huffman::HuffmanTable;
use crate::marker::{spec_marker, Marker};
use crate::misc::{spec_num_components, Aligned32, ByteReader, ColorSpace};
use crate::upsampler::samples_in_range;
use crate::mcu_prog::upsampling_chosen;
use crate::worker::{converted_pixels, idct_plane, needs_chroma, post_process, raster_of};

verus! {

/// The size of a DC block for a MCU.
pub const DCT_BLOCK: usize = 64;

/// The layout of the planes of an image: its size, the largest sampling
/// factors, the number of MCUs across and down and the number of components
/// decoded (the luminance alone, or with the two chrominance components).
#[derive(Clone, Copy)]
pub struct Geometry {
    /// Width of the image
    pub width: usize,
    /// Height of the image
    pub height: usize,
    /// Horizontal sampling factor of the luminance, 1 or 2
    pub h_max: usize,
    /// Vertical sampling factor of the luminance, 1 or 2
    pub v_max: usize,
    /// MCUs per row
    pub mcu_x: usize,
    /// Rows of MCUs
    pub mcu_y: usize,
    /// Components decoded: 1 or 3
    pub ncomp: usize,
}

impl Geometry {
    /// The sizes fit the decoder's limits and the MCU counts cover the image.
    pub open spec fn wf(&self) -> bool {
        &&& 0 < self.width <= 65535
        &&& 0 < self.height <= 65535
        &&& self.height * self.width <= MAX_DIMENSIONS
        &&& (self.h_max == 1 || self.h_max == 2)
        &&& (self.v_max == 1 || self.v_max == 2)
        &&& self.mcu_x == ceil_div(self.width as int, 8 * self.h_max)
        &&& self.mcu_y == ceil_div(self.height as int, 8 * self.v_max)
        &&& self.mcu_x >= 1
        &&& self.mcu_y >= 1
        &&& self.width <= 8 * self.h_max * self.mcu_x <= self.width + 15
        &&& self.height <= 8 * self.v_max * self.mcu_y <= self.height + 15
        &&& (8 * self.h_max * self.mcu_x) * (8 * self.v_max * self.mcu_y) <= 0x1000_0000
        &&& (self.ncomp == 1 || self.ncomp == 3)
    }

    /// Horizontal sampling factor of component `c`.
    pub open spec fn samp_h(&self, c: int) -> int {
        if c == 0 {
            self.h_max as int
        } else {
            1
        }
    }

    /// Vertical sampling factor of component `c`.
    pub open spec fn samp_v(&self, c: int) -> int {
        if c == 0 {
            self.v_max as int
        } else {
            1
        }
    }

    /// Blocks per row of the plane of component `c`.
    pub open spec fn bw(&self, c: int) -> int {
        self.mcu_x * self.samp_h(c)
    }

    /// Rows of blocks of the plane of component `c`.
    pub open spec fn bh(&self, c: int) -> int {
        self.mcu_y * self.samp_v(c)
    }

    /// Coefficients in the plane of component `c`.
    pub open spec fn plane_len(&self, c: int) -> int {
        64 * self.bw(c) * self.bh(c)
    }

    /// Samples per row of the luminance plane.
    pub open spec fn pw(&self) -> int {
        8 * self.bw(0)
    }

    /// The up-sampling a chrominance plane needs.
    pub open spec fn chroma_sampler(&self) -> UpSampler {
        if self.h_max == 2 && self.v_max == 2 {
            UpSampler::HorizontalVertical
        } else if self.h_max == 2 {
            UpSampler::Horizontal
        } else if self.v_max == 2 {
            UpSampler::Vertical
        } else {
            UpSampler::NoOp
        }
    }
}

/// The plane sizes of a well formed geometry are small.
pub proof fn lemma_geometry_bounds(g: Geometry, c: int)
    requires
        g.wf(),
        0 <= c < 3,
    ensures
        g.bw(c) >= 1,
        g.bh(c) >= 1,
        g.plane_len(c) <= 0x1000_0000,
        g.plane_len(c) == 64 * g.bw(c) * g.bh(c),
        g.bw(c) <= 0x1000_0000,
        g.bh(c) <= 0x1000_0000,
        g.pw() == 8 * g.mcu_x * g.h_max,
        g.pw() >= g.width,
        8 * g.bh(0) >= g.height,
        g.pw() % 8 == 0,
{
    assert(g.mcu_x * g.samp_h(c) >= 1 && g.mcu_y * g.samp_v(c) >= 1) by (nonlinear_arith)
        requires
            g.mcu_x >= 1,
            g.mcu_y >= 1,
            g.samp_h(c) >= 1,
            g.samp_v(c) >= 1,
    ;
    assert(64 * g.bw(c) * g.bh(c) <= (8 * g.h_max * g.mcu_x) * (8 * g.v_max * g.mcu_y)) by (
    nonlinear_arith)
        requires
            g.bw(c) == g.mcu_x * g.samp_h(c),
            g.bh(c) == g.mcu_y * g.samp_v(c),
            1 <= g.samp_h(c) <= g.h_max,
            1 <= g.samp_v(c) <= g.v_max,
            g.mcu_x >= 1,
            g.mcu_y >= 1,
    ;
    assert(g.bw(c) <= 64 * g.bw(c) * g.bh(c) && g.bh(c) <= 64 * g.bw(c) * g.bh(c)) by (nonlinear_arith)
        requires
            g.bw(c) >= 1,
            g.bh(c) >= 1,
    ;
    assert(8 * (g.mcu_x * g.h_max) == 8 * g.mcu_x * g.h_max && 8 * g.h_max * g.mcu_x == 8
        * g.mcu_x * g.h_max && 8 * (g.mcu_y * g.v_max) == 8 * g.v_max * g.mcu_y) by (nonlinear_arith);
}

/// Build the geometry of an image of `width` by `height` pixels.
pub fn make_geometry(width: u16, height: u16, h_max: usize, v_max: usize, ncomp: usize) -> (res: Result<
    Geometry,
    DecodeErrors,
>)
    requires
        h_max == 1 || h_max == 2,
        v_max == 1 || v_max == 2,
        ncomp == 1 || ncomp == 3,
    ensures
        res is Ok <==> (width > 0 && height > 0 && height * width <= MAX_DIMENSIONS),
        res matches Ok(g) ==> {
            &&& g.wf()
            &&& g.width == width
            &&& g.height == height
            &&& g.h_max == h_max
            &&& g.v_max == v_max
            &&& g.ncomp == ncomp
        },
{
    if width == 0 || height == 0 {
        return Err(DecodeErrors::ZeroError);
    }
    assert(height as int * width as int <= 65535 * 65535) by (nonlinear_arith)
        requires
            width <= 65535,
            height <= 65535,
    ;
    if (height as usize) * (width as usize) > MAX_DIMENSIONS {
        return Err(DecodeErrors::LargeDimensions((height as usize) * (width as usize)));
    }
    let w = width as usize;
    let h = height as usize;
    let mcu_x = (w + 8 * h_max - 1) / (8 * h_max);
    let mcu_y = (h + 8 * v_max - 1) / (8 * v_max);
    assert(w <= 8 * h_max * mcu_x <= w + 15 && mcu_x >= 1) by {
        vstd::arithmetic::div_mod::lemma_fundamental_div_mod(w + 8 * h_max - 1, 8 * h_max as int);
        vstd::arithmetic::div_mod::lemma_mod_pos_bound(w + 8 * h_max - 1, 8 * h_max as int);
    }
    assert(h <= 8 * v_max * mcu_y <= h + 15 && mcu_y >= 1) by {
        vstd::arithmetic::div_mod::lemma_fundamental_div_mod(h + 8 * v_max - 1, 8 * v_max as int);
        vstd::arithmetic::div_mod::lemma_mod_pos_bound(h + 8 * v_max - 1, 8 * v_max as int);
    }
    assert((8 * h_max * mcu_x) * (8 * v_max * mcu_y) <= 0x1000_0000) by (nonlinear_arith)
        requires
            8 * h_max * mcu_x <= w + 15,
            8 * v_max * mcu_y <= h + 15,
            w <= 65535,
            h <= 65535,
            h * w <= MAX_DIMENSIONS,
            MAX_DIMENSIONS == 134217728,
            8 * h_max * mcu_x >= 0,
            8 * v_max * mcu_y >= 0,
    ;
    Ok(Geometry { width: w, height: h, h_max, v_max, mcu_x, mcu_y, ncomp })
}

/// Write the 64 coefficients of a block into a plane at `offset`.
pub fn store_block(plane: &mut Vec<i16>, offset: usize, block: &[i16; 64])
    requires
        offset + 64 <= old(plane)@.len(),
    ensures
        final(plane)@ == old(plane)@.subrange(0, offset as int) + block@ + old(plane)@.subrange(
            offset + 64,
            old(plane)@.len() as int,
        ),
{
    let ghost start = plane@;
    let mut i: usize = 0;
    while i < 64
        invariant
            offset + 64 <= plane.len(),
            plane@.len() == start.len(),
            i <= 64,
            forall|k: int| 0 <= k < offset ==> #[trigger] plane@[k] == start[k],
            forall|k: int| offset + 64 <= k < start.len() ==> #[trigger] plane@[k] == start[k],
            forall|k: int| 0 <= k < i ==> #[trigger] plane@[offset + k] == block[k],
        decreases 64 - i,
    {
        plane.set(offset + i, block[i]);
        i += 1;
    }
    assert(plane@ =~= start.subrange(0, offset as int) + block@ + start.subrange(
        offset + 64,
        start.len() as int,
    )) by {
        assert forall|k: int| offset <= k < offset + 64 implies plane@[k] == block@[k - offset] by {
            assert(plane@[offset + (k - offset)] == block[k - offset]);
        }
    }
}

/// The 64 coefficients of a block of a plane at `offset`.
pub fn load_block(plane: &Vec<i16>, offset: usize) -> (block: [i16; 64])
    requires
        offset + 64 <= plane@.len(),
    ensures
        block@ == plane@.subrange(offset as int, offset + 64),
{
    let mut block = [0i16; 64];
    let len = plane.len();
    let mut i: usize = 0;
    while i < 64
        invariant
            offset + 64 <= plane@.len(),
            len == plane@.len(),
            i <= 64,
            forall|k: int| 0 <= k < i ==> #[trigger] block[k] == plane@[offset + k],
        decreases 64 - i,
    {
        block[i] = plane[offset + i];
        i += 1;
    }
    assert(block@ =~= plane@.subrange(offset as int, offset + 64));
    block
}

/// Where block `(row, col)` of a plane `bw` blocks wide starts, and that it
/// lies inside the plane.
pub proof fn lemma_block_offset(row: int, col: int, bw: int, bh: int)
    requires
        0 <= row < bh,
        0 <= col < bw,
    ensures
        0 <= (row * bw + col) * 64,
        (row * bw + col) * 64 + 64 <= 64 * bw * bh,
{
    assert(0 <= row * bw + col && row * bw + col + 1 <= bw * bh) by (nonlinear_arith)
        requires
            0 <= row < bh,
            0 <= col < bw,
    ;
    assert((row * bw + col) * 64 + 64 <= 64 * bw * bh) by (nonlinear_arith)
        requires
            row * bw + col + 1 <= bw * bh,
    ;
}

/// The sampler a chrominance plane needs for the largest sampling factors.
pub fn chroma_sampler(g: &Geometry) -> (s: UpSampler)
    ensures
        s == g.chroma_sampler(),
{
    if g.h_max == 2 && g.v_max == 2 {
        UpSampler::HorizontalVertical
    } else if g.h_max == 2 {
        UpSampler::Horizontal
    } else if g.v_max == 2 {
        UpSampler::Vertical
    } else {
        UpSampler::NoOp
    }
}

/// The pixels post processing makes of coefficient planes: the luminance
/// plane and, where the output needs them, the chrominance planes, through
/// the inverse DCT and up-sampling, converted to `out_cs`, `width` by
/// `height` pixels.
pub open spec fn decoded_pixels(
    g: Geometry,
    y: Seq<i16>,
    cb: Seq<i16>,
    cr: Seq<i16>,
    qt_y: Seq<i32>,
    qt_cb: Seq<i32>,
    qt_cr: Seq<i32>,
    in_cs: ColorSpace,
    out_cs: ColorSpace,
) -> Seq<u8> {
    converted_pixels(
        g,
        raster_of(idct_plane(y, qt_y), g.bw(0)),
        raster_of(idct_plane(cb, qt_cb), g.bw(1)),
        raster_of(idct_plane(cr, qt_cr), g.bw(2)),
        in_cs,
        out_cs,
    )
}

/// The quantization table a decoder dequantizes component `c` with (that of
/// the first component for a component it does not have).
pub open spec fn spec_qt(d: Decoder, c: int) -> Seq<i32> {
    if 0 <= c < d.components@.len() {
        d.components@[c].quantization_table.0@
    } else {
        d.components@[0].quantization_table.0@
    }
}

/// `v` is what post processing makes of some coefficient planes with the
/// decoder's quantization tables, for its image size, sampling factors and
/// colour spaces.
pub open spec fn is_decoded_image(d: Decoder, v: Seq<u8>) -> bool {
    exists|g: Geometry, y: Seq<i16>, cb: Seq<i16>, cr: Seq<i16>|
        {
            &&& g.wf()
            &&& g.width == d.info.width
            &&& g.height == d.info.height
            &&& g.h_max == d.h_max
            &&& g.v_max == d.v_max
            &&& g.ncomp == d.spec_decoded_components()
            &&& #[trigger] decoded_pixels(
                g,
                y,
                cb,
                cr,
                spec_qt(d, 0),
                spec_qt(d, 1),
                spec_qt(d, 2),
                d.input_colorspace,
                d.options.out_colorspace,
            ) == v
        }
}

/// The table in `slot`, if one was defined there.
pub fn get_table<'a>(tables: &'a Vec<Option<HuffmanTable>>, slot: usize) -> (r: Option<&'a HuffmanTable>)
    requires
        forall|i: int| 0 <= i < tables@.len() ==> (#[trigger] tables@[i] matches Some(t) ==> t.wf()),
    ensures
        r matches Some(t) ==> t.wf() && slot < tables@.len() && tables@[slot as int] == Some(*t),
        r is None ==> slot >= tables@.len() || tables@[slot as int] is None,
{
    if slot < tables.len() {
        match &tables[slot] {
            Some(t) => Some(t),
            None => None,
        }
    } else {
        None
    }
}

/// The marker that ends the interval of entropy coded data a stream reads
/// from `r` (see `BitStream::pending`).
pub open spec fn interval_marker(s: BitStream, r: ByteReader) -> Option<Marker> {
    match s.pending(r) {
        Some((m, q)) => Some(m),
        None => None,
    }
}

/// What the end of a restart interval does to the stream and the DC
/// predictions: a restart marker empties the stream and zeroes the
/// predictions, the end of the image ends the stream, no marker ends the
/// stream and leaves the predictions;
/// any other marker is an error.
pub open spec fn restart_outcome(
    s0: BitStream,
    r0: ByteReader,
    s1: BitStream,
    preds0: Seq<i32>,
    preds1: Seq<i32>,
    ok: bool,
) -> bool {
    match interval_marker(s0, r0) {
        Some(Marker::RST(_)) => {
            &&& ok
            &&& s1.num_bits() == 0
            &&& s1.held() == 0
            &&& s1.marker is None
            &&& !s1.ended()
            &&& s1.eob_run == 0
            &&& forall|i: int| 0 <= i < preds1.len() ==> #[trigger] preds1[i] == 0
        },
        Some(Marker::EOI) => {
            &&& ok
            &&& s1.marker == Some(Marker::EOI)
            &&& s1.ended()
            &&& s1.eob_run == s0.eob_run
            &&& preds1 == preds0
        },
        Some(_) => !ok,
        None => ok && s1 == (BitStream { marker: None, no_more: true, ..s0 }) && preds1 == preds0,
    }
}

/// The marker that ends an interval of entropy coded data: the one the
/// stream ran into; `None` when the stream ended without one; else the next
/// one found in the data (see `scan_marker`), `None` when the data ends first
/// or the code is not a marker's.
pub fn get_marker(reader: &mut ByteReader, stream: &mut BitStream) -> (m: Option<Marker>)
    requires
        old(reader).wf(),
        old(stream).wf(),
    ensures
        final(reader).wf(),
        final(reader).bytes() == old(reader).bytes(),
        old(reader).pos() <= final(reader).pos(),
        final(stream).wf(),
        final(stream).marker is None,
        final(stream).successive_high == old(stream).successive_high,
        final(stream).successive_low == old(stream).successive_low,
        final(stream).spec_start == old(stream).spec_start,
        final(stream).spec_end == old(stream).spec_end,
        *final(stream) == (BitStream { marker: None, ..*old(stream) }),
        old(stream).ended() ==> m == old(stream).marker && *final(reader) == *old(reader),
        !old(stream).ended() ==> match scan_marker(old(reader).bytes(), old(reader).pos()) {
            Some((p, code)) => m == spec_marker(code) && final(reader).pos() == p,
            None => m is None,
        },
        m == match old(stream).pending(*old(reader)) {
            Some((mk, q)) => Some(mk),
            None => None,
        },
        old(stream).pending(*old(reader)) matches Some((mk, q)) ==> final(reader).pos() == q,
{
    if let Some(marker) = stream.marker {
        stream.marker = None;
        return Some(marker);
    }
    if stream.no_more {
        // the data ended without a marker
        return None;
    }
    let ghost bytes = old(reader).bytes();
    let ghost target = scan_marker(bytes, old(reader).pos());
    loop
        invariant
            reader.wf(),
            reader.bytes() == old(reader).bytes(),
            bytes == old(reader).bytes(),
            old(reader).pos() <= reader.pos(),
            stream.wf(),
            stream.marker is None,
            *stream == *old(stream),
            old(stream).marker is None,
            !old(stream).ended(),
            target == scan_marker(bytes, old(reader).pos()),
            scan_marker(bytes, reader.pos()) == target,
        decreases reader.remaining(),
    {
        let ghost rem0 = reader.remaining();
        let ghost p0 = reader.pos();
        let byte = match reader.next_byte() {
            Some(b) => b,
            None => {
                return None;
            },
        };
        if byte == 0xFF {
            proof {
                lemma_skip_fill_bounds(bytes, p0 + 1);
            }
            let mut r = match reader.next_byte() {
                Some(b) => b,
                None => {
                    assert(skip_fill(bytes, p0 + 1) == p0 + 1);
                    return None;
                },
            };
            while r == 0xFF
                invariant
                    reader.wf(),
                    reader.bytes() == old(reader).bytes(),
                    bytes == old(reader).bytes(),
                    old(reader).pos() <= reader.pos(),
                    reader.remaining() < rem0,
                    p0 + 2 <= reader.pos(),
                    0 <= p0 < bytes.len(),
                    bytes[p0] == 0xFF,
                    target == scan_marker(bytes, old(reader).pos()),
                    scan_marker(bytes, p0) == target,
                    r == bytes[reader.pos() - 1],
                    skip_fill(bytes, p0 + 1) == skip_fill(bytes, reader.pos() - 1),
                    stream.wf(),
                    stream.marker is None,
                    *stream == *old(stream),
                    old(stream).marker is None,
                    !old(stream).ended(),
                decreases reader.remaining(),
            {
                let ghost pb = reader.pos();
                assert(skip_fill(bytes, pb - 1) == skip_fill(bytes, pb));
                r = match reader.next_byte() {
                    Some(b) => b,
                    None => {
                        assert(skip_fill(bytes, pb) == pb);
                        return None;
                    },
                };
            }
            if r != 0 {
                return Marker::from_u8(r);
            }
        }
    }
}

/// The sub-sampling ratio of largest sampling factors `h` and `v` (one or
/// two each).
pub open spec fn sampling_ratio(h: usize, v: usize) -> SubSampRatios {
    if h == 2 && v == 2 {
        SubSampRatios::HV
    } else if h == 2 {
        SubSampRatios::H
    } else if v == 2 {
        SubSampRatios::V
    } else {
        SubSampRatios::NoSampling
    }
}

/// Largest sampling factors `h` and `v` for which up-sampling routines exist.
pub open spec fn supported_sampling(h: usize, v: usize) -> bool {
    (h == 1 || h == 2) && (v == 1 || v == 2)
}

/// The up-sampling routine of a chrominance component for largest sampling
/// factors `h` and `v` (one or two each).
pub open spec fn chroma_upsampler(h: usize, v: usize) -> UpSampler {
    if h == 2 && v == 2 {
        UpSampler::HorizontalVertical
    } else if h == 2 {
        UpSampler::Horizontal
    } else if v == 2 {
        UpSampler::Vertical
    } else {
        UpSampler::NoOp
    }
}

impl Decoder {
    /// Whether the components `0..n` have defined DC and AC tables.
    pub open spec fn tables_present(&self, n: int) -> bool {
        &&& n <= self.components@.len()
        &&& forall|i: int|
            0 <= i < n ==> {
                &&& #[trigger] self.components@[i].dc_huff_table < MAX_COMPONENTS
                &&& self.dc_huffman_tables@[self.components@[i].dc_huff_table as int] is Some
                &&& self.components@[i].ac_huff_table < MAX_COMPONENTS
                &&& self.ac_huffman_tables@[self.components@[i].ac_huff_table as int] is Some
            }
    }

    /// Check for existence of DC and AC Huffman Tables of the components the
    /// input colour space has.
    pub fn check_tables(&self) -> (res: Result<(), DecodeErrors>)
        requires
            self.wf(),
        ensures
            res is Ok <==> self.tables_present(spec_num_components(self.input_colorspace) as int),
            res matches Err(e) ==> e is HuffmanDecode,
    {
        let n = self.input_colorspace.num_components();
        if n > self.components.len() {
            return Err(DecodeErrors::HuffmanDecode(message("Fewer components than the colour space has")));
        }
        let mut i: usize = 0;
        while i < n
            invariant
                self.wf(),
                n == spec_num_components(self.input_colorspace),
                n <= self.components@.len(),
                i <= n,
                self.tables_present(i as int),
            decreases n - i,
        {
            let c = self.components[i];
            if get_table(&self.dc_huffman_tables, c.dc_huff_table).is_none() {
                return Err(
                    DecodeErrors::HuffmanDecode(
                        message_with_number("No Huffman DC table for component ", c.id as u64),
                    ),
                );
            }
            if get_table(&self.ac_huffman_tables, c.ac_huff_table).is_none() {
                return Err(
                    DecodeErrors::HuffmanDecode(
                        message_with_number("No Huffman AC table for component ", c.id as u64),
                    ),
                );
            }
            i += 1;
        }
        Ok(())
    }

    /// Set up-sampling routines in case an image is down sampled: the
    /// chrominance components get the routine that brings them to the size
    /// of the luminance. Only sampling factors up to two are supported.
    pub fn set_upsampling(&mut self) -> (res: Result<(), DecodeErrors>)
        requires
            old(self).wf(),
        ensures
            final(self).wf(),
            res is Ok <==> ((old(self).h_max == 1 || old(self).h_max == 2) && (old(self).v_max == 1
                || old(self).v_max == 2)),
            res matches Err(e) ==> (e matches DecodeErrors::Format(m) && m@
                == "Unknown down-sampling method, cannot continue"@),
            final(self).h_max == old(self).h_max && final(self).v_max == old(self).v_max,
            final(self).components@.len() == old(self).components@.len(),
            final(self).info == old(self).info,
            final(self).options == old(self).options,
            final(self).input_colorspace == old(self).input_colorspace,
            final(self).is_progressive == old(self).is_progressive,
            final(self).todo == old(self).todo,
            res is Err || (old(self).h_max == 1 && old(self).v_max == 1) ==> *final(self) == *old(self),
            res is Ok && !(old(self).h_max == 1 && old(self).v_max == 1) ==> {
                &&& final(self).sub_sample_ratio == sampling_ratio(old(self).h_max, old(self).v_max)
                &&& final(self).components@.len() > 0 ==> final(self).components@[0] == old(self).components@[0]
                &&& forall|i: int|
                    1 <= i < final(self).components@.len() ==> #[trigger] final(self).components@[i].up_sampler
                        == chroma_upsampler(old(self).h_max, old(self).v_max)
            },
            *final(self) == (Decoder {
                components: final(self).components,
                sub_sample_ratio: final(self).sub_sample_ratio,
                ..*old(self)
            }),
            forall|i: int|
                0 <= i < old(self).components@.len() ==> #[trigger] final(self).components@[i] == (
                Components { up_sampler: final(self).components@[i].up_sampler, ..old(self).components@[i] }),
    {
        // no sampling, return early
        if self.h_max == 1 && self.v_max == 1 {
            return Ok(());
        }
        let (ratio, up_sampler) = if self.h_max == 2 && self.v_max == 1 {
            // horizontal sub-sampling
            (SubSampRatios::H, choose_horizontal_samp_function_for())
        } else if self.h_max == 1 && self.v_max == 2 {
            // Vertical sub-sampling
            (SubSampRatios::V, UpSampler::Vertical)
        } else if self.h_max == 2 && self.v_max == 2 {
            // vertical and horizontal sub sampling
            (SubSampRatios::HV, UpSampler::HorizontalVertical)
        } else {
            return Err(DecodeErrors::Format(message("Unknown down-sampling method, cannot continue")));
        };
        self.sub_sample_ratio = ratio;
        let mut i: usize = 1;
        while i < self.components.len()
            invariant
                self.wf(),
                1 <= i <= self.components@.len() + 1,
                self.h_max == old(self).h_max && self.v_max == old(self).v_max,
                self.components@.len() == old(self).components@.len(),
                self.info == old(self).info,
                self.options == old(self).options,
                self.input_colorspace == old(self).input_colorspace,
                self.is_progressive == old(self).is_progressive,
                self.todo == old(self).todo,
                self.sub_sample_ratio == sampling_ratio(old(self).h_max, old(self).v_max),
                up_sampler == chroma_upsampler(old(self).h_max, old(self).v_max),
                self.components@.len() > 0 ==> self.components@[0] == old(self).components@[0],
                forall|k: int| 1 <= k < i && k < self.components@.len() ==> #[trigger] self.components@[k].up_sampler == up_sampler,
                *self == (Decoder {
                    components: self.components,
                    sub_sample_ratio: self.sub_sample_ratio,
                    ..*old(self)
                }),
                forall|k: int|
                    0 <= k < old(self).components@.len() ==> #[trigger] self.components@[k] == (
                    Components { up_sampler: self.components@[k].up_sampler, ..old(self).components@[k] }),
            decreases self.components@.len() - i,
        {
            let mut c = self.components[i];
            assert(c.wf());
            c.up_sampler = up_sampler;
            assert(c.wf());
            let ghost before = self.components@;
            self.components.set(i, c);
            assert forall|k: int| 0 <= k < self.components@.len() implies #[trigger] self.components@[k].wf() by {
                if k != i {
                    assert(self.components@[k] == before[k]);
                }
            }
            assert forall|k: int| 0 <= k < old(self).components@.len() implies #[trigger] self.components@[k]
                == (Components { up_sampler: self.components@[k].up_sampler, ..old(self).components@[k] }) by {
                if k != i {
                    assert(self.components@[k] == before[k]);
                }
            }
            i += 1;
        }
        Ok(())
    }

    /// Check that the chrominance components are not sub-sampled themselves
    /// and have the row stride that the luminance's implies, before decoding.
    /// The dimensions of the components agree: `y` is the first luminance
    /// component, and every other component has sampling factors of one and
    /// a width stride of the luminance's divided by the largest horizontal
    /// sampling factor.
    pub open spec fn dimensions_agree(&self, y: int) -> bool {
        &&& 0 <= y < self.components@.len()
        &&& self.components@[y].component_id == ComponentID::Y
        &&& forall|j: int| 0 <= j < y ==> #[trigger] self.components@[j].component_id != ComponentID::Y
        &&& forall|i: int|
            0 <= i < self.components@.len() && #[trigger] self.components@[i].component_id
                != ComponentID::Y ==> {
                &&& self.components@[i].width_stride == self.components@[y].width_stride / self.h_max
                &&& self.components@[i].horizontal_sample == 1
                &&& self.components@[i].vertical_sample == 1
            }
    }

    /// `y` is the first luminance component.
    pub open spec fn first_y(&self, y: int) -> bool {
        &&& 0 <= y < self.components@.len()
        &&& self.components@[y].component_id == ComponentID::Y
        &&& forall|j: int| 0 <= j < y ==> #[trigger] self.components@[j].component_id != ComponentID::Y
    }

    /// Component `i`, not a luminance one, has a row stride other than `cw`
    /// or is sub-sampled, and every such component before it agrees.
    pub open spec fn first_mismatch(&self, i: int, cw: int) -> bool {
        &&& 0 <= i < self.components@.len()
        &&& self.components@[i].component_id != ComponentID::Y
        &&& !component_fits(self.components@[i], cw)
        &&& forall|k: int|
            0 <= k < i && #[trigger] self.components@[k].component_id != ComponentID::Y ==> component_fits(
                self.components@[k],
                cw,
            )
    }

    pub fn check_component_dimensions(&self) -> (res: Result<(), DecodeErrors>)
        requires
            self.h_max >= 1,
        ensures
            forall|y: int|
                #[trigger] self.first_y(y) && res is Err ==> exists|i: int|
                    #[trigger] self.first_mismatch(i, (self.components@[y].width_stride / self.h_max) as int) && (res matches Err(
                        DecodeErrors::Format(s),
                    ) && s@ == dimension_message(
                        self.components@[i],
                        (self.components@[y].width_stride / self.h_max) as int,
                    )),
            res is Ok <==> exists|y: int| self.dimensions_agree(y),
            (forall|y: int|
                0 <= y < self.components@.len() ==> #[trigger] self.components@[y].component_id
                    != ComponentID::Y) ==> res == Err::<(), DecodeErrors>(
                DecodeErrors::FormatStatic("Could not find Y component for the image"),
            ),
            res is Ok ==> exists|y: int|
                0 <= y < self.components@.len() && #[trigger] self.components@[y].component_id
                    == ComponentID::Y,
            res is Ok ==> forall|i: int|
                0 <= i < self.components@.len() && #[trigger] self.components@[i].component_id
                    != ComponentID::Y ==> self.components@[i].horizontal_sample == 1
                    && self.components@[i].vertical_sample == 1,
            res matches Err(e) ==> (e is Format || e is FormatStatic),
    {
        // find y component
        let mut yi: usize = 0;
        while yi < self.components.len() && self.components[yi].component_id != ComponentID::Y
            invariant
                yi <= self.components@.len(),
                forall|k: int| 0 <= k < yi ==> #[trigger] self.components@[k].component_id != ComponentID::Y,
            decreases self.components@.len() - yi,
        {
            yi += 1;
        }
        if yi == self.components.len() {
            return Err(DecodeErrors::FormatStatic("Could not find Y component for the image"));
        }
        let y_width = self.components[yi].width_stride;
        let cb_cr_width = y_width / self.h_max;
        let mut i: usize = 0;
        while i < self.components.len()
            invariant
                yi < self.components@.len(),
                self.components@[yi as int].component_id == ComponentID::Y,
                i <= self.components@.len(),
                forall|k: int|
                    0 <= k < i && #[trigger] self.components@[k].component_id != ComponentID::Y
                        ==> self.components@[k].horizontal_sample == 1
                        && self.components@[k].vertical_sample == 1
                        && self.components@[k].width_stride == cb_cr_width,
                forall|k: int| 0 <= k < yi ==> #[trigger] self.components@[k].component_id != ComponentID::Y,
                cb_cr_width == self.components@[yi as int].width_stride / self.h_max,
                self.h_max >= 1,
            decreases self.components@.len() - i,
        {
            let comp = self.components[i];
            proof {
                if comp.component_id != ComponentID::Y && (comp.width_stride != cb_cr_width
                    || comp.horizontal_sample != 1 || comp.vertical_sample != 1) {
                    assert forall|y: int| !self.dimensions_agree(y) by {
                        if self.dimensions_agree(y) {
                            if y < yi {
                                assert(self.components@[y].component_id != ComponentID::Y);
                            } else if y > yi {
                                assert(self.components@[yi as int].component_id != ComponentID::Y);
                            }
                            assert(self.components@[i as int].component_id != ComponentID::Y);
                        }
                    }
                }
            }
            proof {
                if comp.component_id != ComponentID::Y && !component_fits(comp, cb_cr_width as int) {
                    assert(self.first_mismatch(i as int, cb_cr_width as int));
                    assert forall|y: int| #[trigger] self.first_y(y) implies y == yi by {
                        if y < yi {
                            assert(self.components@[y].component_id != ComponentID::Y);
                        } else if y > yi {
                            assert(self.components@[yi as int].component_id != ComponentID::Y);
                        }
                    }
                }
            }
            if comp.component_id != ComponentID::Y {
                if comp.width_stride != cb_cr_width {
                    return Err(
                        DecodeErrors::Format(
                            message_with_number(
                                "Invalid image width and height stride for component ",
                                comp.id as u64,
                            ),
                        ),
                    );
                }
                if comp.horizontal_sample != 1 || comp.vertical_sample != 1 {
                    return Err(
                        DecodeErrors::Format(
                            message_with_number(
                                "Invalid component sample for component, expected (1,1): ",
                                comp.id as u64,
                            ),
                        ),
                    );
                }
            }
            i += 1;
        }
        assert(self.dimensions_agree(yi as int));
        Ok(())
    }
}

/// A component has the row stride `cw` and is not sub-sampled.
pub open spec fn component_fits(c: Components, cw: int) -> bool {
    &&& c.width_stride == cw
    &&& c.horizontal_sample == 1
    &&& c.vertical_sample == 1
}

/// The message for a chrominance component that does not fit the row stride
/// `cw` or is sub-sampled.
pub open spec fn dimension_message(c: Components, cw: int) -> Seq<char> {
    if c.width_stride != cw {
        "Invalid image width and height stride for component "@ + spec_decimal(c.id as nat)
    } else {
        "Invalid component sample for component, expected (1,1): "@ + spec_decimal(c.id as nat)
    }
}

/// The horizontal routine for this platform.
fn choose_horizontal_samp_function_for() -> (s: UpSampler)
    ensures
        s == UpSampler::Horizontal,
{
    crate::upsampler::choose_horizontal_samp_function()
}

/// Zero every DC prediction.
fn clear_predictions(preds: &mut Vec<i32>)
    ensures
        final(preds)@.len() == old(preds)@.len(),
        forall|i: int| 0 <= i < final(preds)@.len() ==> #[trigger] final(preds)@[i] == 0,
{
    let mut i: usize = 0;
    while i < preds.len()
        invariant
            i <= preds@.len(),
            preds@.len() == old(preds)@.len(),
            forall|k: int| 0 <= k < i ==> #[trigger] preds@[k] == 0,
        decreases preds@.len() - i,
    {
        preds.set(i, 0);
        i += 1;
    }
}

impl Decoder {
    /// Handle a restart: the count of MCUs to the next restart starts again,
    /// and the marker that ends the interval is found. A restart marker resets
    /// the stream and the DC predictions; the end of the image is kept in the
    /// stream; any other marker is an error.
    pub fn handle_rst(
        &mut self,
        stream: &mut BitStream,
        reader: &mut ByteReader,
        preds: &mut Vec<i32>,
    ) -> (res: Result<(), DecodeErrors>)
        requires
            old(stream).wf(),
            old(reader).wf(),
        ensures
            final(stream).wf(),
            final(reader).wf(),
            final(reader).bytes() == old(reader).bytes(),
            old(reader).pos() <= final(reader).pos(),
            final(stream).successive_high == old(stream).successive_high,
            final(stream).successive_low == old(stream).successive_low,
            final(stream).spec_start == old(stream).spec_start,
            final(stream).spec_end == old(stream).spec_end,
            final(preds)@.len() == old(preds)@.len(),
            *final(self) == (Decoder { todo: old(self).restart_interval, ..*old(self) }),
            res matches Err(e) ==> e is MCUError,
            restart_outcome(*old(stream), *old(reader), *final(stream), old(preds)@, final(preds)@, res is Ok),
    {
        self.todo = self.restart_interval;
        let marker = get_marker(reader, stream);
        match marker {
            Some(Marker::RST(_)) => {
                // reset stream
                stream.reset();
                // Initialize dc predictions to zero for all components
                clear_predictions(preds);
            },
            Some(Marker::EOI) => {
                // silent pass
                stream.marker = Some(Marker::EOI);
                stream.no_more = true;
            },
            Some(_) => {
                return Err(
                    DecodeErrors::MCUError(message("Marker found in bitstream, possibly corrupt jpeg")),
                );
            },
            None => {
                // the data has ended
                stream.no_more = true;
            },
        }
        Ok(())
    }

    /// The number of components decoded for the input colour space: the
    /// luminance alone for grayscale, three otherwise.
    pub open spec fn spec_decoded_components(&self) -> usize {
        if self.input_colorspace == ColorSpace::GRAYSCALE {
            1
        } else {
            3
        }
    }

    /// The components `0..n` have the sampling factors the geometry gives
    /// them.
    pub open spec fn matches_geometry(&self, g: Geometry) -> bool {
        &&& g.ncomp <= self.components@.len()
        &&& components_match(self.components@, g, g.ncomp as int)
    }

    /// Component `k` has the sampling factors of the frame's largest ones
    /// when it is the first component, and of one otherwise.
    pub open spec fn sampled_for_frame(&self, k: int) -> bool {
        let c = self.components@[k];
        &&& c.horizontal_sample == (if k == 0 {
            self.h_max
        } else {
            1
        })
        &&& c.vertical_sample == (if k == 0 {
            self.v_max
        } else {
            1
        })
    }

    /// The frame has a geometry this decoder handles: as many components as
    /// it decodes, the luminance sampled by one or two each way and the other
    /// components by one, and a size within the limits.
    pub open spec fn frame_fits(&self) -> bool {
        &&& self.spec_decoded_components() <= self.components@.len()
        &&& (self.h_max == 1 || self.h_max == 2)
        &&& (self.v_max == 1 || self.v_max == 2)
        &&& self.info.width > 0
        &&& self.info.height > 0
        &&& self.info.height * self.info.width <= MAX_DIMENSIONS
        &&& forall|k: int| 0 <= k < self.spec_decoded_components() ==> #[trigger] self.sampled_for_frame(k)
    }

    /// Work out the planes' geometry from the frame, or fail when the frame
    /// has fewer components than decoded or sampling factors this decoder
    /// does not handle.
    #[verifier::spinoff_prover]
    pub fn frame_geometry(&self) -> (res: Result<Geometry, DecodeErrors>)
        requires
            self.wf(),
        ensures
            res is Ok <==> self.frame_fits(),
            res matches Ok(g) ==> {
                &&& g.wf()
                &&& self.matches_geometry(g)
                &&& g.width == self.info.width
                &&& g.height == self.info.height
                &&& g.h_max == self.h_max
                &&& g.v_max == self.v_max
                &&& g.ncomp == self.spec_decoded_components()
            },
    {
        let ncomp: usize = if self.input_colorspace == ColorSpace::GRAYSCALE {
            1
        } else {
            3
        };
        if self.components.len() < ncomp {
            return Err(DecodeErrors::Format(message("Fewer components than the colour space has")));
        }
        if !((self.h_max == 1 || self.h_max == 2) && (self.v_max == 1 || self.v_max == 2)) {
            return Err(DecodeErrors::Format(message("Unknown down-sampling method, cannot continue")));
        }
        let g = make_geometry(self.info.width, self.info.height, self.h_max, self.v_max, ncomp)?;
        let mut c: usize = 0;
        while c < ncomp
            invariant
                g.wf(),
                g.ncomp == ncomp,
                ncomp == self.spec_decoded_components(),
                g.h_max == self.h_max,
                g.v_max == self.v_max,
                g.width == self.info.width,
                g.height == self.info.height,
                ncomp <= self.components@.len(),
                c <= ncomp,
                components_match(self.components@, g, c as int),
            decreases ncomp - c,
        {
            let comp = self.components[c];
            let (h, v) = if c == 0 {
                (g.h_max, g.v_max)
            } else {
                (1, 1)
            };
            if comp.horizontal_sample != h || comp.vertical_sample != v {
                assert(!self.sampled_for_frame(c as int)) by {
                    assert(self.components@[c as int] == comp);
                }
                return Err(
                    DecodeErrors::Format(
                        message_with_number("Unexpected sampling factors for component ", comp.id as u64),
                    ),
                );
            }
            proof {
                lemma_component_matches_step(self.components@, g, c as int, h as int, v as int);
            }
            c += 1;
        }
        proof {
            assert(self.info.height * self.info.width == g.height * g.width);
            assert(ncomp <= self.components@.len());
            assert(self.info.width > 0 && self.info.height > 0);
            assert(self.info.height * self.info.width <= MAX_DIMENSIONS);
            assert((self.h_max == 1 || self.h_max == 2) && (self.v_max == 1 || self.v_max == 2));
            assert forall|k: int| 0 <= k < ncomp implies #[trigger] self.sampled_for_frame(k) by {
                lemma_match_at(self.components@, g, ncomp as int, k);
            }
        }
        assert(self.frame_fits());
        Ok(g)
    }
}

/// Where a sequential scan stands in its data: the bits it reads, the marker
/// that ends them with the position after it (see `BitStream::pending`), the
/// units left before the next restart, and whether what it decodes is still
/// determined by the data.
pub type ScanContext = (spec_fn(int) -> int, Option<(Marker, int)>, int, bool);

/// Where a sequential scan stands in its output: the position in its bits,
/// the DC predictions and the three coefficient planes.
pub type ScanState = (int, Seq<i32>, Seq<i16>, Seq<i16>, Seq<i16>);

/// A plane with the 64 coefficients of a block written at `offset`.
pub open spec fn with_block(plane: Seq<i16>, offset: int, coeffs: Seq<i16>) -> Seq<i16> {
    plane.subrange(0, offset) + coeffs + plane.subrange(offset + 64, plane.len() as int)
}

/// The tables component `k` of a scan decodes with: DC code counts and
/// symbols, AC code counts and symbols; `None` when one is missing.
pub open spec fn component_tables(d: Decoder, k: int) -> Option<(Seq<u8>, Seq<u8>, Seq<u8>, Seq<u8>)> {
    let c = d.components@[k];
    let dc = d.dc_huffman_tables@[(c.dc_huff_table % 4) as int];
    let ac = d.ac_huffman_tables@[(c.ac_huff_table % 4) as int];
    if dc is Some && ac is Some {
        Some(
            (
                dc.unwrap().spec_counts(),
                dc.unwrap().spec_values(),
                ac.unwrap().spec_counts(),
                ac.unwrap().spec_values(),
            ),
        )
    } else {
        None
    }
}

/// Where a scan stands: the position in its bits, the DC predictions and the
/// three coefficient planes.
pub open spec fn scan_block(
    g: Geometry,
    src: spec_fn(int) -> int,
    st: ScanState,
    k: int,
    t: (Seq<u8>, Seq<u8>, Seq<u8>, Seq<u8>),
    row: int,
    col: int,
) -> ScanState {
    let (coeffs, p, end) = block_decode(src, st.0, st.1[k], t);
    let off = (row * g.bw(k) + col) * 64;
    (
        end,
        st.1.update(k, p),
        if k == 0 && k < g.ncomp {
            with_block(st.2, off, coeffs)
        } else {
            st.2
        },
        if k == 1 && k < g.ncomp {
            with_block(st.3, off, coeffs)
        } else {
            st.3
        },
        if k == 2 && k < g.ncomp {
            with_block(st.4, off, coeffs)
        } else {
            st.4
        },
    )
}

/// The count of units (blocks of a one-component scan, MCUs of an
/// interleaved one) left before the next restart once one more is decoded:
/// it counts down and wraps past zero as the decoder's counter does.
pub open spec fn count_after(left: int) -> int {
    if left == 0 {
        usize::MAX as int
    } else {
        left - 1
    }
}

/// The marker that ends a segment is a restart marker.
pub open spec fn restarts_at(stop: Option<(Marker, int)>) -> bool {
    match stop {
        Some((Marker::RST(_), _)) => true,
        _ => false,
    }
}

/// What the end of a unit does to a scan with restart interval `ri`, where
/// `more` units are still to come. The scan's context is the bits it reads,
/// the marker that ends them (see `BitStream::pending`), the units left
/// before the next restart and whether what the scan decodes is still
/// determined by the data. When the count reaches zero, the marker is read:
/// a restart marker starts new bits after it, with the count at `ri` and
/// zero predictions; the end of the image, or no marker, ends the data, which
/// leaves the units still to come undetermined; any other marker is an
/// error.
pub open spec fn unit_end(
    bytes: Seq<u8>,
    ri: int,
    more: bool,
    ctx: ScanContext,
    st: ScanState,
) -> Option<(ScanContext, ScanState)> {
    let left = count_after(ctx.2);
    if left != 0 {
        Some(((ctx.0, ctx.1, left, ctx.3), st))
    } else {
        match ctx.1 {
            Some((Marker::RST(_), q)) => Some(
                (
                    (segment_bits_at(bytes, q), stop_at(bytes, q), ri, ctx.3),
                    (0, Seq::new(st.1.len(), |i: int| 0i32), st.2, st.3, st.4),
                ),
            ),
            Some((Marker::EOI, _)) => Some(((ctx.0, ctx.1, ri, ctx.3 && !more), st)),
            None => Some(((ctx.0, ctx.1, ri, ctx.3 && !more), st)),
            Some(_) => None,
        }
    }
}

/// The blocks `n..` of a scan of one component `k`, `bw` blocks across and
/// `bh` down, in rows, from the context `ctx` (see `unit_end`) and the state
/// `st`, with restart interval `ri`; `None` when a restart fails.
pub open spec fn single_run(
    g: Geometry,
    bytes: Seq<u8>,
    ri: int,
    k: int,
    t: (Seq<u8>, Seq<u8>, Seq<u8>, Seq<u8>),
    bw: int,
    bh: int,
    n: int,
    ctx: ScanContext,
    st: ScanState,
) -> Option<(ScanContext, ScanState)>
    decreases bw * bh - n,
{
    if n >= bw * bh || n < 0 || bw <= 0 || !ctx.3 {
        Some((ctx, st))
    } else {
        match unit_end(bytes, ri, n + 1 < bw * bh, ctx, scan_block(g, ctx.0, st, k, t, n / bw, n % bw)) {
            None => None,
            Some((c2, s2)) => single_run(g, bytes, ri, k, t, bw, bh, n + 1, c2, s2),
        }
    }
}

/// The blocks of the MCU at row `i`, column `j` of an interleaved scan, from
/// block `(vs, hs)` of its `s`-th component on: each component of the scan
/// in turn, its blocks in rows of its sampling factors.
pub open spec fn mcu_blocks(
    d: Decoder,
    g: Geometry,
    src: spec_fn(int) -> int,
    st: ScanState,
    i: int,
    j: int,
    s: int,
    vs: int,
    hs: int,
) -> Option<ScanState>
    decreases 4 - s, 9 - vs, 9 - hs,
{
    if s >= d.num_scans || s >= 4 || s < 0 {
        Some(st)
    } else {
        let k = d.z_order[s] as int;
        let c = d.components@[k];
        match component_tables(d, k) {
            None => None,
            Some(t) => if vs >= c.vertical_sample || vs >= 8 || vs < 0 {
                mcu_blocks(d, g, src, st, i, j, s + 1, 0, 0)
            } else if hs >= c.horizontal_sample || hs >= 8 || hs < 0 {
                mcu_blocks(d, g, src, st, i, j, s, vs + 1, 0)
            } else {
                mcu_blocks(
                    d,
                    g,
                    src,
                    scan_block(
                        g,
                        src,
                        st,
                        k,
                        t,
                        i * c.vertical_sample + vs,
                        j * c.horizontal_sample + hs,
                    ),
                    i,
                    j,
                    s,
                    vs,
                    hs + 1,
                )
            },
        }
    }
}

/// The MCUs `m..` of an interleaved scan, in rows of `mcu_x`, from the
/// context `ctx` (see `unit_end`) and the state `st`; `None` when a
/// component's tables are missing or a restart fails.
pub open spec fn mcus_run(
    d: Decoder,
    g: Geometry,
    bytes: Seq<u8>,
    m: int,
    ctx: ScanContext,
    st: ScanState,
) -> Option<(ScanContext, ScanState)>
    decreases g.mcu_x * g.mcu_y - m,
{
    if m >= g.mcu_x * g.mcu_y || m < 0 || g.mcu_x == 0 || !ctx.3 {
        Some((ctx, st))
    } else {
        match mcu_blocks(d, g, ctx.0, st, m / g.mcu_x as int, m % g.mcu_x as int, 0, 0, 0) {
            None => None,
            Some(s1) => match unit_end(
                bytes,
                d.restart_interval as int,
                m + 1 < g.mcu_x * g.mcu_y,
                ctx,
                s1,
            ) {
                None => None,
                Some((c2, s2)) => mcus_run(d, g, bytes, m + 1, c2, s2),
            },
        }
    }
}

/// Blocks across (`bw`) and down (`bh`) that a scan of the one component `k`
/// holds: those that cover the component's samples of the image.
pub open spec fn single_extent(d: Decoder, g: Geometry, k: int) -> (int, int) {
    let c = d.components@[k];
    let comp_w = (g.width * c.horizontal_sample + g.h_max - 1) / g.h_max as int;
    let comp_h = (g.height * c.vertical_sample + g.v_max - 1) / g.v_max as int;
    (
        if (comp_w + 7) / 8 < g.bw(k) {
            (comp_w + 7) / 8
        } else {
            g.bw(k)
        },
        if (comp_h + 7) / 8 < g.bh(k) {
            (comp_h + 7) / 8
        } else {
            g.bh(k)
        },
    )
}

/// What decoding a sequential scan of the decoder `d` makes of `bytes` from
/// the context `ctx` and the state `st`: the scan's one component block by
/// block, or its MCUs, a restart after every `restart_interval` of them;
/// `None` when a component's tables are missing or a restart fails.
pub open spec fn scan_run(
    d: Decoder,
    g: Geometry,
    bytes: Seq<u8>,
    ctx: ScanContext,
    st: ScanState,
) -> Option<(ScanContext, ScanState)> {
    if d.num_scans == 1 {
        let k = d.z_order[0] as int;
        if k < g.ncomp {
            match component_tables(d, k) {
                None => None,
                Some(t) => {
                    let (bw, bh) = single_extent(d, g, k);
                    single_run(g, bytes, d.restart_interval as int, k, t, bw, bh, 0, ctx, st)
                },
            }
        } else {
            Some((ctx, st))
        }
    } else {
        mcus_run(d, g, bytes, 0, ctx, st)
    }
}

/// The state a sequential scan starts from: no bits read, zero predictions
/// and zero planes for the decoded components.
pub open spec fn scan_start(d: Decoder, g: Geometry) -> ScanState {
    (
        0,
        Seq::new(d.components@.len(), |i: int| 0i32),
        Seq::new(g.plane_len(0) as nat, |i: int| 0i16),
        if g.ncomp == 3 {
            Seq::new(g.plane_len(1) as nat, |i: int| 0i16)
        } else {
            Seq::empty()
        },
        if g.ncomp == 3 {
            Seq::new(g.plane_len(2) as nat, |i: int| 0i16)
        } else {
            Seq::empty()
        },
    )
}

/// The context a sequential scan of the decoder `d` starts from when its
/// data starts at `pos` of `bytes`: the bits of the segment there, the
/// marker that ends it, the decoder's count to the first restart;
/// determined.
pub open spec fn scan_context(d: Decoder, bytes: Seq<u8>, pos: int) -> ScanContext {
    (segment_bits_at(bytes, pos), stop_at(bytes, pos), d.todo as int, true)
}

/// `g` is the layout of the decoder's image: its size, sampling factors and
/// decoded components.
pub open spec fn frame_layout(d: Decoder, g: Geometry) -> bool {
    &&& g.wf()
    &&& g.width == d.info.width
    &&& g.height == d.info.height
    &&& g.h_max == d.h_max
    &&& g.v_max == d.v_max
    &&& g.ncomp == d.spec_decoded_components()
}

/// The layout of the decoder's image (see `frame_layout`).
pub open spec fn frame_geom(d: Decoder) -> Geometry {
    Geometry {
        width: d.info.width as usize,
        height: d.info.height as usize,
        h_max: d.h_max,
        v_max: d.v_max,
        mcu_x: ceil_div(d.info.width as int, 8 * d.h_max) as usize,
        mcu_y: ceil_div(d.info.height as int, 8 * d.v_max) as usize,
        ncomp: d.spec_decoded_components(),
    }
}

/// A decoder's image has one layout.
pub proof fn lemma_frame_layout_unique(d: Decoder, g: Geometry)
    requires
        frame_layout(d, g),
    ensures
        g == frame_geom(d),
{
}

/// `v` is the image that the sequential scan whose data starts at `pos` of
/// `bytes` decodes to with the decoder's tables, for its image size, sampling
/// factors and colour spaces: the coefficient planes that decoding the scan
/// gives, post processed.
pub open spec fn is_scanned_image(d: Decoder, bytes: Seq<u8>, pos: int, v: Seq<u8>) -> bool {
    exists|g: Geometry|
        {
            &&& frame_layout(d, g)
            &&& #[trigger] scan_run(d, g, bytes, scan_context(d, bytes, pos), scan_start(d, g)) matches Some(
                (c, st),
            )
            &&& c.3
            &&& decoded_pixels(
                g,
                st.2,
                st.3,
                st.4,
                spec_qt(d, 0),
                spec_qt(d, 1),
                spec_qt(d, 2),
                d.input_colorspace,
                d.options.out_colorspace,
            ) == v
        }
}

/// The sequential scan whose data starts at `pos` of `bytes` meets the end
/// of the image, or of the data, at a restart before its last unit: the
/// units after it are not determined by the data.
pub open spec fn is_open_scan(d: Decoder, bytes: Seq<u8>, pos: int) -> bool {
    exists|g: Geometry|
        {
            &&& frame_layout(d, g)
            &&& #[trigger] scan_run(d, g, bytes, scan_context(d, bytes, pos), scan_start(d, g)) matches Some(
                (c, st),
            )
            &&& !c.3
        }
}

/// `v` is what the sequential scan whose data starts at `pos` of `bytes`
/// decodes to, as far as the data determines it: the image it decodes to,
/// unless the scan is open (see `is_open_scan`).
pub open spec fn is_scan_outcome(d: Decoder, bytes: Seq<u8>, pos: int, v: Seq<u8>) -> bool {
    is_scanned_image(d, bytes, pos, v) || is_open_scan(d, bytes, pos)
}

/// The sequential scan whose data starts at `pos` of `bytes` decodes
/// without error, and what it decodes is determined by the data, in the
/// layout of the decoder's frame.
pub open spec fn is_known_scan(d: Decoder, bytes: Seq<u8>, pos: int) -> bool {
    forall|g: Geometry|
        #[trigger] frame_layout(d, g) ==> (scan_run(d, g, bytes, scan_context(d, bytes, pos), scan_start(d, g)) matches Some(
            (c, st),
        ) && c.3)
}

/// The checks a sequential or progressive decoder makes of the decoder
/// before it decodes: the components' dimensions agree, and an interleaved
/// image has sampling factors of one or two.
pub open spec fn prepared_ok(d: Decoder) -> bool {
    &&& exists|y: int| d.dimensions_agree(y)
    &&& d.interleaved ==> (d.h_max == 1 || d.h_max == 2) && (d.v_max == 1 || d.v_max == 2)
}

/// The stream `(s, r)` reads the bits of the context `ctx` from the base
/// `(sb, rb)`, `at` of them read, and the marker that ends them is the
/// context's.
pub open spec fn reads_context(
    ctx: ScanContext,
    sb: BitStream,
    rb: ByteReader,
    s: BitStream,
    r: ByteReader,
    at: int,
) -> bool {
    &&& ctx.0 == sb.ahead(rb)
    &&& advanced(sb, rb, s, r, at)
    &&& s.pending(r) == ctx.1
}

/// The components `0..c` have the sampling factors the geometry gives them.
pub open spec fn components_match(comps: Seq<Components>, g: Geometry, c: int) -> bool {
    forall|k: int|
        0 <= k < c ==> #[trigger] comps[k].horizontal_sample == g.samp_h(k)
            && comps[k].vertical_sample == g.samp_v(k)
}

/// A component that matches the geometry has its sampling factors.
#[verifier::spinoff_prover]
pub proof fn lemma_match_at(comps: Seq<Components>, g: Geometry, n: int, k: int)
    requires
        components_match(comps, g, n),
        0 <= k < n,
    ensures
        comps[k].horizontal_sample == g.samp_h(k),
        comps[k].vertical_sample == g.samp_v(k),
{
    assert(components_match(comps, g, n));
    let c = comps[k];
    assert(c.horizontal_sample == g.samp_h(k));
    assert(c.vertical_sample == g.samp_v(k));
}

proof fn lemma_component_matches_step(comps: Seq<Components>, g: Geometry, c: int, h: int, v: int)
    requires
        components_match(comps, g, c),
        0 <= c < comps.len(),
        h == g.samp_h(c),
        v == g.samp_v(c),
        comps[c].horizontal_sample == h,
        comps[c].vertical_sample == v,
    ensures
        components_match(comps, g, c + 1),
{
    assert forall|k: int| 0 <= k < c + 1 implies #[trigger] comps[k].horizontal_sample == g.samp_h(k)
        && comps[k].vertical_sample == g.samp_v(k) by {
        if k < c {
            lemma_match_at(comps, g, c, k);
        }
    }
}

/// Store a decoded block of component `k` at `offset` of its plane, if the
/// component is decoded.
pub(crate) fn store_component_block(
    p0: &mut Vec<i16>,
    p1: &mut Vec<i16>,
    p2: &mut Vec<i16>,
    k: usize,
    offset: usize,
    block: &[i16; 64],
)
    requires
        k == 0 ==> offset + 64 <= old(p0)@.len(),
        k == 1 ==> offset + 64 <= old(p1)@.len(),
        k == 2 ==> offset + 64 <= old(p2)@.len(),
    ensures
        final(p0)@.len() == old(p0)@.len(),
        final(p1)@.len() == old(p1)@.len(),
        final(p2)@.len() == old(p2)@.len(),
        final(p0)@ == if k == 0 {
            with_block(old(p0)@, offset as int, block@)
        } else {
            old(p0)@
        },
        final(p1)@ == if k == 1 {
            with_block(old(p1)@, offset as int, block@)
        } else {
            old(p1)@
        },
        final(p2)@ == if k == 2 {
            with_block(old(p2)@, offset as int, block@)
        } else {
            old(p2)@
        },
{
    if k == 0 {
        store_block(p0, offset, block);
    } else if k == 1 {
        store_block(p1, offset, block);
    } else if k == 2 {
        store_block(p2, offset, block);
    }
}

/// The length of the plane of component `k`, if it is decoded.
pub open spec fn plane_of(g: Geometry, k: int, p0: Seq<i16>, p1: Seq<i16>, p2: Seq<i16>) -> bool {
    &&& p0.len() == g.plane_len(0)
    &&& (g.ncomp == 3 ==> p1.len() == g.plane_len(1) && p2.len() == g.plane_len(2))
}

/// Find the marker that ends a restart interval: a restart marker resets the
/// stream and the DC predictions; the end of the image is kept in the stream;
/// any other marker is an error.
pub fn restart(stream: &mut BitStream, reader: &mut ByteReader, preds: &mut Vec<i32>) -> (res: Result<
    (),
    DecodeErrors,
>)
    requires
        old(stream).wf(),
        old(reader).wf(),
    ensures
        final(stream).wf(),
        final(reader).wf(),
        final(reader).bytes() == old(reader).bytes(),
        old(reader).pos() <= final(reader).pos(),
        final(stream).successive_high == old(stream).successive_high,
        final(stream).successive_low == old(stream).successive_low,
        final(stream).spec_start == old(stream).spec_start,
        final(stream).spec_end == old(stream).spec_end,
        final(preds)@.len() == old(preds)@.len(),
        res matches Err(e) ==> e is MCUError,
        restart_outcome(*old(stream), *old(reader), *final(stream), old(preds)@, final(preds)@, res is Ok),
        old(stream).pending(*old(reader)) matches Some((mk, q)) ==> final(reader).pos() == q,
{
    let marker = get_marker(reader, stream);
    match marker {
        Some(Marker::RST(_)) => {
            // reset stream
            stream.reset();
            // Initialize dc predictions to zero for all components
            clear_predictions(preds);
        },
        Some(Marker::EOI) => {
            // silent pass
            stream.marker = Some(Marker::EOI);
            stream.no_more = true;
        },
        Some(_) => {
            return Err(
                DecodeErrors::MCUError(message("Marker found in bitstream, possibly corrupt jpeg")),
            );
        },
        None => {
            // the data has ended
            stream.no_more = true;
        },
    }
    Ok(())
}

impl Decoder {
    /// Count a decoded unit down from `left`; when the count reaches zero,
    /// read the marker that ends the interval (see `restart`) and start the
    /// count again at the restart interval. Returns the new count. The scan
    /// stands at `ctx` and `st` (see `unit_end`), its stream reading from the
    /// base `(sb, rb)`, `more` units still to come.
    pub(crate) fn end_unit(
        &self,
        reader: &mut ByteReader,
        stream: &mut BitStream,
        preds: &mut Vec<i32>,
        left: usize,
        Ghost(ctx): Ghost<ScanContext>,
        Ghost(st): Ghost<ScanState>,
        Ghost(more): Ghost<bool>,
        Ghost(sb): Ghost<BitStream>,
        Ghost(rb): Ghost<ByteReader>,
    ) -> (res: Result<usize, DecodeErrors>)
        requires
            old(stream).wf(),
            old(reader).wf(),
            ctx.3 ==> reads_context(ctx, sb, rb, *old(stream), *old(reader), st.0),
            ctx.3 ==> ctx.2 == left && st.1 == old(preds)@ && st.0 >= 0,
        ensures
            final(stream).wf(),
            final(reader).wf(),
            final(reader).bytes() == old(reader).bytes(),
            old(reader).pos() <= final(reader).pos(),
            final(stream).successive_high == old(stream).successive_high,
            final(stream).successive_low == old(stream).successive_low,
            final(stream).spec_start == old(stream).spec_start,
            final(stream).spec_end == old(stream).spec_end,
            final(preds)@.len() == old(preds)@.len(),
            res matches Err(e) ==> e is MCUError,
            ctx.3 && count_after(ctx.2) == 0 && restarts_at(ctx.1) ==> final(stream).eob_run == 0,
            ctx.3 && res is Ok && !(count_after(ctx.2) == 0 && restarts_at(ctx.1)) ==> final(stream).eob_run
                == old(stream).eob_run,
            count_after(left as int) != 0 ==> res == Ok::<usize, DecodeErrors>(count_after(left as int) as usize)
                && *final(stream) == *old(stream) && *final(reader) == *old(reader) && final(preds)@
                == old(preds)@,
            ctx.3 ==> match unit_end(old(reader).bytes(), self.restart_interval as int, more, ctx, st) {
                None => res is Err,
                Some((c2, s2)) => {
                    &&& res matches Ok(l) && l == c2.2
                    &&& final(preds)@ == s2.1
                    &&& final(stream).pending(*final(reader)) == c2.1
                    &&& s2.0 >= 0
                    &&& (c2.3 && more ==> if count_after(ctx.2) == 0 {
                        reads_context(c2, *final(stream), *final(reader), *final(stream), *final(reader), s2.0)
                    } else {
                        reads_context(c2, sb, rb, *final(stream), *final(reader), s2.0)
                    })
                },
            },
    {
        let ghost bytes = old(reader).bytes();
        let l = left.wrapping_sub(1);
        assert(l as int == count_after(left as int));
        if l != 0 {
            assert(ctx.3 ==> unit_end(bytes, self.restart_interval as int, more, ctx, st) == Some(
                ((ctx.0, ctx.1, l as int, ctx.3), st),
            ));
            return Ok(l);
        }
        let ghost s0 = *stream;
        let ghost r0 = *reader;
        let ghost next = unit_end(bytes, self.restart_interval as int, more, ctx, st);
        let restarted = restart(stream, reader, preds);
        proof {
            if ctx.3 {
                assert(ctx.1 == s0.pending(r0));
                match s0.pending(r0) {
                    Some((m, q)) => {
                        assert(interval_marker(s0, r0) == Some(m));
                        match m {
                            Marker::RST(_) => {
                                assert(restarted is Ok);
                                lemma_empty_stream_bits(*stream, *reader);
                                assert(preds@ =~= Seq::new(st.1.len(), |i: int| 0i32));
                                assert(reader.pos() == q);
                                assert(stream.pending(*reader) == stop_at(bytes, q));
                                assert(stream.ahead(*reader) == segment_bits_at(bytes, q));
                                assert(advanced(*stream, *reader, *stream, *reader, 0));
                            },
                            Marker::EOI => {
                                assert(restarted is Ok);
                                assert(preds@ == old(preds)@);
                            },
                            _ => {
                                assert(restarted is Err);
                                assert(next is None);
                            },
                        }
                    },
                    None => {
                        assert(interval_marker(s0, r0) is None);
                        assert(restarted is Ok);
                        assert(preds@ == old(preds)@);
                    },
                }
            }
        }
        match restarted {
            Err(e) => {
                return Err(e);
            },
            Ok(()) => {},
        }
        Ok(self.restart_interval)
    }
}

/// What the scan decoders keep of their arguments.
pub open spec fn scan_step(
    g: Geometry,
    s0: BitStream,
    s1: BitStream,
    r0: ByteReader,
    r1: ByteReader,
    p0: Seq<i16>,
    p1: Seq<i16>,
    p2: Seq<i16>,
    n_preds: int,
    preds: Seq<i32>,
) -> bool {
    &&& s1.wf()
    &&& r1.wf()
    &&& r1.bytes() == r0.bytes()
    &&& r0.pos() <= r1.pos()
    &&& s1.successive_high == s0.successive_high
    &&& s1.successive_low == s0.successive_low
    &&& s1.spec_start == s0.spec_start
    &&& s1.spec_end == s0.spec_end
    &&& plane_of(g, 0, p0, p1, p2)
    &&& preds.len() == n_preds
}

/// The offset of block `(row, col)` of the plane of component `k`.
pub(crate) fn block_offset(g: &Geometry, k: usize, row: usize, col: usize) -> (offset: usize)
    requires
        g.wf(),
        k < 3,
        row < g.bh(k as int),
        col < g.bw(k as int),
    ensures
        offset + 64 <= g.plane_len(k as int),
        offset == (row * g.bw(k as int) + col) * 64,
{
    proof {
        lemma_geometry_bounds(*g, k as int);
        lemma_block_offset(row as int, col as int, g.bw(k as int), g.bh(k as int));
    }
    let bw = if k == 0 {
        g.mcu_x * g.h_max
    } else {
        g.mcu_x
    };
    (row * bw + col) * 64
}

/// The low two bits of a slot number are its remainder by four.
proof fn lemma_low_two_bits(x: usize)
    by (bit_vector)
    ensures
        x & 3 == x % 4,
{
}

/// Block `c` of row `r`, rows of `bw` blocks, is block `r * bw + c`.
pub proof fn lemma_row_col(r: int, c: int, bw: int, bh: int)
    requires
        0 <= r < bh,
        0 <= c < bw,
    ensures
        (r * bw + c) / bw == r,
        (r * bw + c) % bw == c,
        0 <= r * bw + c < bw * bh,
        r * bw + bw == (r + 1) * bw,
{
    vstd::arithmetic::div_mod::lemma_fundamental_div_mod_converse(r * bw + c, bw, r, c);
    assert(r * bw + c < bw * bh) by (nonlinear_arith)
        requires
            0 <= r < bh,
            0 <= c < bw,
    ;
    assert(r * bw >= 0) by (nonlinear_arith)
        requires
            0 <= r,
            0 < bw,
    ;
    assert(r * bw + bw == (r + 1) * bw) by (nonlinear_arith);
}

/// Decode one block of component `k` of a sequential scan with its tables
/// and store it at block row `row`, column `col` of the component's plane
/// when the component is a decoded one; the stream has advanced by `at` from
/// `(s0, r0)`. Returns the position in the bits of `(s0, r0)` after the
/// block.
fn decode_block_into(
    g: &Geometry,
    reader: &mut ByteReader,
    stream: &mut BitStream,
    preds: &mut Vec<i32>,
    p0: &mut Vec<i16>,
    p1: &mut Vec<i16>,
    p2: &mut Vec<i16>,
    k: usize,
    row: usize,
    col: usize,
    dc: &HuffmanTable,
    ac: &HuffmanTable,
    Ghost(s0): Ghost<BitStream>,
    Ghost(r0): Ghost<ByteReader>,
    Ghost(at): Ghost<int>,
) -> (end: Ghost<int>)
    requires
        g.wf(),
        old(stream).wf(),
        old(reader).wf(),
        dc.wf(),
        ac.wf(),
        k < old(preds)@.len(),
        k < g.ncomp ==> k < 3 && row < g.bh(k as int) && col < g.bw(k as int),
        plane_of(*g, 0, old(p0)@, old(p1)@, old(p2)@),
        at >= 0,
        advanced(s0, r0, *old(stream), *old(reader), at),
    ensures
        stream_step(*old(stream), *final(stream), *old(reader), *final(reader)),
        final(stream).eob_run == old(stream).eob_run,
        final(preds)@.len() == old(preds)@.len(),
        plane_of(*g, 0, final(p0)@, final(p1)@, final(p2)@),
        end@ >= at,
        advanced(s0, r0, *final(stream), *final(reader), end@),
        (end@, final(preds)@, final(p0)@, final(p1)@, final(p2)@) == scan_block(
            *g,
            s0.ahead(r0),
            (at, old(preds)@, old(p0)@, old(p1)@, old(p2)@),
            k as int,
            (dc.spec_counts(), dc.spec_values(), ac.spec_counts(), ac.spec_values()),
            row as int,
            col as int,
        ),
{
    let ghost sa = *stream;
    let ghost ra = *reader;
    let ghost t = (dc.spec_counts(), dc.spec_values(), ac.spec_counts(), ac.spec_values());
    let mut block = [0i16; 64];
    assert(block@ =~= Seq::new(64, |i: int| 0i16));
    let mut pred = preds[k];
    stream.decode_mcu_block(reader, dc, ac, &mut block, &mut pred);
    let ghost used = block_decode(sa.ahead(ra), 0, old(preds)@[k as int], t).2;
    proof {
        lemma_advanced_shifted(s0, r0, sa, ra, at);
        lemma_block_decode_shifted(sa.ahead(ra), s0.ahead(r0), at, 0, old(preds)@[k as int], t);
        lemma_advanced_trans(s0, r0, sa, ra, *stream, *reader, at, used);
    }
    preds.set(k, pred);
    if k < g.ncomp {
        proof {
            lemma_geometry_bounds(*g, k as int);
        }
        let offset = block_offset(g, k, row, col);
        store_component_block(p0, p1, p2, k, offset, &block);
    }
    Ghost(at + used)
}

impl Decoder {
    /// Decode the blocks of the MCU at row `i`, column `j` of an interleaved
    /// scan (see `mcu_blocks`); when `track` holds, the stream has advanced by
    /// `at` from `(s0, r0)`. Returns the position in the bits of `(s0, r0)`
    /// after the MCU.
    fn decode_mcu_blocks(
        &self,
        g: &Geometry,
        reader: &mut ByteReader,
        stream: &mut BitStream,
        preds: &mut Vec<i32>,
        p0: &mut Vec<i16>,
        p1: &mut Vec<i16>,
        p2: &mut Vec<i16>,
        i: usize,
        j: usize,
        Ghost(s0): Ghost<BitStream>,
        Ghost(r0): Ghost<ByteReader>,
        Ghost(at): Ghost<int>,
        Ghost(track): Ghost<bool>,
    ) -> (res: Result<Ghost<int>, DecodeErrors>)
        requires
            self.wf(),
            g.wf(),
            self.matches_geometry(*g),
            i < g.mcu_y,
            j < g.mcu_x,
            plane_of(*g, 0, old(p0)@, old(p1)@, old(p2)@),
            old(preds)@.len() == self.components@.len(),
            old(stream).wf(),
            old(reader).wf(),
            at >= 0,
            track ==> advanced(s0, r0, *old(stream), *old(reader), at),
        ensures
            scan_step(
                *g,
                *old(stream),
                *final(stream),
                *old(reader),
                *final(reader),
                final(p0)@,
                final(p1)@,
                final(p2)@,
                self.components@.len() as int,
                final(preds)@,
            ),
            res matches Err(e) ==> e is HuffmanDecode,
            res matches Ok(e) ==> e@ >= at,
            final(stream).pending(*final(reader)) == old(stream).pending(*old(reader)),
            track ==> match mcu_blocks(
                *self,
                *g,
                s0.ahead(r0),
                (at, old(preds)@, old(p0)@, old(p1)@, old(p2)@),
                i as int,
                j as int,
                0,
                0,
                0,
            ) {
                None => res is Err,
                Some(st) => {
                    &&& res matches Ok(e) && e@ == st.0
                    &&& final(preds)@ == st.1
                    &&& final(p0)@ == st.2
                    &&& final(p1)@ == st.3
                    &&& final(p2)@ == st.4
                    &&& advanced(s0, r0, *final(stream), *final(reader), st.0)
                },
            },
    {
        let ghost src = s0.ahead(r0);
        let ghost target = mcu_blocks(
            *self,
            *g,
            src,
            (at, old(preds)@, old(p0)@, old(p1)@, old(p2)@),
            i as int,
            j as int,
            0,
            0,
            0,
        );
        let ghost mut cur: int = at;
        let ns = self.num_scans as usize;
        let mut s: usize = 0;
        while s < ns
            invariant
                self.wf(),
                g.wf(),
                self.matches_geometry(*g),
                ns == self.num_scans,
                i < g.mcu_y,
                j < g.mcu_x,
                s <= ns,
                scan_step(
                    *g,
                    *old(stream),
                    *stream,
                    *old(reader),
                    *reader,
                    p0@,
                    p1@,
                    p2@,
                    self.components@.len() as int,
                    preds@,
                ),
                src == s0.ahead(r0),
                stream.pending(*reader) == old(stream).pending(*old(reader)),
                cur >= at,
                at >= 0,
                track ==> advanced(s0, r0, *stream, *reader, cur),
                track ==> mcu_blocks(*self, *g, src, (cur, preds@, p0@, p1@, p2@), i as int, j as int, s as int, 0, 0)
                    == target,
                target == mcu_blocks(
                    *self,
                    *g,
                    src,
                    (at, old(preds)@, old(p0)@, old(p1)@, old(p2)@),
                    i as int,
                    j as int,
                    0,
                    0,
                    0,
                ),
            decreases ns - s,
        {
            let k = self.z_order[s];
            let comp = self.components[k];
            let dc = match get_table(&self.dc_huffman_tables, comp.dc_huff_table & 3) {
                Some(t) => t,
                None => {
                    proof {
                        lemma_low_two_bits(comp.dc_huff_table);
                    }
                    return Err(DecodeErrors::HuffmanDecode(message("No DC table for component")));
                },
            };
            let ac = match get_table(&self.ac_huffman_tables, comp.ac_huff_table & 3) {
                Some(t) => t,
                None => {
                    proof {
                        lemma_low_two_bits(comp.ac_huff_table);
                    }
                    return Err(DecodeErrors::HuffmanDecode(message("No AC table for component")));
                },
            };
            let ghost t = (dc.spec_counts(), dc.spec_values(), ac.spec_counts(), ac.spec_values());
            proof {
                lemma_low_two_bits(comp.dc_huff_table);
                lemma_low_two_bits(comp.ac_huff_table);
                assert(component_tables(*self, k as int) == Some(t));
            }
            assert(comp.wf());
            let mut vs: usize = 0;
            while vs < comp.vertical_sample
                invariant
                    self.wf(),
                    g.wf(),
                    self.matches_geometry(*g),
                    ns == self.num_scans,
                    s < ns,
                    i < g.mcu_y,
                    j < g.mcu_x,
                    k == self.z_order[s as int],
                    k < self.components@.len(),
                    comp == self.components@[k as int],
                    comp.wf(),
                    dc.wf(),
                    ac.wf(),
                    component_tables(*self, k as int) == Some(t),
                    t == (dc.spec_counts(), dc.spec_values(), ac.spec_counts(), ac.spec_values()),
                    vs <= comp.vertical_sample,
                    scan_step(
                        *g,
                        *old(stream),
                        *stream,
                        *old(reader),
                        *reader,
                        p0@,
                        p1@,
                        p2@,
                        self.components@.len() as int,
                        preds@,
                    ),
                    src == s0.ahead(r0),
                stream.pending(*reader) == old(stream).pending(*old(reader)),
                    cur >= at,
                    at >= 0,
                    track ==> advanced(s0, r0, *stream, *reader, cur),
                    track ==> mcu_blocks(
                        *self,
                        *g,
                        src,
                        (cur, preds@, p0@, p1@, p2@),
                        i as int,
                        j as int,
                        s as int,
                        vs as int,
                        0,
                    ) == target,
                decreases comp.vertical_sample - vs,
            {
                let mut hs: usize = 0;
                while hs < comp.horizontal_sample
                    invariant
                        self.wf(),
                        g.wf(),
                        self.matches_geometry(*g),
                        ns == self.num_scans,
                        s < ns,
                        i < g.mcu_y,
                        j < g.mcu_x,
                        k == self.z_order[s as int],
                        k < self.components@.len(),
                        comp == self.components@[k as int],
                        comp.wf(),
                        dc.wf(),
                        ac.wf(),
                        component_tables(*self, k as int) == Some(t),
                        t == (dc.spec_counts(), dc.spec_values(), ac.spec_counts(), ac.spec_values()),
                        vs < comp.vertical_sample,
                        hs <= comp.horizontal_sample,
                        scan_step(
                            *g,
                            *old(stream),
                            *stream,
                            *old(reader),
                            *reader,
                            p0@,
                            p1@,
                            p2@,
                            self.components@.len() as int,
                            preds@,
                        ),
                        src == s0.ahead(r0),
                stream.pending(*reader) == old(stream).pending(*old(reader)),
                        cur >= at,
                        at >= 0,
                        track ==> advanced(s0, r0, *stream, *reader, cur),
                        track ==> mcu_blocks(
                            *self,
                            *g,
                            src,
                            (cur, preds@, p0@, p1@, p2@),
                            i as int,
                            j as int,
                            s as int,
                            vs as int,
                            hs as int,
                        ) == target,
                    decreases comp.horizontal_sample - hs,
                {
                    assert(i * comp.vertical_sample + vs <= 8 * 0x1000_0000 && j * comp.horizontal_sample
                        + hs <= 8 * 0x1000_0000) by (nonlinear_arith)
                        requires
                            i < g.mcu_y,
                            j < g.mcu_x,
                            g.mcu_y <= 0x1000_0000,
                            g.mcu_x <= 0x1000_0000,
                            vs < comp.vertical_sample <= 8,
                            hs < comp.horizontal_sample <= 8,
                    ;
                    let row = i * comp.vertical_sample + vs;
                    let col = j * comp.horizontal_sample + hs;
                    if k < g.ncomp {
                        proof {
                            lemma_geometry_bounds(*g, k as int);
                            lemma_match_at(self.components@, *g, g.ncomp as int, k as int);
                        }
                        assert(row < g.bh(k as int) && col < g.bw(k as int)) by (nonlinear_arith)
                            requires
                                i < g.mcu_y,
                                j < g.mcu_x,
                                vs < comp.vertical_sample,
                                hs < comp.horizontal_sample,
                                row == i * comp.vertical_sample + vs,
                                col == j * comp.horizontal_sample + hs,
                                g.bh(k as int) == g.mcu_y * comp.vertical_sample,
                                g.bw(k as int) == g.mcu_x * comp.horizontal_sample,
                        ;
                    }
                    let ghost sa = *stream;
                    let ghost ra = *reader;
                    let end = decode_block_into(
                        g,
                        reader,
                        stream,
                        preds,
                        p0,
                        p1,
                        p2,
                        k,
                        row,
                        col,
                        dc,
                        ac,
                        Ghost(if track {
                            s0
                        } else {
                            sa
                        }),
                        Ghost(if track {
                            r0
                        } else {
                            ra
                        }),
                        Ghost(if track {
                            cur
                        } else {
                            0
                        }),
                    );
                    proof {
                        if track {
                            cur = end@;
                        }
                    }
                    hs += 1;
                }
                vs += 1;
            }
            s += 1;
        }
        Ok(Ghost(cur))
    }

    /// Decode a scan of the one component `self.z_order[0]` (a decoded
    /// one), its blocks in rows, `todo` blocks before the first restart.
    #[verifier::spinoff_prover]
    #[verifier::rlimit(60)]
    fn decode_scan_single(
        &self,
        g: &Geometry,
        reader: &mut ByteReader,
        stream: &mut BitStream,
        preds: &mut Vec<i32>,
        p0: &mut Vec<i16>,
        p1: &mut Vec<i16>,
        p2: &mut Vec<i16>,
        todo: usize,
    ) -> (res: Result<(), DecodeErrors>)
        requires
            self.wf(),
            g.wf(),
            self.matches_geometry(*g),
            plane_of(*g, 0, old(p0)@, old(p1)@, old(p2)@),
            old(preds)@.len() == self.components@.len(),
            old(stream).wf(),
            old(reader).wf(),
            self.num_scans == 1,
            self.z_order[0] < g.ncomp,
        ensures
            scan_step(
                *g,
                *old(stream),
                *final(stream),
                *old(reader),
                *final(reader),
                final(p0)@,
                final(p1)@,
                final(p2)@,
                self.components@.len() as int,
                final(preds)@,
            ),
            res matches Err(e) ==> (e is HuffmanDecode || e is MCUError),
            match scan_run(
                *self,
                *g,
                old(reader).bytes(),
                (old(stream).ahead(*old(reader)), old(stream).pending(*old(reader)), todo as int, true),
                (0, old(preds)@, old(p0)@, old(p1)@, old(p2)@),
            ) {
                None => res is Err,
                Some((c, st)) => {
                    &&& c.3 ==> res is Ok && final(preds)@ == st.1 && final(p0)@ == st.2 && final(p1)@
                        == st.3 && final(p2)@ == st.4
                    &&& todo > 0x40_0000 ==> c.3 && advanced(
                        *old(stream),
                        *old(reader),
                        *final(stream),
                        *final(reader),
                        st.0,
                    )
                },
            },
    {
        proof {
            lemma_geometry_bounds(*g, 0);
            lemma_geometry_bounds(*g, 1);
            lemma_geometry_bounds(*g, 2);
        }
        let ghost s0 = *old(stream);
        let ghost r0 = *old(reader);
        let ghost bytes = r0.bytes();
        let ghost ctx0: ScanContext = (s0.ahead(r0), s0.pending(r0), todo as int, true);
        let ghost st0: ScanState = (0int, old(preds)@, old(p0)@, old(p1)@, old(p2)@);
        let ghost todo0 = todo;
        let ghost ri = self.restart_interval as int;
        let ghost mut ctx: ScanContext = ctx0;
        let ghost mut at: int = 0;
        let ghost mut sb: BitStream = s0;
        let ghost mut rb: ByteReader = r0;
        let mut left = todo;
        let k = self.z_order[0];
        let comp = self.components[k];
        proof {
            lemma_low_two_bits(comp.dc_huff_table);
            lemma_low_two_bits(comp.ac_huff_table);
        }
        let dc = match get_table(&self.dc_huffman_tables, comp.dc_huff_table & 3) {
            Some(t) => t,
            None => {
                return Err(DecodeErrors::HuffmanDecode(message("No DC table for component")));
            },
        };
        let ac = match get_table(&self.ac_huffman_tables, comp.ac_huff_table & 3) {
            Some(t) => t,
            None => {
                return Err(DecodeErrors::HuffmanDecode(message("No AC table for component")));
            },
        };
        let ghost t = (dc.spec_counts(), dc.spec_values(), ac.spec_counts(), ac.spec_values());
        assert(component_tables(*self, k as int) == Some(t));
        let bw = if k == 0 {
            g.mcu_x * g.h_max
        } else {
            g.mcu_x
        };
        let bh = if k == 0 {
            g.mcu_y * g.v_max
        } else {
            g.mcu_y
        };
        assert(bw == g.bw(k as int) && bh == g.bh(k as int));
        proof {
            lemma_match_at(self.components@, *g, g.ncomp as int, k as int);
        }
        assert(comp.horizontal_sample <= 2 && comp.vertical_sample <= 2);
        assert(g.width * comp.horizontal_sample <= 2 * 65535 && g.height * comp.vertical_sample <= 2
            * 65535) by (nonlinear_arith)
            requires
                g.width <= 65535,
                g.height <= 65535,
                comp.horizontal_sample <= 2,
                comp.vertical_sample <= 2,
        ;
        // blocks of the component across and down
        let comp_w = (g.width * comp.horizontal_sample + g.h_max - 1) / g.h_max;
        let comp_h = (g.height * comp.vertical_sample + g.v_max - 1) / g.v_max;
        let blocks_w = if (comp_w + 7) / 8 < bw {
            (comp_w + 7) / 8
        } else {
            bw
        };
        let blocks_h = if (comp_h + 7) / 8 < bh {
            (comp_h + 7) / 8
        } else {
            bh
        };
        assert(single_extent(*self, *g, k as int) == (blocks_w as int, blocks_h as int));
        let ghost total = blocks_w * blocks_h;
        let ghost target = single_run(
            *g,
            bytes,
            ri,
            k as int,
            t,
            blocks_w as int,
            blocks_h as int,
            0,
            ctx0,
            st0,
        );
        assert(target == scan_run(*self, *g, bytes, ctx0, st0));
        assert(blocks_w * blocks_h <= bw * bh && bw * bh <= 0x40_0000) by (nonlinear_arith)
            requires
                blocks_w <= bw,
                blocks_h <= bh,
                64 * bw * bh <= 0x1000_0000,
        ;
        assert(advanced(s0, r0, *stream, *reader, 0));
        let mut r: usize = 0;
        while r < blocks_h
            invariant
                g.wf(),
                k < g.ncomp,
                k < 3,
                k < self.components@.len(),
                bw == g.bw(k as int),
                bh == g.bh(k as int),
                blocks_w <= bw,
                blocks_h <= bh,
                blocks_w * blocks_h <= 0x40_0000,
                total == blocks_w * blocks_h,
                dc.wf(),
                ac.wf(),
                t == (dc.spec_counts(), dc.spec_values(), ac.spec_counts(), ac.spec_values()),
                r <= blocks_h,
                scan_step(
                    *g,
                    *old(stream),
                    *stream,
                    *old(reader),
                    *reader,
                    p0@,
                    p1@,
                    p2@,
                    self.components@.len() as int,
                    preds@,
                ),
                s0 == *old(stream),
                r0 == *old(reader),
                bytes == r0.bytes(),
                ri == self.restart_interval,
                todo0 == todo,
                target == single_run(*g, bytes, ri, k as int, t, blocks_w as int, blocks_h as int, 0, ctx0, st0),
                target == scan_run(*self, *g, bytes, ctx0, st0),
                ctx0 == (s0.ahead(r0), s0.pending(r0), todo as int, true),
                st0 == (0int, old(preds)@, old(p0)@, old(p1)@, old(p2)@),
                ctx.3 ==> single_run(
                    *g,
                    bytes,
                    ri,
                    k as int,
                    t,
                    blocks_w as int,
                    blocks_h as int,
                    r * blocks_w,
                    ctx,
                    (at, preds@, p0@, p1@, p2@),
                ) == target,
                !ctx.3 ==> (target matches Some((cx, _)) && !cx.3),
                ctx.3 ==> ctx.2 == left && at >= 0,
                ctx.3 && r * blocks_w < total ==> reads_context(ctx, sb, rb, *stream, *reader, at),
                todo0 > 0x40_0000 ==> {
                    &&& ctx.3
                    &&& sb == s0
                    &&& rb == r0
                    &&& left == todo0 - r * blocks_w
                    &&& reads_context(ctx, sb, rb, *stream, *reader, at)
                },
            decreases blocks_h - r,
        {
            let mut c: usize = 0;
            while c < blocks_w
                invariant
                    g.wf(),
                    k < g.ncomp,
                    k < 3,
                    k < self.components@.len(),
                    bw == g.bw(k as int),
                    bh == g.bh(k as int),
                    blocks_w <= bw,
                    blocks_h <= bh,
                    blocks_w * blocks_h <= 0x40_0000,
                    total == blocks_w * blocks_h,
                    r < blocks_h,
                    dc.wf(),
                    ac.wf(),
                    t == (dc.spec_counts(), dc.spec_values(), ac.spec_counts(), ac.spec_values()),
                    c <= blocks_w,
                    scan_step(
                        *g,
                        *old(stream),
                        *stream,
                        *old(reader),
                        *reader,
                        p0@,
                        p1@,
                        p2@,
                        self.components@.len() as int,
                        preds@,
                    ),
                    s0 == *old(stream),
                    r0 == *old(reader),
                    bytes == r0.bytes(),
                    ri == self.restart_interval,
                    todo0 == todo,
                    target == single_run(*g, bytes, ri, k as int, t, blocks_w as int, blocks_h as int, 0, ctx0, st0),
                target == scan_run(*self, *g, bytes, ctx0, st0),
                ctx0 == (s0.ahead(r0), s0.pending(r0), todo as int, true),
                st0 == (0int, old(preds)@, old(p0)@, old(p1)@, old(p2)@),
                    ctx.3 ==> single_run(
                        *g,
                        bytes,
                        ri,
                        k as int,
                        t,
                        blocks_w as int,
                        blocks_h as int,
                        r * blocks_w + c,
                        ctx,
                        (at, preds@, p0@, p1@, p2@),
                    ) == target,
                    !ctx.3 ==> (target matches Some((cx, _)) && !cx.3),
                    ctx.3 ==> ctx.2 == left && at >= 0,
                    ctx.3 && r * blocks_w + c < total ==> reads_context(ctx, sb, rb, *stream, *reader, at),
                    todo0 > 0x40_0000 ==> {
                        &&& ctx.3
                        &&& sb == s0
                        &&& rb == r0
                        &&& left == todo0 - (r * blocks_w + c)
                        &&& reads_context(ctx, sb, rb, *stream, *reader, at)
                    },
                decreases blocks_w - c,
            {
                proof {
                    lemma_row_col(r as int, c as int, blocks_w as int, blocks_h as int);
                }
                let ghost n = r * blocks_w + c;
                let ghost live = ctx.3;
                let ghost sa = *stream;
                let ghost ra = *reader;
                let ghost cur: ScanState = (at, preds@, p0@, p1@, p2@);
                let end = decode_block_into(
                    g,
                    reader,
                    stream,
                    preds,
                    p0,
                    p1,
                    p2,
                    k,
                    r,
                    c,
                    dc,
                    ac,
                    Ghost(if live {
                        sb
                    } else {
                        sa
                    }),
                    Ghost(if live {
                        rb
                    } else {
                        ra
                    }),
                    Ghost(if live {
                        at
                    } else {
                        0
                    }),
                );
                let ghost st1: ScanState = (end@, preds@, p0@, p1@, p2@);
                let ghost more = n + 1 < total;
                let ghost next = unit_end(bytes, ri, more, ctx, st1);
                let ghost restarted = count_after(ctx.2) == 0;
                proof {
                    if live {
                        assert(st1 == scan_block(*g, ctx.0, cur, k as int, t, n / blocks_w as int, n % blocks_w as int));
                        assert(target == match next {
                            None => None,
                            Some((c2, s2)) => single_run(
                                *g,
                                bytes,
                                ri,
                                k as int,
                                t,
                                blocks_w as int,
                                blocks_h as int,
                                n + 1,
                                c2,
                                s2,
                            ),
                        });
                    }
                }
                let ended = self.end_unit(
                    reader,
                    stream,
                    preds,
                    left,
                    Ghost(ctx),
                    Ghost(st1),
                    Ghost(more),
                    Ghost(sb),
                    Ghost(rb),
                );
                left = match ended {
                    Ok(l) => l,
                    Err(e) => {
                        assert(live ==> next is None);
                        assert(live ==> target is None);
                        return Err(e);
                    },
                };
                proof {
                    if live {
                        let (c2, s2) = next.unwrap();
                        if restarted {
                            sb = *stream;
                            rb = *reader;
                        }
                        ctx = c2;
                        at = s2.0;
                    }
                }
                c += 1;
            }
            assert((r + 1) * blocks_w == r * blocks_w + blocks_w) by (nonlinear_arith);
            r += 1;
        }
        assert(blocks_h * blocks_w == blocks_w * blocks_h) by (nonlinear_arith);
        Ok(())
    }

    /// Decode an interleaved scan MCU by MCU, `todo` MCUs before the first
    /// restart.
    #[verifier::spinoff_prover]
    #[verifier::rlimit(60)]
    fn decode_scan_interleaved(
        &self,
        g: &Geometry,
        reader: &mut ByteReader,
        stream: &mut BitStream,
        preds: &mut Vec<i32>,
        p0: &mut Vec<i16>,
        p1: &mut Vec<i16>,
        p2: &mut Vec<i16>,
        todo: usize,
    ) -> (res: Result<(), DecodeErrors>)
        requires
            self.wf(),
            g.wf(),
            self.matches_geometry(*g),
            plane_of(*g, 0, old(p0)@, old(p1)@, old(p2)@),
            old(preds)@.len() == self.components@.len(),
            old(stream).wf(),
            old(reader).wf(),
            self.num_scans != 1,
        ensures
            scan_step(
                *g,
                *old(stream),
                *final(stream),
                *old(reader),
                *final(reader),
                final(p0)@,
                final(p1)@,
                final(p2)@,
                self.components@.len() as int,
                final(preds)@,
            ),
            res matches Err(e) ==> (e is HuffmanDecode || e is MCUError),
            match scan_run(
                *self,
                *g,
                old(reader).bytes(),
                (old(stream).ahead(*old(reader)), old(stream).pending(*old(reader)), todo as int, true),
                (0, old(preds)@, old(p0)@, old(p1)@, old(p2)@),
            ) {
                None => res is Err,
                Some((c, st)) => {
                    &&& c.3 ==> res is Ok && final(preds)@ == st.1 && final(p0)@ == st.2 && final(p1)@
                        == st.3 && final(p2)@ == st.4
                    &&& todo > 0x40_0000 ==> c.3 && advanced(
                        *old(stream),
                        *old(reader),
                        *final(stream),
                        *final(reader),
                        st.0,
                    )
                },
            },
    {
        let ghost s0 = *old(stream);
        let ghost r0 = *old(reader);
        let ghost bytes = r0.bytes();
        let ghost ctx0: ScanContext = (s0.ahead(r0), s0.pending(r0), todo as int, true);
        let ghost st0: ScanState = (0int, old(preds)@, old(p0)@, old(p1)@, old(p2)@);
        let ghost todo0 = todo;
        let ghost ri = self.restart_interval as int;
        let ghost total = g.mcu_x * g.mcu_y;
        let ghost target = mcus_run(*self, *g, bytes, 0, ctx0, st0);
        assert(target == scan_run(*self, *g, bytes, ctx0, st0));
        let ghost mut ctx: ScanContext = ctx0;
        let ghost mut at: int = 0;
        let ghost mut sb: BitStream = s0;
        let ghost mut rb: ByteReader = r0;
        let mut left = todo;
        assert(g.mcu_x * g.mcu_y <= 0x40_0000) by (nonlinear_arith)
            requires
                (8 * g.h_max * g.mcu_x) * (8 * g.v_max * g.mcu_y) <= 0x1000_0000,
                g.h_max >= 1,
                g.v_max >= 1,
        ;
        assert(advanced(s0, r0, *stream, *reader, 0));
        assert(0 * g.mcu_x == 0);
        let mut i: usize = 0;
        while i < g.mcu_y
            invariant
                self.wf(),
                g.wf(),
                self.matches_geometry(*g),
                self.num_scans != 1,
                i <= g.mcu_y,
                scan_step(
                    *g,
                    *old(stream),
                    *stream,
                    *old(reader),
                    *reader,
                    p0@,
                    p1@,
                    p2@,
                    self.components@.len() as int,
                    preds@,
                ),
                s0 == *old(stream),
                r0 == *old(reader),
                bytes == r0.bytes(),
                ri == self.restart_interval,
                todo0 == todo,
                total == g.mcu_x * g.mcu_y,
                total <= 0x40_0000,
                target == mcus_run(*self, *g, bytes, 0, ctx0, st0),
                target == scan_run(*self, *g, bytes, ctx0, st0),
                ctx0 == (s0.ahead(r0), s0.pending(r0), todo as int, true),
                st0 == (0int, old(preds)@, old(p0)@, old(p1)@, old(p2)@),
                ctx.3 ==> mcus_run(*self, *g, bytes, i * g.mcu_x, ctx, (at, preds@, p0@, p1@, p2@)) == target,
                !ctx.3 ==> (target matches Some((cx, _)) && !cx.3),
                ctx.3 ==> ctx.2 == left && at >= 0,
                ctx.3 && i * g.mcu_x < total ==> reads_context(ctx, sb, rb, *stream, *reader, at),
                todo0 > 0x40_0000 ==> {
                    &&& ctx.3
                    &&& sb == s0
                    &&& rb == r0
                    &&& left == todo0 - i * g.mcu_x
                    &&& reads_context(ctx, sb, rb, *stream, *reader, at)
                },
            decreases g.mcu_y - i,
        {
            let mut j: usize = 0;
            while j < g.mcu_x
                invariant
                    self.wf(),
                    g.wf(),
                    self.matches_geometry(*g),
                    self.num_scans != 1,
                    i < g.mcu_y,
                    j <= g.mcu_x,
                    scan_step(
                        *g,
                        *old(stream),
                        *stream,
                        *old(reader),
                        *reader,
                        p0@,
                        p1@,
                        p2@,
                        self.components@.len() as int,
                        preds@,
                    ),
                    s0 == *old(stream),
                    r0 == *old(reader),
                    bytes == r0.bytes(),
                    ri == self.restart_interval,
                    todo0 == todo,
                    total == g.mcu_x * g.mcu_y,
                    total <= 0x40_0000,
                    target == mcus_run(*self, *g, bytes, 0, ctx0, st0),
                target == scan_run(*self, *g, bytes, ctx0, st0),
                ctx0 == (s0.ahead(r0), s0.pending(r0), todo as int, true),
                st0 == (0int, old(preds)@, old(p0)@, old(p1)@, old(p2)@),
                    ctx.3 ==> mcus_run(*self, *g, bytes, i * g.mcu_x + j, ctx, (at, preds@, p0@, p1@, p2@))
                        == target,
                    !ctx.3 ==> (target matches Some((cx, _)) && !cx.3),
                    ctx.3 ==> ctx.2 == left && at >= 0,
                    ctx.3 && i * g.mcu_x + j < total ==> reads_context(ctx, sb, rb, *stream, *reader, at),
                    todo0 > 0x40_0000 ==> {
                        &&& ctx.3
                        &&& sb == s0
                        &&& rb == r0
                        &&& left == todo0 - (i * g.mcu_x + j)
                        &&& reads_context(ctx, sb, rb, *stream, *reader, at)
                    },
                decreases g.mcu_x - j,
            {
                proof {
                    lemma_row_col(i as int, j as int, g.mcu_x as int, g.mcu_y as int);
                }
                let ghost m = i * g.mcu_x + j;
                let ghost live = ctx.3;
                let ghost before: ScanState = (at, preds@, p0@, p1@, p2@);
                let res_mcu = self.decode_mcu_blocks(
                    g,
                    reader,
                    stream,
                    preds,
                    p0,
                    p1,
                    p2,
                    i,
                    j,
                    Ghost(sb),
                    Ghost(rb),
                    Ghost(if live {
                        at
                    } else {
                        0
                    }),
                    Ghost(live),
                );
                let end = match res_mcu {
                    Ok(e) => e,
                    Err(e) => {
                        assert(live ==> mcu_blocks(*self, *g, ctx.0, before, i as int, j as int, 0, 0, 0) is None);
                        assert(live ==> target is None);
                        return Err(e);
                    },
                };
                let ghost st1: ScanState = (end@, preds@, p0@, p1@, p2@);
                let ghost more = m + 1 < total;
                let ghost next = unit_end(bytes, ri, more, ctx, st1);
                let ghost restarted = count_after(ctx.2) == 0;
                proof {
                    if live {
                        assert(mcu_blocks(*self, *g, ctx.0, before, m / g.mcu_x as int, m % g.mcu_x as int, 0, 0, 0)
                            == Some(st1));
                        assert(target == match next {
                            None => None,
                            Some((c2, s2)) => mcus_run(*self, *g, bytes, m + 1, c2, s2),
                        });
                    }
                }
                // after every interleaved MCU, count down to the next restart
                let ended = self.end_unit(
                    reader,
                    stream,
                    preds,
                    left,
                    Ghost(ctx),
                    Ghost(st1),
                    Ghost(more),
                    Ghost(sb),
                    Ghost(rb),
                );
                left = match ended {
                    Ok(l) => l,
                    Err(e) => {
                        assert(live ==> next is None);
                        assert(live ==> target is None);
                        return Err(e);
                    },
                };
                proof {
                    if live {
                        let (c2, s2) = next.unwrap();
                        if restarted {
                            sb = *stream;
                            rb = *reader;
                        }
                        ctx = c2;
                        at = s2.0;
                    }
                }
                j += 1;
            }
            assert((i + 1) * g.mcu_x == i * g.mcu_x + g.mcu_x) by (nonlinear_arith);
            i += 1;
        }
        assert(g.mcu_y * g.mcu_x == g.mcu_x * g.mcu_y) by (nonlinear_arith);
        Ok(())
    }

    /// Decode the blocks of a sequential scan into the planes: for an
    /// interleaved scan, MCU by MCU, each component of the scan contributing
    /// its sampling factors' worth of blocks; for a scan of one component,
    /// its blocks in row order. Components past the decoded ones are skipped.
    pub fn decode_scan_baseline(
        &self,
        g: &Geometry,
        reader: &mut ByteReader,
        stream: &mut BitStream,
        preds: &mut Vec<i32>,
        p0: &mut Vec<i16>,
        p1: &mut Vec<i16>,
        p2: &mut Vec<i16>,
    ) -> (res: Result<(), DecodeErrors>)
        requires
            self.wf(),
            g.wf(),
            self.matches_geometry(*g),
            plane_of(*g, 0, old(p0)@, old(p1)@, old(p2)@),
            old(preds)@.len() == self.components@.len(),
            old(stream).wf(),
            old(reader).wf(),
        ensures
            scan_step(
                *g,
                *old(stream),
                *final(stream),
                *old(reader),
                *final(reader),
                final(p0)@,
                final(p1)@,
                final(p2)@,
                self.components@.len() as int,
                final(preds)@,
            ),
            res matches Err(e) ==> (e is HuffmanDecode || e is MCUError),
            match scan_run(
                *self,
                *g,
                old(reader).bytes(),
                (old(stream).ahead(*old(reader)), old(stream).pending(*old(reader)), self.todo as int, true),
                (0, old(preds)@, old(p0)@, old(p1)@, old(p2)@),
            ) {
                None => res is Err,
                Some((c, st)) => {
                    &&& c.3 ==> res is Ok && final(preds)@ == st.1 && final(p0)@ == st.2 && final(p1)@
                        == st.3 && final(p2)@ == st.4
                    &&& self.todo > 0x40_0000 ==> c.3 && advanced(
                        *old(stream),
                        *old(reader),
                        *final(stream),
                        *final(reader),
                        st.0,
                    )
                },
            },
    {
        if self.num_scans == 1 {
            if self.z_order[0] < g.ncomp {
                self.decode_scan_single(g, reader, stream, preds, p0, p1, p2, self.todo)
            } else {
                assert(advanced(*old(stream), *old(reader), *stream, *reader, 0));
                Ok(())
            }
        } else {
            self.decode_scan_interleaved(g, reader, stream, preds, p0, p1, p2, self.todo)
        }
    }
}

impl Decoder {
    /// A grayscale image whose one component is down-sampled is decoded as
    /// if it were not: sampling factors one, grayscale output.
    pub fn reset_downsampled_grayscale(&mut self)
        requires
            old(self).wf(),
        ensures
            final(self).wf(),
            final(self).h_max == 1 && final(self).v_max == 1,
            final(self).options == (ZuneJpegOptions { out_colorspace: ColorSpace::GRAYSCALE, ..old(self).options }),
            final(self).info == old(self).info,
            final(self).input_colorspace == old(self).input_colorspace,
            final(self).components@.len() == old(self).components@.len(),
            final(self).num_scans == old(self).num_scans,
            final(self).is_progressive == old(self).is_progressive,
            final(self).todo == old(self).todo,
    {
        self.h_max = 1;
        self.v_max = 1;
        self.options = self.options.set_out_colorspace(ColorSpace::GRAYSCALE);
        self.sub_sample_ratio = SubSampRatios::NoSampling;
        if self.components.len() > 0 {
            let mut c0 = self.components[0];
            assert(old(self).components@[0].wf());
            c0.vertical_sample = 1;
            c0.horizontal_sample = 1;
            c0.width_stride = ((self.info.width as usize + 7) / 8) * 8;
            let ghost before = self.components@;
            self.components.set(0, c0);
            assert forall|k: int| 0 <= k < self.components@.len() implies #[trigger] self.components@[k].wf() by {
                if k != 0 {
                    assert(self.components@[k] == before[k]);
                }
            }
        }
    }

    /// The quantization table of component `c`, or of the first component
    /// when `c` is not decoded.
    pub(crate) fn qt_of(&self, c: usize) -> (qt: Aligned32<[i32; 64]>)
        requires
            self.components@.len() > 0,
        ensures
            qt.0@ == spec_qt(*self, c as int),
    {
        if c < self.components.len() {
            self.components[c].quantization_table
        } else {
            self.components[0].quantization_table
        }
    }

    /// Decode MCUs of a sequential image and carry out post processing.
    ///
    /// The chrominance components must not be sub-sampled themselves and the
    /// sampling factors must be at most two; a grayscale image with a
    /// down-sampled component is decoded as a plain one, unless the decoder
    /// is strict.
    pub fn decode_mcu_ycbcr_baseline(&mut self, reader: &mut ByteReader) -> (res: Result<
        Vec<u8>,
        DecodeErrors,
    >)
        requires
            old(self).wf(),
            old(reader).wf(),
        ensures
            final(self).wf(),
            final(reader).wf(),
            final(reader).bytes() == old(reader).bytes(),
            final(self).info == old(self).info,
            res matches Ok(v) ==> v@.len() == old(self).info.width * old(self).info.height
                * spec_num_components(final(self).options.out_colorspace),
            res matches Ok(v) ==> is_decoded_image(*final(self), v@),
            final(self).todo == old(self).todo,
            final(self).is_progressive == old(self).is_progressive,
            res matches Ok(v) ==> is_scan_outcome(*final(self), old(reader).bytes(), old(reader).pos(), v@),
            !(exists|y: int| old(self).dimensions_agree(y)) ==> res is Err && *final(reader) == *old(reader)
                && *final(self) == *old(self),
            (forall|y: int|
                0 <= y < old(self).components@.len() ==> #[trigger] old(self).components@[y].component_id
                    != ComponentID::Y) ==> res == Err::<Vec<u8>, DecodeErrors>(
                DecodeErrors::FormatStatic("Could not find Y component for the image"),
            ),
            (exists|y: int| old(self).dimensions_agree(y)) && !old(self).tables_present(
                spec_num_components(old(self).input_colorspace) as int,
            ) ==> (res matches Err(DecodeErrors::HuffmanDecode(_))) && *final(reader) == *old(reader)
                && *final(self) == *old(self),
            (exists|y: int| old(self).dimensions_agree(y)) && old(self).tables_present(
                spec_num_components(old(self).input_colorspace) as int,
            ) && old(self).interleaved && !supported_sampling(old(self).h_max, old(self).v_max) ==> (res
                matches Err(DecodeErrors::Format(m)) && m@ == "Unknown down-sampling method, cannot continue"@)
                && *final(reader) == *old(reader) && *final(self) == *old(self),
            !(old(self).input_colorspace == ColorSpace::GRAYSCALE && old(self).interleaved) ==> upsampling_chosen(
                *old(self),
                *final(self),
            ),
            res is Ok ==> prepared_ok(*old(self)) && old(self).tables_present(
                spec_num_components(old(self).input_colorspace) as int,
            ) && final(self).frame_fits(),
            prepared_ok(*old(self)) && old(self).tables_present(spec_num_components(old(self).input_colorspace) as int)
                && !(old(self).input_colorspace == ColorSpace::GRAYSCALE && old(self).interleaved
                && old(self).options.strict_mode) && final(self).frame_fits() && is_known_scan(
                *final(self),
                old(reader).bytes(),
                old(reader).pos(),
            ) ==> res is Ok,
            old(self).todo > 0x40_0000 ==> (res matches Ok(v) ==> is_scanned_image(
                *final(self),
                old(reader).bytes(),
                old(reader).pos(),
                v@,
            )),
            final(self).options == old(self).options || final(self).options == (ZuneJpegOptions {
                out_colorspace: ColorSpace::GRAYSCALE,
                ..old(self).options
            }),
    {
        match self.check_component_dimensions() {
            Ok(()) => {},
            Err(e) => {
                return Err(e);
            },
        }
        // check dc and AC tables
        match self.check_tables() {
            Ok(()) => {},
            Err(e) => {
                return Err(e);
            },
        }
        if self.interleaved {
            // set upsampling functions
            self.set_upsampling()?;
        }
        if self.input_colorspace == ColorSpace::GRAYSCALE && self.interleaved {
            if self.options.get_strict_mode() {
                return Err(
                    DecodeErrors::FormatStatic(
                        "[strict-mode]: Grayscale image with down-sampled component.",
                    ),
                );
            }
            self.reset_downsampled_grayscale();
        }
        let g = self.frame_geometry()?;
        proof {
            lemma_geometry_bounds(g, 0);
            lemma_geometry_bounds(g, 1);
            lemma_geometry_bounds(g, 2);
        }
        let bw0 = g.mcu_x * g.h_max;
        let bh0 = g.mcu_y * g.v_max;
        assert(bw0 == g.bw(0) && bh0 == g.bh(0) && g.mcu_x == g.bw(1) && g.mcu_y == g.bh(1));
        assert(64 * bw0 <= 64 * bw0 * bh0 && 64 * g.mcu_x <= 64 * g.mcu_x * g.mcu_y) by (nonlinear_arith)
            requires
                bh0 >= 1,
                g.mcu_y >= 1,
        ;
        let len0 = 64 * bw0 * bh0;
        let len1 = 64 * g.mcu_x * g.mcu_y;
        let mut p0: Vec<i16> = vec![0i16; len0];
        let mut p1: Vec<i16> = if g.ncomp == 3 {
            vec![0i16; len1]
        } else {
            Vec::new()
        };
        let mut p2: Vec<i16> = if g.ncomp == 3 {
            vec![0i16; len1]
        } else {
            Vec::new()
        };
        let mut preds: Vec<i32> = vec![0i32; self.components.len()];
        let mut stream = BitStream::new();
        proof {
            lemma_empty_stream_bits(stream, *reader);
        }
        assert(*reader == *old(reader));
        let ghost bytes = old(reader).bytes();
        let ghost pos = old(reader).pos();
        let ghost start = scan_start(*self, g);
        assert(p0@ =~= scan_start(*self, g).2);
        assert(p1@ =~= scan_start(*self, g).3);
        assert(p2@ =~= scan_start(*self, g).4);
        assert(preds@ =~= scan_start(*self, g).1);
        assert(stream.pending(*reader) == stop_at(bytes, pos));
        assert((stream.ahead(*reader), stream.pending(*reader), self.todo as int, true) == scan_context(
            *self,
            bytes,
            pos,
        ));
        assert(frame_layout(*self, g));
        let scanned = self.decode_scan_baseline(&g, reader, &mut stream, &mut preds, &mut p0, &mut p1, &mut p2);
        if scanned.is_err() {
            assert(!is_known_scan(*self, bytes, pos));
            return Err(scanned.unwrap_err());
        }
        let qt0 = self.qt_of(0);
        let qt1 = self.qt_of(1);
        let qt2 = self.qt_of(2);
        let ghost planes = (p0@, p1@, p2@);
        let out = post_process(
            &g,
            p0,
            p1,
            p2,
            &qt0,
            &qt1,
            &qt2,
            self.input_colorspace,
            self.options.out_colorspace,
        );
        assert(decoded_pixels(
            g,
            planes.0,
            planes.1,
            planes.2,
            spec_qt(*self, 0),
            spec_qt(*self, 1),
            spec_qt(*self, 2),
            self.input_colorspace,
            self.options.out_colorspace,
        ) == out@);
        assert(frame_layout(*self, g));
        assert(scan_run(*self, g, bytes, scan_context(*self, bytes, pos), start) matches Some((c, st)) && (c.3
            ==> st.2 == planes.0 && st.3 == planes.1 && st.4 == planes.2));
        assert(old(self).todo > 0x40_0000 ==> (scan_run(*self, g, bytes, scan_context(*self, bytes, pos), start) matches Some((c, st)) && c.3));
        Ok(out)
    }
}

} // verus!
