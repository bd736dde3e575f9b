//! Main image logic.
use vstd::prelude::*;

use crate::color_convert::{
    choose_ycbcr_to_rgb_convert_func, spec_convert_funcs, ColorConvert16Ptr, ColorConvertPtr,
};
use crate::components::{ComponentID, Components, SubSampRatios, UpSampler};
use crate::errors::{
    message, message_with_number, spec_decimal, spec_unsupported_scheme, DecodeErrors, UnsupportedSchemes,
};
use crate::headers::{
    at, be16_at, dht_segment, dqt_segment, frame_read, frame_update, huffman_view, parse_dqt, parse_huffman,
    parse_sos, parse_start_of_frame, parse_step, qt_view, record_valid, scan_update, sof_header_ok,
    sof_record, sos_end, sos_header_ok, sos_outcome, sos_read,
};
use crate::marker::{spec_marker, Marker};
use crate::mcu::{is_decoded_image, is_known_scan, is_scan_outcome, is_scanned_image, prepared_ok};
use crate::mcu_prog::{is_lone_scan, prog_decodes, upsampling_chosen};
use crate::huffman::HuffmanTable;
use crate::idct::{choose_idct_func, IDCTPtr};
use crate::misc::{read_byte, read_u16_be, spec_be16, spec_num_components, ByteReader, ColorSpace, SOFMarkers};
use crate::upsampler::choose_horizontal_samp_function;

verus! {

/// Maximum components
pub const MAX_COMPONENTS: usize = 4;

/// Maximum image dimensions supported.
pub const MAX_DIMENSIONS: usize = 134217728;

/// Options that control decoding.
#[derive(Clone, Copy)]
pub struct ZuneJpegOptions {
    /// The colour space of the decoded pixels
    pub out_colorspace: ColorSpace,
    /// Largest width the caller accepts
    pub max_width: u16,
    /// Largest height the caller accepts
    pub max_height: u16,
    /// Refuse images that are slightly off the standard
    pub strict_mode: bool,
    /// Number of threads the caller asked for
    pub num_threads: u32,
    /// Whether platform specific routines may be used
    pub use_unsafe: bool,
}

impl ZuneJpegOptions {
    /// The default options: RGB output, limits of 16384 pixels each way,
    /// lenient parsing, one thread, portable routines.
    pub fn new() -> (o: ZuneJpegOptions)
        ensures
            o.out_colorspace == ColorSpace::RGB,
            o.max_width == 16384,
            o.max_height == 16384,
            !o.strict_mode,
            o.num_threads == 1,
            !o.use_unsafe,
    {
        ZuneJpegOptions {
            out_colorspace: ColorSpace::RGB,
            max_width: 16384,
            max_height: 16384,
            strict_mode: false,
            num_threads: 1,
            use_unsafe: false,
        }
    }

    /// The colour space of the decoded pixels.
    pub fn get_out_colorspace(&self) -> (c: ColorSpace)
        ensures
            c == self.out_colorspace,
    {
        self.out_colorspace
    }

    /// These options with another output colour space.
    pub fn set_out_colorspace(self, colorspace: ColorSpace) -> (o: ZuneJpegOptions)
        ensures
            o == (ZuneJpegOptions { out_colorspace: colorspace, ..self }),
    {
        ZuneJpegOptions { out_colorspace: colorspace, ..self }
    }

    /// These options with another width limit.
    pub fn set_max_width(self, width: u16) -> (o: ZuneJpegOptions)
        ensures
            o == (ZuneJpegOptions { max_width: width, ..self }),
    {
        ZuneJpegOptions { max_width: width, ..self }
    }

    /// These options with another height limit.
    pub fn set_max_height(self, height: u16) -> (o: ZuneJpegOptions)
        ensures
            o == (ZuneJpegOptions { max_height: height, ..self }),
    {
        ZuneJpegOptions { max_height: height, ..self }
    }

    /// These options with another thread count.
    pub fn set_num_threads(self, threads: u32) -> (o: ZuneJpegOptions)
        requires
            threads != 0,
        ensures
            o == (ZuneJpegOptions { num_threads: threads, ..self }),
    {
        ZuneJpegOptions { num_threads: threads, ..self }
    }

    /// These options, strict or lenient.
    pub fn set_strict_mode(self, strict: bool) -> (o: ZuneJpegOptions)
        ensures
            o == (ZuneJpegOptions { strict_mode: strict, ..self }),
    {
        ZuneJpegOptions { strict_mode: strict, ..self }
    }

    /// Whether slightly off images are refused.
    pub fn get_strict_mode(&self) -> (b: bool)
        ensures
            b == self.strict_mode,
    {
        self.strict_mode
    }

    /// The number of threads asked for.
    pub fn get_threads(&self) -> (n: u32)
        ensures
            n == self.num_threads,
    {
        self.num_threads
    }

    /// Whether platform specific routines may be used.
    pub fn get_use_unsafe(&self) -> (b: bool)
        ensures
            b == self.use_unsafe,
    {
        self.use_unsafe
    }
}

/// A struct representing Image Information
#[derive(Clone, Copy, Debug, PartialEq, Eq, Structural)]
pub struct ImageInfo {
    /// Width of the image
    pub width: u16,
    /// Height of image
    pub height: u16,
    /// PixelDensity
    pub pixel_density: u8,
    /// Start of frame markers
    pub sof: SOFMarkers,
    /// Horizontal sample
    pub x_density: u16,
    /// Vertical sample
    pub y_density: u16,
    /// Number of components
    pub components: u8,
}

/// The information of an image before any header was read.
pub open spec fn default_info() -> ImageInfo {
    ImageInfo {
        width: 0,
        height: 0,
        pixel_density: 0,
        sof: SOFMarkers::BaselineDct,
        x_density: 0,
        y_density: 0,
        components: 0,
    }
}

impl Default for ImageInfo {
    /// All zero, baseline frame kind.
    fn default() -> (i: Self)
        ensures
            i == default_info(),
    {
        ImageInfo {
            width: 0,
            height: 0,
            pixel_density: 0,
            sof: SOFMarkers::BaselineDct,
            x_density: 0,
            y_density: 0,
            components: 0,
        }
    }
}

impl ImageInfo {
    /// Set width of the image
    ///
    /// Found in the start of frame
    pub fn set_width(&mut self, width: u16)
        ensures
            *final(self) == (ImageInfo { width, ..*old(self) }),
    {
        self.width = width;
    }

    /// Set height of the image
    ///
    /// Found in the start of frame
    pub fn set_height(&mut self, height: u16)
        ensures
            *final(self) == (ImageInfo { height, ..*old(self) }),
    {
        self.height = height;
    }

    /// Set the image density
    ///
    /// Found in the start of frame
    pub fn set_density(&mut self, density: u8)
        ensures
            *final(self) == (ImageInfo { pixel_density: density, ..*old(self) }),
    {
        self.pixel_density = density;
    }

    /// Set image Start of frame marker
    ///
    /// found in the Start of frame header
    pub fn set_sof_marker(&mut self, marker: SOFMarkers)
        ensures
            *final(self) == (ImageInfo { sof: marker, ..*old(self) }),
    {
        self.sof = marker;
    }

    /// Set image x-density(dots per pixel)
    ///
    /// Found in the APP(0) marker
    pub fn set_x(&mut self, sample: u16)
        ensures
            *final(self) == (ImageInfo { x_density: sample, ..*old(self) }),
    {
        self.x_density = sample;
    }

    /// Set image y-density
    ///
    /// Found in the APP(0) marker
    pub fn set_y(&mut self, sample: u16)
        ensures
            *final(self) == (ImageInfo { y_density: sample, ..*old(self) }),
    {
        self.y_density = sample;
    }
}

/// A Decoder Instance
pub struct Decoder {
    /// Struct to hold image information from SOI
    pub info: ImageInfo,
    ///  Quantization tables, will be set to none and the tables will
    /// be moved to `components` field
    pub qt_tables: [Option<[i32; 64]>; MAX_COMPONENTS],
    /// DC Huffman Tables with a maximum of 4 tables for each component
    pub dc_huffman_tables: Vec<Option<HuffmanTable>>,
    /// AC Huffman Tables with a maximum of 4 tables for each component
    pub ac_huffman_tables: Vec<Option<HuffmanTable>>,
    /// Image components, holds information like DC prediction and quantization
    /// tables of a component
    pub components: Vec<Components>,
    /// maximum horizontal component of all channels in the image
    pub h_max: usize,
    /// maximum vertical component of all channels in the image
    pub v_max: usize,
    /// mcu's width (interleaved scans)
    pub mcu_width: usize,
    /// MCU height(interleaved scans
    pub mcu_height: usize,
    /// Number of MCU's in the x plane
    pub mcu_x: usize,
    /// Number of MCU's in the y plane
    pub mcu_y: usize,
    /// Is the image interleaved?
    pub interleaved: bool,
    /// Sub-sampling of the chrominance channels
    pub sub_sample_ratio: SubSampRatios,
    /// Image input colorspace, should be YCbCr for a sane image, might be
    /// grayscale too
    pub input_colorspace: ColorSpace,
    /// Is the image progressive?
    pub is_progressive: bool,
    /// Start of spectral scan
    pub spec_start: u8,
    /// End of spectral scan
    pub spec_end: u8,
    /// Successive approximation bit position high
    pub succ_high: u8,
    /// Successive approximation bit position low
    pub succ_low: u8,
    /// Number of components in the current scan.
    pub num_scans: u8,
    /// Dequantize and idct routine
    pub idct_func: IDCTPtr,
    /// Color convert routine which acts on 16 YcbCr values
    pub color_convert_16: ColorConvert16Ptr,
    /// Color convert routine which acts on 8 YcbCr values
    pub color_convert: ColorConvertPtr,
    /// Component indices of the components of the current scan, in scan order
    pub z_order: [usize; 4],
    /// restart markers
    pub restart_interval: usize,
    /// MCUs left before the next restart marker is due
    pub todo: usize,
    /// decoder options
    pub options: ZuneJpegOptions,
}

impl Decoder {
    /// The tables are where the decoder looks them up and each is well formed;
    /// a scan refers to components that exist.
    pub open spec fn wf(&self) -> bool {
        &&& self.dc_huffman_tables@.len() == MAX_COMPONENTS
        &&& self.ac_huffman_tables@.len() == MAX_COMPONENTS
        &&& forall|i: int|
            0 <= i < MAX_COMPONENTS ==> (#[trigger] self.dc_huffman_tables@[i] matches Some(t)
                ==> t.wf())
        &&& forall|i: int|
            0 <= i < MAX_COMPONENTS ==> (#[trigger] self.ac_huffman_tables@[i] matches Some(t)
                ==> t.wf())
        &&& self.num_scans <= 4
        &&& forall|i: int|
            0 <= i < self.num_scans ==> #[trigger] self.z_order[i] < self.components@.len()
        &&& self.components@.len() <= 255
        &&& 1 <= self.h_max <= 8
        &&& 1 <= self.v_max <= 8
        &&& forall|i: int| 0 <= i < self.components@.len() ==> #[trigger] self.components@[i].wf()
        &&& self.spec_start <= self.spec_end < 64
        &&& self.succ_low < 16
        &&& self.succ_high < 16
    }

    /// A decoder with the given options and nothing read yet.
    fn default(options: ZuneJpegOptions) -> (d: Decoder)
        ensures
            d.wf(),
            d.info == default_info(),
            d.options == options,
            d.components@.len() == 0,
            d.input_colorspace == ColorSpace::YCbCr,
            !d.is_progressive,
            d.h_max == 1 && d.v_max == 1,
            !d.interleaved,
            d.restart_interval == 0,
            forall|i: int| 0 <= i < MAX_COMPONENTS ==> #[trigger] d.qt_tables[i] is None,
    {
        let (color_convert_16, color_convert) = match choose_ycbcr_to_rgb_convert_func(
            options.get_out_colorspace(),
        ) {
            Some(f) => f,
            None => (ColorConvert16Ptr::Rgb16, ColorConvertPtr::Rgb),
        };
        let mut dc: Vec<Option<HuffmanTable>> = Vec::new();
        let mut ac: Vec<Option<HuffmanTable>> = Vec::new();
        let mut i: usize = 0;
        while i < MAX_COMPONENTS
            invariant
                i <= MAX_COMPONENTS,
                dc@.len() == i,
                ac@.len() == i,
                forall|k: int| 0 <= k < i ==> #[trigger] dc@[k] is None,
                forall|k: int| 0 <= k < i ==> #[trigger] ac@[k] is None,
            decreases MAX_COMPONENTS - i,
        {
            dc.push(None);
            ac.push(None);
            i += 1;
        }
        Decoder {
            info: ImageInfo::default(),
            qt_tables: [None, None, None, None],
            dc_huffman_tables: dc,
            ac_huffman_tables: ac,
            components: Vec::new(),
            // Interleaved information
            h_max: 1,
            v_max: 1,
            mcu_height: 0,
            mcu_width: 0,
            mcu_x: 0,
            mcu_y: 0,
            interleaved: false,
            sub_sample_ratio: SubSampRatios::NoSampling,
            // Progressive information
            is_progressive: false,
            spec_start: 0,
            spec_end: 0,
            succ_high: 0,
            succ_low: 0,
            num_scans: 0,
            // Routines
            idct_func: choose_idct_func(),
            color_convert_16,
            color_convert,
            // Colorspace
            input_colorspace: ColorSpace::YCbCr,
            z_order: [0; 4],
            restart_interval: 0,
            todo: 0x7fff_ffff,
            options,
        }
    }

    /// Create a new Decoder instance, with the default options (RGB output).
    pub fn new() -> (d: Decoder)
        ensures
            d.wf(),
            d.info == default_info(),
            d.options.out_colorspace == ColorSpace::RGB,
            fresh_decoder(d),
            d.components@.len() == 0,
            d.h_max == 1 && d.v_max == 1,
            !d.interleaved,
            !d.is_progressive,
            d.restart_interval == 0,
            forall|i: int| 0 <= i < MAX_COMPONENTS ==> #[trigger] d.qt_tables[i] is None,
    {
        Decoder::default(ZuneJpegOptions::new())
    }

    /// Create a new decoder with the specified options to be used for decoding
    /// an image
    pub fn new_with_options(options: ZuneJpegOptions) -> (d: Decoder)
        ensures
            d.wf(),
            d.info == default_info(),
            d.options == options,
            d.components@.len() == 0,
            d.h_max == 1 && d.v_max == 1,
            !d.interleaved,
            !d.is_progressive,
            d.restart_interval == 0,
            forall|i: int| 0 <= i < MAX_COMPONENTS ==> #[trigger] d.qt_tables[i] is None,
    {
        Decoder::default(options)
    }

    /// Returns the image information
    ///
    /// This **must** be called after a successful call to `decode_buffer` or
    /// `read_headers`, otherwise it returns None: the information of an image
    /// whose headers were read cannot be the default, since its width and
    /// height are not zero.
    pub fn info(&self) -> (i: Option<ImageInfo>)
        ensures
            self.info == default_info() ==> i is None,
            self.info != default_info() ==> i == Some(self.info),
    {
        if self.info == ImageInfo::default() {
            return None;
        }
        Some(self.info)
    }

    /// Get the output colorspace the image pixels will be decoded into
    pub fn get_output_colorspace(&self) -> (c: ColorSpace)
        ensures
            c == self.options.out_colorspace,
    {
        self.options.get_out_colorspace()
    }

    /// This decoder with another output colour space and nothing else changed.
    pub open spec fn with_output_colorspace(self, colorspace: ColorSpace) -> Decoder {
        Decoder { options: ZuneJpegOptions { out_colorspace: colorspace, ..self.options }, ..self }
    }

    /// Set output colorspace to be RGBA; the same as
    /// `set_output_colorspace(ColorSpace::RGBA)`.
    pub fn rgba(&mut self)
        ensures
            *final(self) == old(self).with_output_colorspace(ColorSpace::RGBA),
    {
        self.options = self.options.set_out_colorspace(ColorSpace::RGBA);
    }

    /// Set the largest width and height the caller accepts.
    pub fn set_limits(&mut self, width: u16, height: u16)
        ensures
            *final(self) == (Decoder {
                options: ZuneJpegOptions { max_width: width, max_height: height, ..old(self).options },
                ..*old(self)
            }),
    {
        self.options = self.options.set_max_width(width).set_max_height(height);
    }

    /// Set the colour space of the decoded pixels.
    pub fn set_output_colorspace(&mut self, colorspace: ColorSpace)
        ensures
            *final(self) == old(self).with_output_colorspace(colorspace),
    {
        self.options = self.options.set_out_colorspace(colorspace);
    }

    /// Get the width of the image as a u16
    ///
    /// The width lies between 0 and 65535
    pub fn width(&self) -> (w: u16)
        ensures
            w == self.info.width,
    {
        self.info.width
    }

    /// Get the height of the image as a u16
    ///
    /// The height lies between 0 and 65535
    pub fn height(&self) -> (h: u16)
        ensures
            h == self.info.height,
    {
        self.info.height
    }

    /// Set the number of threads the decoder should use during decoding
    ///
    /// # Errors
    /// Errors when value is `0`
    pub fn set_num_threads(&mut self, threads: usize) -> (res: Result<(), DecodeErrors>)
        requires
            threads == 0 || threads as u32 != 0,
        ensures
            threads == 0 <==> (res matches Err(DecodeErrors::FormatStatic(_))),
            threads == 0 ==> res == Err::<(), DecodeErrors>(
                DecodeErrors::FormatStatic("Cannot set zero threads to decode image"),
            ),
            threads == 0 ==> *final(self) == *old(self),
            threads != 0 ==> res is Ok && *final(self) == (Decoder {
                options: ZuneJpegOptions {
                    num_threads: threads as u32,
                    ..old(self).options
                },
                ..*old(self)
            }),
    {
        if threads == 0 {
            return Err(DecodeErrors::FormatStatic("Cannot set zero threads to decode image"));
        }
        let t = #[verifier::truncate] (threads as u32);
        self.options = self.options.set_num_threads(t);
        Ok(())
    }
}

/// Setting the output colour space and reading it back gives the colour
/// space that was set; nothing else about the decoder changes, and its
/// well-formedness is kept.
pub proof fn lemma_output_colorspace_roundtrip(d: Decoder, c: ColorSpace)
    ensures
        d.with_output_colorspace(c).options.out_colorspace == c,
        d.with_output_colorspace(c).info == d.info,
        d.with_output_colorspace(c).components == d.components,
        d.wf() ==> d.with_output_colorspace(c).wf(),
{
}

/// The segment of marker `m`, read from `r` (after the marker's two bytes),
/// is one the decoder `d` accepts: a baseline or progressive frame header
/// whose records are valid and whose quantization tables were defined,
/// valid quantization or Huffman tables, a scan header whose components are
/// in the frame, a restart interval of four bytes, or a skipped segment with
/// a length of at least two.
pub open spec fn marker_ok(d: Decoder, r: ByteReader, m: Marker) -> bool {
    match m {
        Marker::SOF(k) => {
            &&& k == 0 || k == 2
            &&& sof_header_ok(r)
            &&& r.remaining() >= 8 + 3 * at(r, 7)
            &&& forall|i: int|
                0 <= i < at(r, 7) ==> record_valid(#[trigger] sof_record(r, i))
                    && d.qt_tables[sof_record(r, i).2 as int] is Some
        },
        Marker::DQT => dqt_segment(r.bytes(), r.pos(), qt_view(d.qt_tables)) is Ok,
        Marker::DHT => dht_segment(
            r.bytes(),
            r.pos(),
            huffman_view(d.dc_huffman_tables@),
            huffman_view(d.ac_huffman_tables@),
        ) is Ok,
        Marker::SOS => sos_header_ok(r) && sos_outcome(r, d.components@, d.info.sof) is Ok,
        Marker::DRI => r.remaining() >= 4 && be16_at(r, 0) == 4,
        Marker::APP(_) | Marker::RST(_) | Marker::COM | Marker::SOI => r.remaining() >= 2 && be16_at(r, 0)
            >= 2,
        _ => false,
    }
}

/// What an accepted segment of marker `m` read from `r` makes of the decoder
/// `d` (`d2`) and where it leaves the reader (`r2`).
pub open spec fn marker_effect(d: Decoder, r: ByteReader, m: Marker, d2: Decoder, r2: ByteReader) -> bool {
    &&& parse_step(d, d2, r, r2)
    &&& d2.options == d.options
    &&& match m {
        Marker::SOF(k) => {
            &&& r2.pos() == r.pos() + 8 + 3 * at(r, 7)
            &&& if k == 0 {
                &&& frame_update(d, d2)
                &&& frame_read(d, r, SOFMarkers::BaselineDct, d2)
            } else {
                &&& frame_update(Decoder { is_progressive: true, ..d }, d2)
                &&& frame_read(Decoder { is_progressive: true, ..d }, r, SOFMarkers::ProgressiveDctHuffman, d2)
            }
        },
        Marker::DQT => {
            &&& d2 == (Decoder { qt_tables: d2.qt_tables, ..d })
            &&& dqt_segment(r.bytes(), r.pos(), qt_view(d.qt_tables)) matches Ok((t, end))
            &&& qt_view(d2.qt_tables) == t
            &&& r2.pos() == end
        },
        Marker::DHT => {
            &&& d2 == (Decoder {
                dc_huffman_tables: d2.dc_huffman_tables,
                ac_huffman_tables: d2.ac_huffman_tables,
                ..d
            })
            &&& dht_segment(
                r.bytes(),
                r.pos(),
                huffman_view(d.dc_huffman_tables@),
                huffman_view(d.ac_huffman_tables@),
            ) matches Ok((dc, ac, end))
            &&& huffman_view(d2.dc_huffman_tables@) == dc
            &&& huffman_view(d2.ac_huffman_tables@) == ac
            &&& r2.pos() == end
        },
        Marker::SOS => sos_read(d, r, d2, r2),
        Marker::DRI => {
            &&& d2 == (Decoder { restart_interval: d2.restart_interval, todo: d2.todo, ..d })
            &&& d2.restart_interval == be16_at(r, 2)
            &&& d2.todo == d2.restart_interval
            &&& r2.pos() == r.pos() + 4
        },
        Marker::APP(_) | Marker::RST(_) | Marker::COM | Marker::SOI => {
            &&& d2 == d
            &&& r2.pos() == if r.remaining() < be16_at(r, 0) {
                r.bytes().len() as int
            } else {
                r.pos() + be16_at(r, 0)
            }
        },
        _ => true,
    }
}

/// `d` is a decoder with nothing read yet and the default options but for the
/// output colour space: no frame, no components, no quantization tables,
/// sampling factors of one, no restart interval, not strict.
pub open spec fn fresh_decoder(d: Decoder) -> bool {
    &&& d.wf()
    &&& d.info == default_info()
    &&& d.components@.len() == 0
    &&& d.h_max == 1 && d.v_max == 1
    &&& !d.interleaved
    &&& !d.is_progressive
    &&& d.restart_interval == 0
    &&& !d.options.strict_mode
    &&& forall|i: int| 0 <= i < MAX_COMPONENTS ==> #[trigger] d.qt_tables[i] is None
}

/// The headers at `p` of `b` on lead the decoder `d` to a start of scan
/// without error, `last` being the byte before and `cnt` the number of bytes
/// read since the last segment: a byte `0xFF` followed by a marker's code
/// starts a segment the decoder accepts (see `marker_ok`), and the headers
/// go on after it whatever state it leaves the decoder in (see
/// `marker_effect`), up to the start of scan, where `k` holds of every
/// state the scan header may leave the decoder and the reader in; after `0xFF`, another code
/// starts a segment of at least two bytes that is skipped; other bytes are
/// skipped, at most three in a row in strict mode.
pub open spec fn headers_then(
    d: Decoder,
    b: Seq<u8>,
    p: int,
    last: u8,
    cnt: int,
    k: spec_fn(Decoder, ByteReader) -> bool,
) -> bool
    decreases b.len() - p,
{
    if p < 0 || p >= b.len() {
        false
    } else {
        let m = b[p];
        if last == 0xFF {
            match spec_marker(m) {
                Some(n) => forall|r1: ByteReader|
                    r1.bytes() == b && r1.pos() == p + 1 ==> {
                        &&& #[trigger] marker_ok(d, r1, n)
                        &&& (n != Marker::SOS ==> forall|d2: Decoder, r2: ByteReader|
                            #[trigger] marker_effect(d, r1, n, d2, r2) && r2.pos() <= b.len() ==> headers_then(
                                d2,
                                b,
                                r2.pos(),
                                m,
                                1,
                                k,
                            ))
                        &&& (n == Marker::SOS ==> forall|d2: Decoder, r2: ByteReader|
                            #[trigger] marker_effect(d, r1, n, d2, r2) ==> k(d2, r2))
                    },
                None => {
                    let l = spec_be16(b[p + 1], b[p + 2]) as int;
                    &&& p + 3 <= b.len()
                    &&& l >= 2
                    &&& headers_then(
                        d,
                        b,
                        if b.len() - (p + 3) < l - 2 {
                            b.len() as int
                        } else {
                            p + 3 + l - 2
                        },
                        m,
                        1,
                        k,
                    )
                },
            }
        } else {
            &&& !(d.options.strict_mode && cnt + 1 > 3)
            &&& headers_then(d, b, p + 1, m, cnt + 1, k)
        }
    }
}

/// The headers at `p` of `b` on lead the decoder `d` to a start of scan
/// without error, and the scan header ends at `q` (see `headers_then`).
pub open spec fn headers_end_at(d: Decoder, b: Seq<u8>, p: int, q: int) -> bool {
    headers_then(d, b, p, 0, 0, |d2: Decoder, r2: ByteReader| r2.pos() == q)
}

/// The headers at `p` of `b` on lead the decoder `d` to a start of scan
/// without error (see `headers_then`).
pub open spec fn headers_ok(d: Decoder, b: Seq<u8>, p: int, last: u8, cnt: int) -> bool {
    headers_then(d, b, p, last, cnt, |d2: Decoder, r2: ByteReader| true)
}

/// The decoder `d`, its headers read and `r` at the start of the first
/// scan's data, decodes the image without error: the components' dimensions
/// agree, the sampling factors are handled, the image is not a grayscale one
/// with a down-sampled component, and the frame fits; a sequential image has
/// the tables of its components and a scan that decodes without error and
/// is determined by the data, whatever up-sampling routines are chosen; a
/// progressive image holds one such scan (see `is_lone_scan`).
pub open spec fn scan_decodable(d: Decoder, r: ByteReader) -> bool {
    &&& prepared_ok(d)
    &&& !(d.input_colorspace == ColorSpace::GRAYSCALE && d.interleaved)
    &&& d.frame_fits()
    &&& if d.is_progressive {
        is_lone_scan(d, r.bytes(), r.pos())
    } else {
        &&& d.tables_present(spec_num_components(d.input_colorspace) as int)
        &&& forall|d3: Decoder|
            #[trigger] upsampling_chosen(d, d3) ==> d3.frame_fits() && is_known_scan(d3, r.bytes(), r.pos())
    }
}

/// What the decoding after the headers asks of the state they leave (see
/// `scan_decodable`).
pub open spec fn decodable_after_headers() -> spec_fn(Decoder, ByteReader) -> bool {
    |d: Decoder, r: ByteReader| scan_decodable(d, r)
}

/// After the headers: the image information is `w`.
pub open spec fn info_is(w: ImageInfo) -> spec_fn(Decoder, ByteReader) -> bool {
    |d: Decoder, r: ByteReader| d.info == w
}

/// After the headers: a progressive frame, ready to decode, whose scans
/// decode into pixels that satisfy `k` (see `prog_decodes`).
pub open spec fn progressive_image(k: spec_fn(Decoder, Seq<u8>) -> bool) -> spec_fn(Decoder, ByteReader) -> bool {
    |d: Decoder, r: ByteReader|
        {
            &&& d.is_progressive
            &&& prepared_ok(d)
            &&& !(d.input_colorspace == ColorSpace::GRAYSCALE && d.interleaved)
            &&& d.frame_fits()
            &&& prog_decodes(d, r.bytes(), r.pos(), k)
        }
}

/// The data at `p` of `b` starts with the start-of-image bytes and no byte
/// after them is `0xFF`: no segment can start.
pub open spec fn no_marker_after_magic(b: Seq<u8>, p: int) -> bool {
    &&& 0 <= p
    &&& p + 2 <= b.len()
    &&& spec_be16(b[p], b[p + 1]) == 0xFFD8
    &&& forall|i: int| p + 2 <= i < b.len() ==> #[trigger] b[i] != 0xFF
}

/// The data at `p` of `b` starts with the start-of-image bytes, then `0xFF`,
/// a code that is not a marker's and a segment length below two.
pub open spec fn short_raw_segment(b: Seq<u8>, p: int) -> bool {
    &&& 0 <= p
    &&& p + 6 <= b.len()
    &&& spec_be16(b[p], b[p + 1]) == 0xFFD8
    &&& b[p + 2] == 0xFF
    &&& spec_marker(b[p + 3]) is None
    &&& spec_be16(b[p + 4], b[p + 5]) < 2
}

/// The data read from `r` starts with the start-of-image bytes, and the
/// headers after them lead the decoder `d` to a start of scan without error
/// (see `headers_ok`).
pub open spec fn headers_accepted(d: Decoder, r: ByteReader) -> bool {
    &&& r.remaining() >= 2
    &&& be16_at(r, 0) == 0xFFD8
    &&& headers_ok(d, r.bytes(), r.pos() + 2, 0, 0)
}

impl Decoder {
    /// Parse the segment of marker `m` (whose two bytes were read).
    ///
    /// Start of frame 0 (baseline) and 2 (progressive) are parsed; other
    /// frame kinds are refused. DQT, DHT and SOS headers are parsed, a
    /// restart interval is read from DRI; an end of image here, arithmetic
    /// coding conditions and a number of lines are errors. Other segments
    /// are skipped.
    pub fn parse_marker_inner(&mut self, m: Marker, reader: &mut ByteReader) -> (res: Result<
        (),
        DecodeErrors,
    >)
        requires
            old(self).wf(),
            old(reader).wf(),
        ensures
            parse_step(*old(self), *final(self), *old(reader), *final(reader)),
            m == Marker::SOS && res is Ok ==> 1 <= final(self).num_scans <= 3,
            m == Marker::EOI ==> (res matches Err(DecodeErrors::Format(_))),
            m == Marker::DAC || m == Marker::DNL ==> (res matches Err(DecodeErrors::Format(_))),
            m is SOF && m->SOF_0 != 0 && m->SOF_0 != 2 && spec_unsupported_scheme(m->SOF_0) is Some ==> res
                == Err::<(), DecodeErrors>(
                DecodeErrors::Unsupported(spec_unsupported_scheme(m->SOF_0).unwrap()),
            ),
            m is SOF && m->SOF_0 != 0 && m->SOF_0 != 2 && spec_unsupported_scheme(m->SOF_0) is None ==> (res matches Err(
                DecodeErrors::Format(_),
            )),
            m == Marker::SOF(2) ==> final(self).is_progressive,
            marker_ok(*old(self), *old(reader), m) ==> res is Ok,
            res is Ok ==> marker_effect(*old(self), *old(reader), m, *final(self), *final(reader)),
            res is Ok && !(m == Marker::SOF(0) || m == Marker::SOF(2)) ==> final(self).info == old(self).info,
            final(self).options == old(self).options,
            m == Marker::SOF(0) ==> frame_update(*old(self), *final(self)),
            m == Marker::SOF(2) ==> frame_update(
                Decoder { is_progressive: true, ..*old(self) },
                *final(self),
            ),
            (m == Marker::SOF(0) || m == Marker::SOF(2)) && sof_header_ok(*old(reader)) ==> (res is Ok
                <==> {
                &&& old(reader).remaining() >= 8 + 3 * at(*old(reader), 7)
                &&& forall|i: int|
                    0 <= i < at(*old(reader), 7) ==> record_valid(#[trigger] sof_record(*old(reader), i))
                        && old(self).qt_tables[sof_record(*old(reader), i).2 as int] is Some
            }),
            m == Marker::DQT ==> {
                &&& *final(self) == (Decoder { qt_tables: final(self).qt_tables, ..*old(self) })
                &&& match dqt_segment(old(reader).bytes(), old(reader).pos(), qt_view(old(self).qt_tables)) {
                    Ok((t, end)) => res is Ok && qt_view(final(self).qt_tables) == t && final(reader).pos()
                        == end,
                    Err(refused) => if refused {
                        res matches Err(DecodeErrors::DqtError(_))
                    } else {
                        res matches Err(DecodeErrors::Format(_))
                    },
                }
            },
            m == Marker::DHT ==> {
                &&& *final(self) == (Decoder {
                    dc_huffman_tables: final(self).dc_huffman_tables,
                    ac_huffman_tables: final(self).ac_huffman_tables,
                    ..*old(self)
                })
                &&& match dht_segment(
                    old(reader).bytes(),
                    old(reader).pos(),
                    huffman_view(old(self).dc_huffman_tables@),
                    huffman_view(old(self).ac_huffman_tables@),
                ) {
                    Ok((dc, ac, end)) => {
                        &&& res is Ok
                        &&& huffman_view(final(self).dc_huffman_tables@) == dc
                        &&& huffman_view(final(self).ac_huffman_tables@) == ac
                        &&& final(reader).pos() == end
                    },
                    Err(refused) => if refused {
                        res matches Err(DecodeErrors::HuffmanDecode(_))
                    } else {
                        res matches Err(DecodeErrors::Format(_))
                    },
                }
            },
            m == Marker::SOS ==> scan_update(*old(self), *final(self)),
            m == Marker::SOS && sos_header_ok(*old(reader)) ==> match sos_outcome(
                *old(reader),
                old(self).components@,
                old(self).info.sof,
            ) {
                Ok(_) => res is Ok,
                Err(header) => if header {
                    res matches Err(DecodeErrors::SosError(_))
                } else {
                    res matches Err(DecodeErrors::Format(_))
                },
            },
            m == Marker::DRI ==> {
                &&& *final(self) == (Decoder {
                    restart_interval: final(self).restart_interval,
                    todo: final(self).todo,
                    ..*old(self)
                })
                &&& old(reader).remaining() < 2 ==> (res matches Err(DecodeErrors::ExhaustedData))
                &&& old(reader).remaining() >= 2 && be16_at(*old(reader), 0) != 4 ==> (res matches Err(
                    DecodeErrors::Format(_),
                ))
                &&& old(reader).remaining() >= 2 && be16_at(*old(reader), 0) == 4 && old(reader).remaining()
                    < 4 ==> (res matches Err(DecodeErrors::ExhaustedData))
                &&& old(reader).remaining() >= 4 && be16_at(*old(reader), 0) == 4 ==> {
                    &&& res is Ok
                    &&& final(self).restart_interval == be16_at(*old(reader), 2)
                    &&& final(self).todo == final(self).restart_interval
                    &&& final(reader).pos() == old(reader).pos() + 4
                }
            },
            m is APP || m is RST || m == Marker::COM || m == Marker::SOI ==> {
                &&& *final(self) == *old(self)
                &&& old(reader).remaining() < 2 ==> (res matches Err(DecodeErrors::ExhaustedData))
                &&& old(reader).remaining() >= 2 && be16_at(*old(reader), 0) < 2 ==> (res matches Err(
                    DecodeErrors::Format(_),
                ))
                &&& old(reader).remaining() >= 2 && be16_at(*old(reader), 0) >= 2 ==> res is Ok && final(reader).pos() == if old(reader).remaining() < be16_at(*old(reader), 0) {
                    old(reader).bytes().len() as int
                } else {
                    old(reader).pos() + be16_at(*old(reader), 0)
                }
            },
    {
        match m {
            Marker::SOF(0) => {
                parse_start_of_frame(reader, SOFMarkers::BaselineDct, self)?;
            },
            Marker::SOF(2) => {
                self.is_progressive = true;
                parse_start_of_frame(reader, SOFMarkers::ProgressiveDctHuffman, self)?;
            },
            // Start of Frame Segments not supported
            Marker::SOF(v) => {
                let feature = UnsupportedSchemes::from_int(v);
                if let Some(feature) = feature {
                    return Err(DecodeErrors::Unsupported(feature));
                }
                return Err(DecodeErrors::Format(message("Unsupported image format")));
            },
            // Quantization tables
            Marker::DQT => {
                parse_dqt(self, reader)?;
            },
            // Huffman tables
            Marker::DHT => {
                parse_huffman(self, reader)?;
            },
            // Start of Scan Data
            Marker::SOS => {
                parse_sos(reader, self)?;
                // break after reading the start of scan.
                // what follows is the image data
                return Ok(());
            },
            Marker::EOI => {
                return Err(DecodeErrors::Format(message("Premature End of image")));
            },
            Marker::DAC | Marker::DNL => {
                return Err(
                    DecodeErrors::Format(
                        message("Parsing of the following header is not supported, cannot continue"),
                    ),
                );
            },
            Marker::DRI => {
                if read_u16_be(reader)? != 4 {
                    return Err(DecodeErrors::Format(message("Bad DRI length, Corrupt JPEG")));
                }
                self.restart_interval = read_u16_be(reader)? as usize;
                self.todo = self.restart_interval;
            },
            _ => {
                let length = read_u16_be(reader)?;
                if length < 2 {
                    return Err(
                        DecodeErrors::Format(
                            message_with_number("Found a marker with invalid length:", length as u64),
                        ),
                    );
                }
                reader.consume((length - 2) as usize);
            },
        }
        Ok(())
    }

    /// Decode JPEG headers
    ///
    /// This routine takes care of parsing supported headers from a JPEG
    /// image: after the start-of-image bytes, markers (a `0xFF` byte and the
    /// marker byte) and their segments up to and including the first start
    /// of scan. A byte pair that is not a known marker is skipped with its
    /// segment.
    pub fn decode_headers_internal(&mut self, reader: &mut ByteReader) -> (res: Result<
        (),
        DecodeErrors,
    >)
        requires
            old(self).wf(),
            old(reader).wf(),
        ensures
            final(self).wf(),
            final(reader).wf(),
            final(reader).bytes() == old(reader).bytes(),
            old(reader).remaining() < 2 ==> (res matches Err(DecodeErrors::ExhaustedData)),
            old(reader).remaining() >= 2 && be16_at(*old(reader), 0) != 0xFFD8 ==> res == Err::<
                (),
                DecodeErrors,
            >(DecodeErrors::IllegalMagicBytes(be16_at(*old(reader), 0))),
            res is Ok ==> 1 <= final(self).num_scans <= 3,
            final(self).options == old(self).options,
            old(reader).remaining() < 2 || be16_at(*old(reader), 0) != 0xFFD8 ==> *final(self) == *old(self),
            headers_accepted(*old(self), *old(reader)) ==> res is Ok,
            no_marker_after_magic(old(reader).bytes(), old(reader).pos()) && !old(self).options.strict_mode
                ==> (res matches Err(DecodeErrors::Format(_))),
            short_raw_segment(old(reader).bytes(), old(reader).pos()) ==> (res matches Err(
                DecodeErrors::Format(s),
            ) && s@ == "Got marker with invalid raw size "@ + spec_decimal(be16_at(*old(reader), 4) as nat)),
            forall|k: spec_fn(Decoder, ByteReader) -> bool|
                old(reader).remaining() >= 2 && be16_at(*old(reader), 0) == 0xFFD8 && #[trigger] headers_then(
                    *old(self),
                    old(reader).bytes(),
                    old(reader).pos() + 2,
                    0,
                    0,
                    k,
                ) ==> res is Ok && k(*final(self), *final(reader)),
    {
        // First two bytes should be jpeg soi marker
        let magic_bytes = read_u16_be(reader)?;
        let mut last_byte: u8 = 0;
        let mut bytes_before_marker: usize = 0;
        if magic_bytes != 0xffd8 {
            return Err(DecodeErrors::IllegalMagicBytes(magic_bytes));
        }
        assert(headers_accepted(*old(self), *old(reader)) ==> headers_ok(
            *self,
            reader.bytes(),
            reader.pos(),
            0,
            0,
        ));
        loop
            invariant
                forall|k: spec_fn(Decoder, ByteReader) -> bool|
                    #[trigger] headers_then(*old(self), old(reader).bytes(), old(reader).pos() + 2, 0, 0, k)
                        ==> headers_then(
                        *self,
                        reader.bytes(),
                        reader.pos(),
                        last_byte,
                        bytes_before_marker as int,
                        k,
                    ),
                no_marker_after_magic(old(reader).bytes(), old(reader).pos()) ==> last_byte != 0xFF && (forall|i: int|
                    old(reader).pos() + 2 <= i < reader.bytes().len() ==> #[trigger] reader.bytes()[i] != 0xFF)
                    && reader.pos() >= old(reader).pos() + 2,
                short_raw_segment(old(reader).bytes(), old(reader).pos()) ==> (reader.pos() == old(reader).pos() + 2 && last_byte == 0
                    && bytes_before_marker == 0) || (reader.pos() == old(reader).pos() + 3 && last_byte == 0xFF
                    && bytes_before_marker == 1),
                headers_accepted(*old(self), *old(reader)) ==> headers_ok(
                    *self,
                    reader.bytes(),
                    reader.pos(),
                    last_byte,
                    bytes_before_marker as int,
                ),
                self.wf(),
                reader.wf(),
                reader.bytes() == old(reader).bytes(),
                old(reader).remaining() >= 2,
                be16_at(*old(reader), 0) == 0xFFD8,
                bytes_before_marker <= reader.pos(),
                self.options == old(self).options,
            decreases reader.remaining(),
        {
            let ghost acc = headers_accepted(*old(self), *old(reader));
            let ghost d0 = *self;
            let ghost r0 = *reader;
            let ghost cnt0 = bytes_before_marker as int;
            let ghost last0 = last_byte;
            assert(forall|k: spec_fn(Decoder, ByteReader) -> bool|
                #[trigger] headers_then(*old(self), old(reader).bytes(), old(reader).pos() + 2, 0, 0, k)
                    ==> headers_then(d0, r0.bytes(), r0.pos(), last0, cnt0, k));
            // read a byte
            let m = read_byte(reader)?;
            // Last byte should be 0xFF to confirm existence of a marker since markers look
            // like OxFF(some marker data)
            if last_byte == 0xFF {
                let marker = Marker::from_u8(m);
                bytes_before_marker = 0;
                if let Some(n) = marker {
                    assert(acc ==> marker_ok(*self, *reader, n));
                    let ghost d1 = *self;
                    let ghost r1 = *reader;
                    self.parse_marker_inner(n, reader)?;
                    assert(marker_effect(d1, r1, n, *self, *reader));
                    if n == Marker::SOS {
                        assert forall|k: spec_fn(Decoder, ByteReader) -> bool|
                            #[trigger] headers_then(*old(self), old(reader).bytes(), old(reader).pos() + 2, 0, 0, k)
                            implies k(*self, *reader) by {
                            assert(headers_then(d0, r0.bytes(), r0.pos(), last_byte, cnt0, k));
                            assert(d1 == d0 && r1.bytes() == r0.bytes() && r1.pos() == r0.pos() + 1);
                            assert(m == r0.bytes()[r0.pos()] && spec_marker(m) == Some(n));
                            assert(marker_ok(d0, r1, n));
                            assert(marker_effect(d0, r1, n, *self, *reader));
                        }
                        return Ok(());
                    }
                    assert(acc ==> headers_ok(*self, reader.bytes(), reader.pos(), m, 1));
                    assert forall|k: spec_fn(Decoder, ByteReader) -> bool|
                        #[trigger] headers_then(*old(self), old(reader).bytes(), old(reader).pos() + 2, 0, 0, k)
                        implies headers_then(*self, reader.bytes(), reader.pos(), m, 1, k) by {
                        assert(headers_then(d0, r0.bytes(), r0.pos(), last_byte, cnt0, k));
                        assert(d1 == d0 && r1.bytes() == r0.bytes() && r1.pos() == r0.pos() + 1);
                        assert(m == r0.bytes()[r0.pos()] && spec_marker(m) == Some(n));
                        assert(marker_ok(d0, r1, n));
                        assert(marker_effect(d0, r1, n, *self, *reader));
                    }
                } else {
                    let length = read_u16_be(reader)?;
                    if length < 2 {
                        return Err(
                            DecodeErrors::Format(
                                message_with_number("Got marker with invalid raw size ", length as u64),
                            ),
                        );
                    }
                    reader.consume((length - 2) as usize);
                    assert(acc ==> headers_ok(*self, reader.bytes(), reader.pos(), m, 1));
                    assert forall|k: spec_fn(Decoder, ByteReader) -> bool|
                        #[trigger] headers_then(*old(self), old(reader).bytes(), old(reader).pos() + 2, 0, 0, k)
                        implies headers_then(*self, reader.bytes(), reader.pos(), m, 1, k) by {
                        assert(headers_then(d0, r0.bytes(), r0.pos(), last_byte, cnt0, k));
                    }
                }
            } else {
                assert(acc ==> headers_ok(*self, reader.bytes(), reader.pos(), m, cnt0 + 1));
                assert forall|k: spec_fn(Decoder, ByteReader) -> bool|
                    #[trigger] headers_then(*old(self), old(reader).bytes(), old(reader).pos() + 2, 0, 0, k)
                    implies headers_then(*self, reader.bytes(), reader.pos(), m, cnt0 + 1, k) by {
                    assert(headers_then(d0, r0.bytes(), r0.pos(), last_byte, cnt0, k));
                }
            }
            last_byte = m;
            bytes_before_marker += 1;
            if self.options.get_strict_mode() && bytes_before_marker > 3 {
                return Err(DecodeErrors::FormatStatic("[strict-mode]: Extra bytes between headers"));
            }
        }
    }

    /// Read only headers from a jpeg image buffer
    ///
    /// This allows you to extract important information like image width and
    /// height without decoding the full image.
    pub fn read_headers(&mut self, buf: &[u8]) -> (res: Result<(), DecodeErrors>)
        requires
            old(self).wf(),
        ensures
            final(self).wf(),
            buf@.len() < 2 ==> (res matches Err(DecodeErrors::ExhaustedData)),
            buf@.len() >= 2 && spec_be16(buf@[0], buf@[1]) != 0xFFD8 ==> res == Err::<
                (),
                DecodeErrors,
            >(DecodeErrors::IllegalMagicBytes(spec_be16(buf@[0], buf@[1]))),
            buf@.len() < 2 || spec_be16(buf@[0], buf@[1]) != 0xFFD8 ==> *final(self) == *old(self),
            buf@.len() >= 2 && spec_be16(buf@[0], buf@[1]) == 0xFFD8 && headers_ok(*old(self), buf@, 2, 0, 0)
                ==> res is Ok,
            res is Ok ==> 1 <= final(self).num_scans <= 3,
            final(self).options == old(self).options,
    {
        let mut reader = ByteReader::from_slice(buf);
        self.decode_headers_internal(&mut reader)?;
        Ok(())
    }

    /// Decode a buffer already in memory
    ///
    /// The buffer should be a valid jpeg file. The pixels come row by row,
    /// each with the bytes of the output colour space.
    ///
    /// # Errors
    /// See DecodeErrors for an explanation
    pub fn decode_buffer(&mut self, buf: &[u8]) -> (res: Result<Vec<u8>, DecodeErrors>)
        requires
            old(self).wf(),
        ensures
            final(self).wf(),
            buf@.len() < 2 ==> (res matches Err(DecodeErrors::ExhaustedData)),
            buf@.len() >= 2 && spec_be16(buf@[0], buf@[1]) != 0xFFD8 ==> res == Err::<
                Vec<u8>,
                DecodeErrors,
            >(DecodeErrors::IllegalMagicBytes(spec_be16(buf@[0], buf@[1]))),
            buf@.len() < 2 || spec_be16(buf@[0], buf@[1]) != 0xFFD8 ==> *final(self) == *old(self),
            res matches Ok(v) ==> v@.len() == final(self).info.width * final(self).info.height
                * spec_num_components(final(self).options.out_colorspace),
            res matches Ok(v) ==> is_decoded_image(*final(self), v@),
            res matches Ok(v) ==> (!final(self).is_progressive ==> exists|p: int|
                0 <= p <= buf@.len() && #[trigger] is_scan_outcome(*final(self), buf@, p, v@)),
            res matches Ok(v) ==> (!final(self).is_progressive && final(self).todo > 0x40_0000 ==> exists|p: int|
                0 <= p <= buf@.len() && #[trigger] is_scanned_image(*final(self), buf@, p, v@)),
            forall|w: ImageInfo|
                buf@.len() >= 2 && spec_be16(buf@[0], buf@[1]) == 0xFFD8 && #[trigger] headers_then(
                    *old(self),
                    buf@,
                    2,
                    0,
                    0,
                    info_is(w),
                ) ==> final(self).info == w,
            forall|k: spec_fn(Decoder, Seq<u8>) -> bool|
                buf@.len() >= 2 && spec_be16(buf@[0], buf@[1]) == 0xFFD8 && #[trigger] headers_then(
                    *old(self),
                    buf@,
                    2,
                    0,
                    0,
                    progressive_image(k),
                ) ==> (res matches Ok(v) && k(*final(self), v@)),
            forall|q: int|
                buf@.len() >= 2 && spec_be16(buf@[0], buf@[1]) == 0xFFD8 && #[trigger] headers_end_at(
                    *old(self),
                    buf@,
                    2,
                    q,
                ) ==> (res matches Ok(v) ==> (!final(self).is_progressive ==> is_scan_outcome(
                    *final(self),
                    buf@,
                    q,
                    v@,
                ))),
            buf@.len() >= 2 && spec_be16(buf@[0], buf@[1]) == 0xFFD8 && headers_then(
                *old(self),
                buf@,
                2,
                0,
                0,
                decodable_after_headers(),
            ) ==> res is Ok,
            no_marker_after_magic(buf@, 0) && !old(self).options.strict_mode ==> (res matches Err(
                DecodeErrors::Format(_),
            )),
            short_raw_segment(buf@, 0) ==> (res matches Err(DecodeErrors::Format(s)) && s@
                == "Got marker with invalid raw size "@ + spec_decimal(spec_be16(buf@[4], buf@[5]) as nat)),
            final(self).options == old(self).options || final(self).options == (ZuneJpegOptions {
                out_colorspace: ColorSpace::GRAYSCALE,
                ..old(self).options
            }),
    {
        let mut reader = ByteReader::from_slice(buf);
        self.decode_internal(&mut reader)
    }

    /// Decode the headers, then the scans, from the reader's position.
    pub fn decode_internal(&mut self, reader: &mut ByteReader) -> (res: Result<Vec<u8>, DecodeErrors>)
        requires
            old(self).wf(),
            old(reader).wf(),
        ensures
            final(self).wf(),
            final(reader).wf(),
            final(reader).bytes() == old(reader).bytes(),
            old(reader).remaining() < 2 ==> (res matches Err(DecodeErrors::ExhaustedData)),
            old(reader).remaining() >= 2 && be16_at(*old(reader), 0) != 0xFFD8 ==> res == Err::<
                Vec<u8>,
                DecodeErrors,
            >(DecodeErrors::IllegalMagicBytes(be16_at(*old(reader), 0))),
            old(reader).remaining() < 2 || be16_at(*old(reader), 0) != 0xFFD8 ==> *final(self) == *old(self),
            res matches Ok(v) ==> v@.len() == final(self).info.width * final(self).info.height
                * spec_num_components(final(self).options.out_colorspace),
            res matches Ok(v) ==> is_decoded_image(*final(self), v@),
            res matches Ok(v) ==> (!final(self).is_progressive ==> exists|p: int|
                0 <= p <= old(reader).bytes().len() && #[trigger] is_scan_outcome(
                    *final(self),
                    old(reader).bytes(),
                    p,
                    v@,
                )),
            res matches Ok(v) ==> (!final(self).is_progressive && final(self).todo > 0x40_0000 ==> exists|p: int|
                0 <= p <= old(reader).bytes().len() && #[trigger] is_scanned_image(
                    *final(self),
                    old(reader).bytes(),
                    p,
                    v@,
                )),
            forall|w: ImageInfo|
                old(reader).remaining() >= 2 && be16_at(*old(reader), 0) == 0xFFD8 && #[trigger] headers_then(
                    *old(self),
                    old(reader).bytes(),
                    old(reader).pos() + 2,
                    0,
                    0,
                    info_is(w),
                ) ==> final(self).info == w,
            forall|k: spec_fn(Decoder, Seq<u8>) -> bool|
                old(reader).remaining() >= 2 && be16_at(*old(reader), 0) == 0xFFD8 && #[trigger] headers_then(
                    *old(self),
                    old(reader).bytes(),
                    old(reader).pos() + 2,
                    0,
                    0,
                    progressive_image(k),
                ) ==> (res matches Ok(v) && k(*final(self), v@)),
            forall|q: int|
                old(reader).remaining() >= 2 && be16_at(*old(reader), 0) == 0xFFD8 && #[trigger] headers_end_at(
                    *old(self),
                    old(reader).bytes(),
                    old(reader).pos() + 2,
                    q,
                ) ==> (res matches Ok(v) ==> (!final(self).is_progressive ==> is_scan_outcome(
                    *final(self),
                    old(reader).bytes(),
                    q,
                    v@,
                ))),
            old(reader).remaining() >= 2 && be16_at(*old(reader), 0) == 0xFFD8 && headers_then(
                *old(self),
                old(reader).bytes(),
                old(reader).pos() + 2,
                0,
                0,
                decodable_after_headers(),
            ) ==> res is Ok,
            no_marker_after_magic(old(reader).bytes(), old(reader).pos()) && !old(self).options.strict_mode
                ==> (res matches Err(DecodeErrors::Format(_))),
            short_raw_segment(old(reader).bytes(), old(reader).pos()) ==> (res matches Err(
                DecodeErrors::Format(s),
            ) && s@ == "Got marker with invalid raw size "@ + spec_decimal(be16_at(*old(reader), 4) as nat)),
            final(self).options == old(self).options || final(self).options == (ZuneJpegOptions {
                out_colorspace: ColorSpace::GRAYSCALE,
                ..old(self).options
            }),
    {
        match self.decode_headers_internal(reader) {
            Ok(()) => {},
            Err(e) => {
                return Err(e);
            },
        }
        let ghost r_headers = *reader;
        assert forall|q: int|
            old(reader).remaining() >= 2 && be16_at(*old(reader), 0) == 0xFFD8 && #[trigger] headers_end_at(
                *old(self),
                old(reader).bytes(),
                old(reader).pos() + 2,
                q,
            ) implies r_headers.pos() == q by {
            let k = |d2: Decoder, r2: ByteReader| r2.pos() == q;
            assert(headers_then(*old(self), old(reader).bytes(), old(reader).pos() + 2, 0, 0, k));
        }
        proof {
            assert forall|k: spec_fn(Decoder, Seq<u8>) -> bool|
                old(reader).remaining() >= 2 && be16_at(*old(reader), 0) == 0xFFD8 && #[trigger] headers_then(
                    *old(self),
                    old(reader).bytes(),
                    old(reader).pos() + 2,
                    0,
                    0,
                    progressive_image(k),
                ) implies progressive_image(k)(*self, r_headers) by {}
            assert forall|w: ImageInfo|
                old(reader).remaining() >= 2 && be16_at(*old(reader), 0) == 0xFFD8 && #[trigger] headers_then(
                    *old(self),
                    old(reader).bytes(),
                    old(reader).pos() + 2,
                    0,
                    0,
                    info_is(w),
                ) implies self.info == w by {}
        }
        if self.is_progressive {
            self.decode_mcu_ycbcr_progressive(reader)
        } else {
            let ghost r1 = *reader;
            let res = self.decode_mcu_ycbcr_baseline(reader);
            assert(res matches Ok(v) ==> is_scan_outcome(*self, r1.bytes(), r1.pos(), v@));
            assert(res matches Ok(v) ==> (self.todo > 0x40_0000 ==> is_scanned_image(
                *self,
                r1.bytes(),
                r1.pos(),
                v@,
            )));
            res
        }
    }
}

} // verus!
