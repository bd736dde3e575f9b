//! Small shared items: constants, colour spaces, frame kinds and a byte reader.
use vstd::prelude::*;

use crate::errors::{message, DecodeErrors};

verus! {

/// Start of baseline DCT Huffman coding
pub const START_OF_FRAME_BASE: u16 = 0xffc0;

/// Start of another frame
pub const START_OF_FRAME_EXT_SEQ: u16 = 0xffc1;

/// Start of progressive DCT encoding
pub const START_OF_FRAME_PROG_DCT: u16 = 0xffc2;

/// Start of Lossless sequential Huffman coding
pub const START_OF_FRAME_LOS_SEQ: u16 = 0xffc3;

/// Start of extended sequential DCT arithmetic coding
pub const START_OF_FRAME_EXT_AR: u16 = 0xffc9;

/// Start of Progressive DCT arithmetic coding
pub const START_OF_FRAME_PROG_DCT_AR: u16 = 0xffca;

/// Start of Lossless sequential Arithmetic coding
pub const START_OF_FRAME_LOS_SEQ_AR: u16 = 0xffcb;

/// Undo run length encoding of coefficients by placing them in natural order.
///
/// The last sixteen entries point at the last coefficient so that a corrupt run
/// can never index past a block.
pub const UN_ZIGZAG: [usize; 80] = [
    0, 1, 8, 16, 9, 2, 3, 10,
    17, 24, 32, 25, 18, 11, 4, 5,
    12, 19, 26, 33, 40, 48, 41, 34,
    27, 20, 13, 6, 7, 14, 21, 28,
    35, 42, 49, 56, 57, 50, 43, 36,
    29, 22, 15, 23, 30, 37, 44, 51,
    58, 59, 52, 45, 38, 31, 39, 46,
    53, 60, 61, 54, 47, 55, 62, 63,
    63, 63, 63, 63, 63, 63, 63, 63,
    63, 63, 63, 63, 63, 63, 63, 63,
];

/// Every entry of the un-zig-zag table lies inside an 8x8 block.
pub proof fn lemma_un_zigzag_in_block()
    ensures
        UN_ZIGZAG@.len() == 80,
        forall|i: int| 0 <= i < 80 ==> #[trigger] UN_ZIGZAG@[i] < 64,
{
    assert(UN_ZIGZAG@.len() == 80);
    assert forall|i: int| 0 <= i < 80 implies #[trigger] UN_ZIGZAG@[i] < 64 by {
        assert(UN_ZIGZAG@[i] < 64);
    }
}

/// Zig-zag position of the coefficient at natural position `n` of a block.
pub open spec fn spec_zigzag_of(n: int) -> int {
    seq![
        0, 1, 5, 6, 14, 15, 27, 28,
        2, 4, 7, 13, 16, 26, 29, 42,
        3, 8, 12, 17, 25, 30, 41, 43,
        9, 11, 18, 24, 31, 40, 44, 53,
        10, 19, 23, 32, 39, 45, 52, 54,
        20, 22, 33, 38, 46, 51, 55, 60,
        21, 34, 37, 47, 50, 56, 59, 61,
        35, 36, 48, 49, 57, 58, 62, 63,
    ][n]
}

/// The first 64 entries of the un-zig-zag table are a permutation of the
/// block: `spec_zigzag_of` undoes them, so no two of them are equal.
pub proof fn lemma_un_zigzag_injective()
    ensures
        forall|i: int| 0 <= i < 64 ==> spec_zigzag_of(#[trigger] UN_ZIGZAG@[i] as int) == i,
        forall|i: int, j: int|
            0 <= i < 64 && 0 <= j < 64 && i != j ==> #[trigger] UN_ZIGZAG@[i] != #[trigger] UN_ZIGZAG@[j],
{
    assert(spec_zigzag_of(UN_ZIGZAG@[0] as int) == 0);
    assert(spec_zigzag_of(UN_ZIGZAG@[1] as int) == 1);
    assert(spec_zigzag_of(UN_ZIGZAG@[2] as int) == 2);
    assert(spec_zigzag_of(UN_ZIGZAG@[3] as int) == 3);
    assert(spec_zigzag_of(UN_ZIGZAG@[4] as int) == 4);
    assert(spec_zigzag_of(UN_ZIGZAG@[5] as int) == 5);
    assert(spec_zigzag_of(UN_ZIGZAG@[6] as int) == 6);
    assert(spec_zigzag_of(UN_ZIGZAG@[7] as int) == 7);
    assert(spec_zigzag_of(UN_ZIGZAG@[8] as int) == 8);
    assert(spec_zigzag_of(UN_ZIGZAG@[9] as int) == 9);
    assert(spec_zigzag_of(UN_ZIGZAG@[10] as int) == 10);
    assert(spec_zigzag_of(UN_ZIGZAG@[11] as int) == 11);
    assert(spec_zigzag_of(UN_ZIGZAG@[12] as int) == 12);
    assert(spec_zigzag_of(UN_ZIGZAG@[13] as int) == 13);
    assert(spec_zigzag_of(UN_ZIGZAG@[14] as int) == 14);
    assert(spec_zigzag_of(UN_ZIGZAG@[15] as int) == 15);
    assert(spec_zigzag_of(UN_ZIGZAG@[16] as int) == 16);
    assert(spec_zigzag_of(UN_ZIGZAG@[17] as int) == 17);
    assert(spec_zigzag_of(UN_ZIGZAG@[18] as int) == 18);
    assert(spec_zigzag_of(UN_ZIGZAG@[19] as int) == 19);
    assert(spec_zigzag_of(UN_ZIGZAG@[20] as int) == 20);
    assert(spec_zigzag_of(UN_ZIGZAG@[21] as int) == 21);
    assert(spec_zigzag_of(UN_ZIGZAG@[22] as int) == 22);
    assert(spec_zigzag_of(UN_ZIGZAG@[23] as int) == 23);
    assert(spec_zigzag_of(UN_ZIGZAG@[24] as int) == 24);
    assert(spec_zigzag_of(UN_ZIGZAG@[25] as int) == 25);
    assert(spec_zigzag_of(UN_ZIGZAG@[26] as int) == 26);
    assert(spec_zigzag_of(UN_ZIGZAG@[27] as int) == 27);
    assert(spec_zigzag_of(UN_ZIGZAG@[28] as int) == 28);
    assert(spec_zigzag_of(UN_ZIGZAG@[29] as int) == 29);
    assert(spec_zigzag_of(UN_ZIGZAG@[30] as int) == 30);
    assert(spec_zigzag_of(UN_ZIGZAG@[31] as int) == 31);
    assert(spec_zigzag_of(UN_ZIGZAG@[32] as int) == 32);
    assert(spec_zigzag_of(UN_ZIGZAG@[33] as int) == 33);
    assert(spec_zigzag_of(UN_ZIGZAG@[34] as int) == 34);
    assert(spec_zigzag_of(UN_ZIGZAG@[35] as int) == 35);
    assert(spec_zigzag_of(UN_ZIGZAG@[36] as int) == 36);
    assert(spec_zigzag_of(UN_ZIGZAG@[37] as int) == 37);
    assert(spec_zigzag_of(UN_ZIGZAG@[38] as int) == 38);
    assert(spec_zigzag_of(UN_ZIGZAG@[39] as int) == 39);
    assert(spec_zigzag_of(UN_ZIGZAG@[40] as int) == 40);
    assert(spec_zigzag_of(UN_ZIGZAG@[41] as int) == 41);
    assert(spec_zigzag_of(UN_ZIGZAG@[42] as int) == 42);
    assert(spec_zigzag_of(UN_ZIGZAG@[43] as int) == 43);
    assert(spec_zigzag_of(UN_ZIGZAG@[44] as int) == 44);
    assert(spec_zigzag_of(UN_ZIGZAG@[45] as int) == 45);
    assert(spec_zigzag_of(UN_ZIGZAG@[46] as int) == 46);
    assert(spec_zigzag_of(UN_ZIGZAG@[47] as int) == 47);
    assert(spec_zigzag_of(UN_ZIGZAG@[48] as int) == 48);
    assert(spec_zigzag_of(UN_ZIGZAG@[49] as int) == 49);
    assert(spec_zigzag_of(UN_ZIGZAG@[50] as int) == 50);
    assert(spec_zigzag_of(UN_ZIGZAG@[51] as int) == 51);
    assert(spec_zigzag_of(UN_ZIGZAG@[52] as int) == 52);
    assert(spec_zigzag_of(UN_ZIGZAG@[53] as int) == 53);
    assert(spec_zigzag_of(UN_ZIGZAG@[54] as int) == 54);
    assert(spec_zigzag_of(UN_ZIGZAG@[55] as int) == 55);
    assert(spec_zigzag_of(UN_ZIGZAG@[56] as int) == 56);
    assert(spec_zigzag_of(UN_ZIGZAG@[57] as int) == 57);
    assert(spec_zigzag_of(UN_ZIGZAG@[58] as int) == 58);
    assert(spec_zigzag_of(UN_ZIGZAG@[59] as int) == 59);
    assert(spec_zigzag_of(UN_ZIGZAG@[60] as int) == 60);
    assert(spec_zigzag_of(UN_ZIGZAG@[61] as int) == 61);
    assert(spec_zigzag_of(UN_ZIGZAG@[62] as int) == 62);
    assert(spec_zigzag_of(UN_ZIGZAG@[63] as int) == 63);
    assert forall|i: int| 0 <= i < 64 implies spec_zigzag_of(#[trigger] UN_ZIGZAG@[i] as int) == i by {
        assert(0 <= i < 64);
    }
}

/// The entries from the last coefficient on all point at it.
pub proof fn lemma_un_zigzag_tail()
    ensures
        forall|p: int| 63 <= p < 80 ==> #[trigger] UN_ZIGZAG@[p] == 63,
{
    assert(UN_ZIGZAG@[63] == 63);
    assert(UN_ZIGZAG@[64] == 63);
    assert(UN_ZIGZAG@[65] == 63);
    assert(UN_ZIGZAG@[66] == 63);
    assert(UN_ZIGZAG@[67] == 63);
    assert(UN_ZIGZAG@[68] == 63);
    assert(UN_ZIGZAG@[69] == 63);
    assert(UN_ZIGZAG@[70] == 63);
    assert(UN_ZIGZAG@[71] == 63);
    assert(UN_ZIGZAG@[72] == 63);
    assert(UN_ZIGZAG@[73] == 63);
    assert(UN_ZIGZAG@[74] == 63);
    assert(UN_ZIGZAG@[75] == 63);
    assert(UN_ZIGZAG@[76] == 63);
    assert(UN_ZIGZAG@[77] == 63);
    assert(UN_ZIGZAG@[78] == 63);
    assert(UN_ZIGZAG@[79] == 63);
    assert forall|p: int| 63 <= p < 80 implies #[trigger] UN_ZIGZAG@[p] == 63 by {
        assert(63 <= p < 80);
    }
}

/// Each natural position of a block is where the entry of the un-zig-zag
/// table at its zig-zag position points.
pub proof fn lemma_zigzag_inverse()
    ensures
        forall|n: int|
            0 <= n < 64 ==> 0 <= #[trigger] spec_zigzag_of(n) < 64 && UN_ZIGZAG@[spec_zigzag_of(n)] == n,
{
    assert(UN_ZIGZAG@[spec_zigzag_of(0)] == 0);
    assert(UN_ZIGZAG@[spec_zigzag_of(1)] == 1);
    assert(UN_ZIGZAG@[spec_zigzag_of(2)] == 2);
    assert(UN_ZIGZAG@[spec_zigzag_of(3)] == 3);
    assert(UN_ZIGZAG@[spec_zigzag_of(4)] == 4);
    assert(UN_ZIGZAG@[spec_zigzag_of(5)] == 5);
    assert(UN_ZIGZAG@[spec_zigzag_of(6)] == 6);
    assert(UN_ZIGZAG@[spec_zigzag_of(7)] == 7);
    assert(UN_ZIGZAG@[spec_zigzag_of(8)] == 8);
    assert(UN_ZIGZAG@[spec_zigzag_of(9)] == 9);
    assert(UN_ZIGZAG@[spec_zigzag_of(10)] == 10);
    assert(UN_ZIGZAG@[spec_zigzag_of(11)] == 11);
    assert(UN_ZIGZAG@[spec_zigzag_of(12)] == 12);
    assert(UN_ZIGZAG@[spec_zigzag_of(13)] == 13);
    assert(UN_ZIGZAG@[spec_zigzag_of(14)] == 14);
    assert(UN_ZIGZAG@[spec_zigzag_of(15)] == 15);
    assert(UN_ZIGZAG@[spec_zigzag_of(16)] == 16);
    assert(UN_ZIGZAG@[spec_zigzag_of(17)] == 17);
    assert(UN_ZIGZAG@[spec_zigzag_of(18)] == 18);
    assert(UN_ZIGZAG@[spec_zigzag_of(19)] == 19);
    assert(UN_ZIGZAG@[spec_zigzag_of(20)] == 20);
    assert(UN_ZIGZAG@[spec_zigzag_of(21)] == 21);
    assert(UN_ZIGZAG@[spec_zigzag_of(22)] == 22);
    assert(UN_ZIGZAG@[spec_zigzag_of(23)] == 23);
    assert(UN_ZIGZAG@[spec_zigzag_of(24)] == 24);
    assert(UN_ZIGZAG@[spec_zigzag_of(25)] == 25);
    assert(UN_ZIGZAG@[spec_zigzag_of(26)] == 26);
    assert(UN_ZIGZAG@[spec_zigzag_of(27)] == 27);
    assert(UN_ZIGZAG@[spec_zigzag_of(28)] == 28);
    assert(UN_ZIGZAG@[spec_zigzag_of(29)] == 29);
    assert(UN_ZIGZAG@[spec_zigzag_of(30)] == 30);
    assert(UN_ZIGZAG@[spec_zigzag_of(31)] == 31);
    assert(UN_ZIGZAG@[spec_zigzag_of(32)] == 32);
    assert(UN_ZIGZAG@[spec_zigzag_of(33)] == 33);
    assert(UN_ZIGZAG@[spec_zigzag_of(34)] == 34);
    assert(UN_ZIGZAG@[spec_zigzag_of(35)] == 35);
    assert(UN_ZIGZAG@[spec_zigzag_of(36)] == 36);
    assert(UN_ZIGZAG@[spec_zigzag_of(37)] == 37);
    assert(UN_ZIGZAG@[spec_zigzag_of(38)] == 38);
    assert(UN_ZIGZAG@[spec_zigzag_of(39)] == 39);
    assert(UN_ZIGZAG@[spec_zigzag_of(40)] == 40);
    assert(UN_ZIGZAG@[spec_zigzag_of(41)] == 41);
    assert(UN_ZIGZAG@[spec_zigzag_of(42)] == 42);
    assert(UN_ZIGZAG@[spec_zigzag_of(43)] == 43);
    assert(UN_ZIGZAG@[spec_zigzag_of(44)] == 44);
    assert(UN_ZIGZAG@[spec_zigzag_of(45)] == 45);
    assert(UN_ZIGZAG@[spec_zigzag_of(46)] == 46);
    assert(UN_ZIGZAG@[spec_zigzag_of(47)] == 47);
    assert(UN_ZIGZAG@[spec_zigzag_of(48)] == 48);
    assert(UN_ZIGZAG@[spec_zigzag_of(49)] == 49);
    assert(UN_ZIGZAG@[spec_zigzag_of(50)] == 50);
    assert(UN_ZIGZAG@[spec_zigzag_of(51)] == 51);
    assert(UN_ZIGZAG@[spec_zigzag_of(52)] == 52);
    assert(UN_ZIGZAG@[spec_zigzag_of(53)] == 53);
    assert(UN_ZIGZAG@[spec_zigzag_of(54)] == 54);
    assert(UN_ZIGZAG@[spec_zigzag_of(55)] == 55);
    assert(UN_ZIGZAG@[spec_zigzag_of(56)] == 56);
    assert(UN_ZIGZAG@[spec_zigzag_of(57)] == 57);
    assert(UN_ZIGZAG@[spec_zigzag_of(58)] == 58);
    assert(UN_ZIGZAG@[spec_zigzag_of(59)] == 59);
    assert(UN_ZIGZAG@[spec_zigzag_of(60)] == 60);
    assert(UN_ZIGZAG@[spec_zigzag_of(61)] == 61);
    assert(UN_ZIGZAG@[spec_zigzag_of(62)] == 62);
    assert(UN_ZIGZAG@[spec_zigzag_of(63)] == 63);
    assert forall|n: int| 0 <= n < 64 implies 0 <= #[trigger] spec_zigzag_of(n) < 64
        && UN_ZIGZAG@[spec_zigzag_of(n)] == n by {
        assert(0 <= n < 64);
    }
}

/// A value that should be 16-byte aligned in memory.
#[derive(Clone, Copy)]
pub struct Aligned16<T>(pub T);

/// A value that should be 32-byte aligned in memory.
#[derive(Clone, Copy)]
pub struct Aligned32<T>(pub T);

/// Color conversion types
///
/// This enumerates over supported color conversion types the image can decode
#[derive(Debug, Copy, Clone, PartialEq, Eq, Structural)]
pub enum ColorSpace {
    /// Red,Green,Blue
    RGB,
    /// Monochrome
    GRAYSCALE,
    /// YCbCr, (also known as YUV)
    YCbCr,
    /// C/M/Y/K
    CMYK,
    /// Y/Cb/Cr/K
    YCCK,
    /// Blue/Green/Red
    BGR,
    /// R,G,B,A output colorspace, the fourth channel is 255 (an opaque alpha
    /// channel)
    RGBA,
    /// R,G,B,X output color space, the X channel is filler
    RGBX,
}

/// Number of channels of a colour space.
pub open spec fn spec_num_components(c: ColorSpace) -> usize {
    match c {
        ColorSpace::RGB | ColorSpace::BGR | ColorSpace::YCbCr => 3,
        ColorSpace::CMYK | ColorSpace::RGBA | ColorSpace::RGBX | ColorSpace::YCCK => 4,
        ColorSpace::GRAYSCALE => 1,
    }
}

impl ColorSpace {
    /// Number of channels (including unused alpha) in this color space
    pub fn num_components(self) -> (n: usize)
        ensures
            n == spec_num_components(self),
            1 <= n <= 4,
    {
        match self {
            ColorSpace::RGB | ColorSpace::BGR | ColorSpace::YCbCr => 3,
            ColorSpace::CMYK | ColorSpace::RGBA | ColorSpace::RGBX | ColorSpace::YCCK => 4,
            ColorSpace::GRAYSCALE => 1,
        }
    }
}

impl Default for ColorSpace {
    /// The default output colour space is RGB
    fn default() -> (c: Self)
        ensures
            c == ColorSpace::RGB,
    {
        ColorSpace::RGB
    }
}

/// Markers that identify different Start of Image markers
/// They identify the type of encoding and whether the file use lossy(DCT) or lossless
/// compression and whether we use Huffman or arithmetic coding schemes
#[derive(Debug, Eq, PartialEq, Copy, Clone, Structural)]
pub enum SOFMarkers {
    /// Baseline DCT markers
    BaselineDct,
    /// SOF_1 Extended sequential DCT,Huffman coding
    ExtendedSequentialHuffman,
    /// Progressive DCT, Huffman coding
    ProgressiveDctHuffman,
    /// Lossless (sequential), huffman coding,
    LosslessHuffman,
    /// Extended sequential DEC, arithmetic coding
    ExtendedSequentialDctArithmetic,
    /// Progressive DCT, arithmetic coding,
    ProgressiveDctArithmetic,
    /// Lossless ( sequential), arithmetic coding
    LosslessArithmetic,
}

impl Default for SOFMarkers {
    /// Baseline DCT is the default frame kind
    fn default() -> (m: Self)
        ensures
            m == SOFMarkers::BaselineDct,
    {
        SOFMarkers::BaselineDct
    }
}

/// The frame kind announced by a two byte start-of-frame marker.
pub open spec fn spec_sof_from_int(value: u16) -> Option<SOFMarkers> {
    if value == START_OF_FRAME_BASE {
        Some(SOFMarkers::BaselineDct)
    } else if value == START_OF_FRAME_PROG_DCT {
        Some(SOFMarkers::ProgressiveDctHuffman)
    } else if value == START_OF_FRAME_PROG_DCT_AR {
        Some(SOFMarkers::ProgressiveDctArithmetic)
    } else if value == START_OF_FRAME_LOS_SEQ {
        Some(SOFMarkers::LosslessHuffman)
    } else if value == START_OF_FRAME_LOS_SEQ_AR {
        Some(SOFMarkers::LosslessArithmetic)
    } else if value == START_OF_FRAME_EXT_SEQ {
        Some(SOFMarkers::ExtendedSequentialHuffman)
    } else if value == START_OF_FRAME_EXT_AR {
        Some(SOFMarkers::ExtendedSequentialDctArithmetic)
    } else {
        None
    }
}

impl SOFMarkers {
    /// Check if a certain marker is sequential DCT or not
    pub fn is_sequential_dct(self) -> (b: bool)
        ensures
            b <==> (self == SOFMarkers::BaselineDct || self
                == SOFMarkers::ExtendedSequentialHuffman || self
                == SOFMarkers::ExtendedSequentialDctArithmetic),
    {
        match self {
            SOFMarkers::BaselineDct
            | SOFMarkers::ExtendedSequentialHuffman
            | SOFMarkers::ExtendedSequentialDctArithmetic => true,
            _ => false,
        }
    }

    /// Check if a marker is a Lossles type or not
    pub fn is_lossless(self) -> (b: bool)
        ensures
            b <==> (self == SOFMarkers::LosslessHuffman || self == SOFMarkers::LosslessArithmetic),
    {
        match self {
            SOFMarkers::LosslessHuffman | SOFMarkers::LosslessArithmetic => true,
            _ => false,
        }
    }

    /// Check whether a marker is a progressive marker or not
    pub fn is_progressive(self) -> (b: bool)
        ensures
            b <==> (self == SOFMarkers::ProgressiveDctHuffman || self
                == SOFMarkers::ProgressiveDctArithmetic),
    {
        match self {
            SOFMarkers::ProgressiveDctHuffman | SOFMarkers::ProgressiveDctArithmetic => true,
            _ => false,
        }
    }

    /// The frame kind named by a two byte marker such as `0xFFC2`.
    pub fn from_int(value: u16) -> (res: Option<SOFMarkers>)
        ensures
            res == spec_sof_from_int(value),
    {
        if value == START_OF_FRAME_BASE {
            Some(SOFMarkers::BaselineDct)
        } else if value == START_OF_FRAME_PROG_DCT {
            Some(SOFMarkers::ProgressiveDctHuffman)
        } else if value == START_OF_FRAME_PROG_DCT_AR {
            Some(SOFMarkers::ProgressiveDctArithmetic)
        } else if value == START_OF_FRAME_LOS_SEQ {
            Some(SOFMarkers::LosslessHuffman)
        } else if value == START_OF_FRAME_LOS_SEQ_AR {
            Some(SOFMarkers::LosslessArithmetic)
        } else if value == START_OF_FRAME_EXT_SEQ {
            Some(SOFMarkers::ExtendedSequentialHuffman)
        } else if value == START_OF_FRAME_EXT_AR {
            Some(SOFMarkers::ExtendedSequentialDctArithmetic)
        } else {
            None
        }
    }
}

/// Each frame kind is exactly one of sequential, progressive or lossless.
pub proof fn lemma_sof_kinds_partition(m: SOFMarkers)
    ensures
        (m == SOFMarkers::BaselineDct || m == SOFMarkers::ExtendedSequentialHuffman || m
            == SOFMarkers::ExtendedSequentialDctArithmetic) as int + (m
            == SOFMarkers::ProgressiveDctHuffman || m == SOFMarkers::ProgressiveDctArithmetic) as int
            + (m == SOFMarkers::LosslessHuffman || m == SOFMarkers::LosslessArithmetic) as int == 1,
{
}

/// An in-memory JPEG stream with a read position.
pub struct ByteReader {
    /// The bytes of the stream
    pub data: Vec<u8>,
    /// The read position
    pub pos: usize,
}

impl ByteReader {
    /// The bytes of the stream.
    pub open spec fn bytes(&self) -> Seq<u8> {
        self.data@
    }

    /// The read position; never past the end of the stream.
    pub open spec fn pos(&self) -> int {
        self.pos as int
    }

    /// Number of bytes left to read.
    pub open spec fn remaining(&self) -> int {
        self.bytes().len() - self.pos()
    }

    pub open spec fn wf(&self) -> bool {
        self.pos <= self.data.len()
    }

    /// A reader positioned at the start of `data`.
    pub fn new(data: Vec<u8>) -> (r: ByteReader)
        ensures
            r.wf(),
            r.bytes() == data@,
            r.pos() == 0,
    {
        ByteReader { data, pos: 0 }
    }

    /// A reader over a copy of `data`, positioned at its start.
    pub fn from_slice(data: &[u8]) -> (r: ByteReader)
        ensures
            r.wf(),
            r.bytes() == data@,
            r.pos() == 0,
    {
        let mut v: Vec<u8> = Vec::new();
        let mut i: usize = 0;
        while i < data.len()
            invariant
                i <= data@.len(),
                v@ == data@.subrange(0, i as int),
            decreases data@.len() - i,
        {
            v.push(data[i]);
            i += 1;
            assert(v@ =~= data@.subrange(0, i as int));
        }
        assert(v@ =~= data@);
        ByteReader { data: v, pos: 0 }
    }

    /// Current read position.
    pub fn position(&self) -> (p: usize)
        requires
            self.wf(),
        ensures
            p == self.pos(),
    {
        self.pos
    }

    /// Length of the whole stream.
    pub fn len(&self) -> (n: usize)
        requires
            self.wf(),
        ensures
            n == self.bytes().len(),
    {
        self.data.len()
    }

    /// Skip `amount` bytes; the position stops at the end of the stream.
    pub fn consume(&mut self, amount: usize)
        requires
            old(self).wf(),
        ensures
            final(self).wf(),
            final(self).bytes() == old(self).bytes(),
            final(self).pos() == if old(self).remaining() < amount {
                old(self).bytes().len() as int
            } else {
                old(self).pos() + amount
            },
    {
        if self.data.len() - self.pos < amount {
            self.pos = self.data.len();
        } else {
            self.pos = self.pos + amount;
        }
    }

    /// Read one byte, if any is left.
    pub fn next_byte(&mut self) -> (b: Option<u8>)
        requires
            old(self).wf(),
        ensures
            final(self).wf(),
            final(self).bytes() == old(self).bytes(),
            old(self).remaining() > 0 ==> b == Some(old(self).bytes()[old(self).pos()]) && final(self).pos() == old(self).pos() + 1,
            old(self).remaining() <= 0 ==> b.is_none() && final(self).pos() == old(self).pos(),
    {
        if self.pos < self.data.len() {
            let b = self.data[self.pos];
            self.pos = self.pos + 1;
            Some(b)
        } else {
            None
        }
    }
}

/// Big-endian value of two bytes.
pub open spec fn spec_be16(hi: u8, lo: u8) -> u16 {
    (hi as int * 256 + lo as int) as u16
}

/// Read u8 from a buffer returning the byte
///
/// An incomplete image gives zero as the place holder for the missing byte.
pub fn read_u8(reader: &mut ByteReader) -> (b: u8)
    requires
        old(reader).wf(),
    ensures
        final(reader).wf(),
        final(reader).bytes() == old(reader).bytes(),
        old(reader).remaining() >= 1 ==> final(reader).pos() == old(reader).pos() + 1 && b == old(
            reader,
        ).bytes()[old(reader).pos()],
        old(reader).remaining() < 1 ==> b == 0 && final(reader).pos() == old(reader).pos(),
{
    match reader.next_byte() {
        Some(b) => b,
        None => 0,
    }
}

/// Read one byte, or fail with a format error at the end of the data.
pub fn read_byte(reader: &mut ByteReader) -> (res: Result<u8, DecodeErrors>)
    requires
        old(reader).wf(),
    ensures
        final(reader).wf(),
        final(reader).bytes() == old(reader).bytes(),
        old(reader).remaining() >= 1 ==> res == Ok::<u8, DecodeErrors>(
            old(reader).bytes()[old(reader).pos()],
        ) && final(reader).pos() == old(reader).pos() + 1,
        old(reader).remaining() < 1 ==> (res matches Err(DecodeErrors::Format(_))) && final(reader).pos() == old(reader).pos(),
{
    match reader.next_byte() {
        Some(b) => Ok(b),
        None => Err(DecodeErrors::Format(message("No more bytes"))),
    }
}

/// Read two `u8`'s from a buffer and create a `u16` from the bytes in Big Endian order.
///
/// When fewer than two bytes are left, the bytes that are there are consumed
/// and `ExhaustedData` is returned.
pub fn read_u16_be(reader: &mut ByteReader) -> (res: Result<u16, DecodeErrors>)
    requires
        old(reader).wf(),
    ensures
        final(reader).wf(),
        final(reader).bytes() == old(reader).bytes(),
        old(reader).remaining() >= 2 ==> res == Ok::<u16, DecodeErrors>(
            spec_be16(
                old(reader).bytes()[old(reader).pos()],
                old(reader).bytes()[old(reader).pos() + 1],
            ),
        ) && final(reader).pos() == old(reader).pos() + 2,
        old(reader).remaining() < 2 ==> (res matches Err(DecodeErrors::ExhaustedData)) && final(reader).pos() == old(reader).bytes().len(),
{
    let first = reader.next_byte();
    let second = reader.next_byte();
    match (first, second) {
        (Some(hi), Some(lo)) => Ok((hi as u16) * 256 + (lo as u16)),
        _ => Err(DecodeErrors::ExhaustedData),
    }
}

/// Read `buf.len()` big-endian `u16`'s from the reader into `buf`.
///
/// Fails with `ExhaustedData` when the reader holds fewer than `2 * buf.len()`
/// bytes; the values read before that are kept.
pub fn read_u16_into(reader: &mut ByteReader, buf: &mut Vec<u16>) -> (res: Result<
    (),
    DecodeErrors,
>)
    requires
        old(reader).wf(),
    ensures
        final(reader).wf(),
        final(reader).bytes() == old(reader).bytes(),
        final(buf)@.len() == old(buf)@.len(),
        res is Ok <==> old(reader).remaining() >= 2 * old(buf)@.len(),
        res is Ok ==> final(reader).pos() == old(reader).pos() + 2 * old(buf)@.len(),
        res is Err ==> res == Err::<(), DecodeErrors>(DecodeErrors::ExhaustedData) && final(reader).pos()
            == old(reader).bytes().len(),
        forall|i: int|
            0 <= i < old(buf)@.len() && 2 * i + 2 <= old(reader).remaining() ==> #[trigger] final(buf)@[i]
                == spec_be16(
                old(reader).bytes()[old(reader).pos() + 2 * i],
                old(reader).bytes()[old(reader).pos() + 2 * i + 1],
            ),
        forall|i: int|
            0 <= i < old(buf)@.len() && 2 * i + 2 > old(reader).remaining() ==> #[trigger] final(buf)@[i]
                == old(buf)@[i],
{
    let ghost start = reader.pos();
    let ghost data = reader.bytes();
    let n = buf.len();
    let mut i: usize = 0;
    while i < n
        invariant
            reader.wf(),
            reader.bytes() == data,
            data == old(reader).bytes(),
            start == old(reader).pos(),
            n == old(buf)@.len(),
            buf@.len() == n,
            i <= n,
            reader.pos() == start + 2 * i,
            start + 2 * i <= data.len(),
            forall|k: int|
                0 <= k < i ==> #[trigger] buf@[k] == spec_be16(
                    data[start + 2 * k],
                    data[start + 2 * k + 1],
                ),
            forall|k: int| i <= k < n ==> #[trigger] buf@[k] == old(buf)@[k],
        decreases n - i,
    {
        match read_u16_be(reader) {
            Ok(v) => {
                buf.set(i, v);
                i += 1;
            },
            Err(e) => {
                return Err(e);
            },
        }
    }
    Ok(())
}

/// `floor(v / d)`: what an arithmetic shift right by `log2(d)` bits computes.
pub(crate) fn floor_div(v: i128, d: i128) -> (r: i128)
    requires
        0 < d <= 0x1_0000_0000,
        -0x10_0000_0000_0000_0000_0000_0000 < v < 0x10_0000_0000_0000_0000_0000_0000,
    ensures
        r as int == v as int / d as int,
{
    if v >= 0 {
        v / d
    } else {
        let n = -v;
        let q = (n + d - 1) / d;
        proof {
            lemma_floor_of_negative(v as int, d as int);
        }
        -q
    }
}

/// For negative `v`, rounding `-v / d` up and negating rounds `v / d` down.
pub proof fn lemma_floor_of_negative(v: int, d: int)
    requires
        v < 0,
        d > 0,
    ensures
        -((-v + d - 1) / d) == v / d,
{
    let n = -v + d - 1;
    vstd::arithmetic::div_mod::lemma_fundamental_div_mod(n, d);
    vstd::arithmetic::div_mod::lemma_mod_pos_bound(n, d);
    let q = n / d;
    let r = n % d;
    assert(v == (-q) * d + (d - 1 - r)) by (nonlinear_arith)
        requires
            n == d * q + r,
            n == -v + d - 1,
    ;
    vstd::arithmetic::div_mod::lemma_fundamental_div_mod_converse(v, d, -q, d - 1 - r);
}

} // verus!
