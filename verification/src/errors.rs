//! Errors that can occur while decoding a JPEG image.
use vstd::prelude::*;
use vstd::string::*;

verus! {

/// Compression schemes this decoder recognises but cannot decode.
#[derive(Debug, Clone, Copy, PartialEq, Eq, Structural)]
pub enum UnsupportedSchemes {
    /// SOF_1 extended sequential DCT, Huffman coding
    ExtendedSequentialHuffman,
    /// Lossless (sequential), Huffman coding
    LosslessHuffman,
    /// Extended sequential DCT, arithmetic coding
    ExtendedSequentialDctArithmetic,
    /// Progressive DCT, arithmetic coding
    ProgressiveDctArithmetic,
    /// Lossless (sequential), arithmetic coding
    LosslessArithmetic,
}

/// The scheme named by the low nibble of a start-of-frame marker, if it is one
/// of the recognised but unsupported ones.
pub open spec fn spec_unsupported_scheme(value: u8) -> Option<UnsupportedSchemes> {
    if value == 1 {
        Some(UnsupportedSchemes::ExtendedSequentialHuffman)
    } else if value == 3 {
        Some(UnsupportedSchemes::LosslessHuffman)
    } else if value == 9 {
        Some(UnsupportedSchemes::ExtendedSequentialDctArithmetic)
    } else if value == 10 {
        Some(UnsupportedSchemes::ProgressiveDctArithmetic)
    } else if value == 11 {
        Some(UnsupportedSchemes::LosslessArithmetic)
    } else {
        None
    }
}

impl UnsupportedSchemes {
    /// Map the number `n` of an `SOF(n)` marker to the scheme it announces.
    pub fn from_int(value: u8) -> (res: Option<UnsupportedSchemes>)
        ensures
            res == spec_unsupported_scheme(value),
    {
        match value {
            1 => Some(UnsupportedSchemes::ExtendedSequentialHuffman),
            3 => Some(UnsupportedSchemes::LosslessHuffman),
            9 => Some(UnsupportedSchemes::ExtendedSequentialDctArithmetic),
            10 => Some(UnsupportedSchemes::ProgressiveDctArithmetic),
            11 => Some(UnsupportedSchemes::LosslessArithmetic),
            _ => None,
        }
    }
}

/// Errors returned while decoding an image.
#[derive(Debug)]
pub enum DecodeErrors {
    /// A malformed or truncated image
    Format(String),
    /// A malformed image, with a fixed message
    FormatStatic(&'static str),
    /// The first two bytes are not the start-of-image marker `0xFFD8`
    IllegalMagicBytes(u16),
    /// Problems with Huffman tables or Huffman coded data
    HuffmanDecode(String),
    /// Image width or height is zero
    ZeroError,
    /// Problems with a quantization table
    DqtError(String),
    /// Problems with a start-of-scan header
    SosError(String),
    /// Problems with a start-of-frame header
    SofError(String),
    /// The image uses a compression scheme this decoder does not support
    Unsupported(UnsupportedSchemes),
    /// Problems while decoding minimum coded units
    MCUError(String),
    /// The data ended before a value could be read
    ExhaustedData,
    /// The image has more pixels than the decoder accepts
    LargeDimensions(usize),
}

/// Decimal digits of a number, most significant first.
pub open spec fn spec_decimal(n: nat) -> Seq<char>
    decreases n,
{
    let digit = (('0' as u8) + (n % 10) as u8) as char;
    if n < 10 {
        seq![digit]
    } else {
        spec_decimal(n / 10).push(digit)
    }
}

/// The text of one decimal digit.
fn digit_text(d: u64) -> (r: &'static str)
    requires
        d < 10,
    ensures
        r@ == seq![(('0' as u8) + d as u8) as char],
{
    proof {
        reveal_strlit("0");
        reveal_strlit("1");
        reveal_strlit("2");
        reveal_strlit("3");
        reveal_strlit("4");
        reveal_strlit("5");
        reveal_strlit("6");
        reveal_strlit("7");
        reveal_strlit("8");
        reveal_strlit("9");
    }
    match d {
        0 => "0",
        1 => "1",
        2 => "2",
        3 => "3",
        4 => "4",
        5 => "5",
        6 => "6",
        7 => "7",
        8 => "8",
        _ => "9",
    }
}

/// Append the decimal digits of `n` to `s`.
fn append_decimal(s: &mut String, n: u64)
    ensures
        final(s)@ == old(s)@ + spec_decimal(n as nat),
    decreases n,
{
    if n >= 10 {
        append_decimal(s, n / 10);
    }
    s.append(digit_text(n % 10));
    proof {
        let digit = (('0' as u8) + (n % 10) as u8) as char;
        if n >= 10 {
            assert(spec_decimal(n as nat) == spec_decimal((n / 10) as nat).push(digit));
            assert(s@ =~= old(s)@ + spec_decimal(n as nat));
        } else {
            assert(spec_decimal(n as nat) == seq![digit]);
            assert(s@ =~= old(s)@ + spec_decimal(n as nat));
        }
    }
}

/// Build a message made of `prefix` followed by the decimal digits of `n`.
pub(crate) fn message_with_number(prefix: &str, n: u64) -> (res: String)
    ensures
        res@ == prefix@ + spec_decimal(n as nat),
{
    let mut s = message(prefix);
    append_decimal(&mut s, n);
    s
}

/// An owned copy of a message.
pub(crate) fn message(text: &str) -> (res: String)
    ensures
        res@ == text@,
{
    broadcast use vstd::string::group_string_axioms;
    text.to_string()
}

} // verus!
