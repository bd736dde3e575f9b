//! Tell whether a buffer holds a JPEG image.
use vstd::prelude::*;

use crate::decoder::{fresh_decoder, headers_ok, Decoder};
use crate::misc::spec_be16;

verus! {

/// Probe a buffer and return a boolean to show if this is a jpeg image.
///
/// The headers are parsed, up to the first scan, without doing the entropy
/// decoding and post processing stage. A buffer that does not start with the
/// start-of-image bytes `0xFF 0xD8` is never a JPEG image.
pub fn probe(buffer: &[u8]) -> (b: bool)
    ensures
        b ==> buffer@.len() >= 2 && spec_be16(buffer@[0], buffer@[1]) == 0xFFD8,
        buffer@.len() >= 2 && spec_be16(buffer@[0], buffer@[1]) == 0xFFD8 && (forall|d: Decoder|
            #[trigger] fresh_decoder(d) ==> headers_ok(d, buffer@, 2, 0, 0)) ==> b,
{
    let mut decoder = Decoder::new();
    decoder.read_headers(buffer).is_ok()
}

} // verus!
