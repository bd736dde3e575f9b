//! JPEG markers: the byte that follows `0xFF` in a JPEG stream.
use vstd::prelude::*;

verus! {

/// Markers that can appear in a JPEG stream.
#[derive(Debug, Clone, Copy, PartialEq, Eq, Structural)]
pub enum Marker {
    /// Start of frame `n` (`0xFFC0`..`0xFFCF` except DHT, JPG and DAC)
    SOF(u8),
    /// Define Huffman table(s)
    DHT,
    /// Define arithmetic coding conditioning(s)
    DAC,
    /// Restart with modulo 8 count `m`
    RST(u8),
    /// Start of image
    SOI,
    /// End of image
    EOI,
    /// Start of scan
    SOS,
    /// Define quantization table(s)
    DQT,
    /// Define number of lines
    DNL,
    /// Define restart interval
    DRI,
    /// Reserved for application segments
    APP(u8),
    /// Comment
    COM,
}

/// The marker that the byte `n` following a `0xFF` denotes, if any.
pub open spec fn spec_marker(n: u8) -> Option<Marker> {
    if 0xC0 <= n <= 0xC3 || 0xC5 <= n <= 0xC7 || 0xC9 <= n <= 0xCB || 0xCD <= n <= 0xCF {
        Some(Marker::SOF((n - 0xC0) as u8))
    } else if n == 0xC4 {
        Some(Marker::DHT)
    } else if n == 0xCC {
        Some(Marker::DAC)
    } else if 0xD0 <= n <= 0xD7 {
        Some(Marker::RST((n - 0xD0) as u8))
    } else if n == 0xD8 {
        Some(Marker::SOI)
    } else if n == 0xD9 {
        Some(Marker::EOI)
    } else if n == 0xDA {
        Some(Marker::SOS)
    } else if n == 0xDB {
        Some(Marker::DQT)
    } else if n == 0xDC {
        Some(Marker::DNL)
    } else if n == 0xDD {
        Some(Marker::DRI)
    } else if 0xE0 <= n <= 0xEF {
        Some(Marker::APP((n - 0xE0) as u8))
    } else if n == 0xFE {
        Some(Marker::COM)
    } else {
        None
    }
}

impl Marker {
    /// Interpret the byte following a `0xFF` as a marker.
    ///
    /// Returns `None` for stuffed zero bytes, fill bytes and reserved values.
    pub fn from_u8(n: u8) -> (res: Option<Marker>)
        ensures
            res == spec_marker(n),
    {
        if (0xC0 <= n && n <= 0xC3) || (0xC5 <= n && n <= 0xC7) || (0xC9 <= n && n <= 0xCB)
            || (0xCD <= n && n <= 0xCF) {
            Some(Marker::SOF(n - 0xC0))
        } else if n == 0xC4 {
            Some(Marker::DHT)
        } else if n == 0xCC {
            Some(Marker::DAC)
        } else if 0xD0 <= n && n <= 0xD7 {
            Some(Marker::RST(n - 0xD0))
        } else if n == 0xD8 {
            Some(Marker::SOI)
        } else if n == 0xD9 {
            Some(Marker::EOI)
        } else if n == 0xDA {
            Some(Marker::SOS)
        } else if n == 0xDB {
            Some(Marker::DQT)
        } else if n == 0xDC {
            Some(Marker::DNL)
        } else if n == 0xDD {
            Some(Marker::DRI)
        } else if 0xE0 <= n && n <= 0xEF {
            Some(Marker::APP(n - 0xE0))
        } else if n == 0xFE {
            Some(Marker::COM)
        } else {
            None
        }
    }
}

} // verus!
