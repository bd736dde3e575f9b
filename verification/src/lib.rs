//! A JPEG decoder: header parsing, Huffman decoding of baseline and
//! progressive scans, inverse DCT, up-sampling and colour conversion, each
//! with a contract that the code is proved to meet.
pub use crate::decoder::{Decoder, ImageInfo, ZuneJpegOptions};
pub use crate::misc::ColorSpace;

pub mod bitstream;
pub mod color_convert;
pub mod components;
pub mod decoder;
pub mod errors;
pub mod headers;
pub mod huffman;
pub mod idct;
pub mod marker;
pub mod mcu;
pub mod mcu_prog;
pub mod misc;
pub mod probe;
pub mod upsampler;
pub mod worker;
