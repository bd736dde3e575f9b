//! This module exports a single struct to store information about
//! JPEG image components
//!
//! The data is extracted from a SOF header.
use vstd::prelude::*;

use crate::decoder::MAX_COMPONENTS;
use crate::errors::{message_with_number, DecodeErrors};
use crate::misc::Aligned32;

verus! {

/// The up-sampling routine a component uses to reach the size of the
/// luminance channel.
#[derive(Debug, Clone, Copy, PartialEq, Eq, Structural)]
pub enum UpSampler {
    /// The component is not down-sampled
    NoOp,
    /// Twice the samples in each row
    Horizontal,
    /// Twice the rows
    Vertical,
    /// Twice the rows and twice the samples in each row
    HorizontalVertical,
}

/// Component ID's
#[derive(Copy, Debug, Clone, PartialEq, Eq, Structural)]
pub enum ComponentID {
    /// Luminance channel
    Y,
    /// Blue chrominance
    Cb,
    /// Red chrominance
    Cr,
}

/// Sub-sampling arrangement of the chrominance channels.
#[derive(Copy, Debug, Clone, PartialEq, Eq, Structural)]
pub enum SubSampRatios {
    /// Halved in both directions
    HV,
    /// Halved vertically
    V,
    /// Halved horizontally
    H,
    /// Not sub-sampled
    NoSampling,
}

/// Component Data from start of frame
#[derive(Clone, Copy)]
pub struct Components {
    /// The type of component that has the metadata below, can be Y,Cb or Cr
    pub component_id: ComponentID,
    /// Sub-sampling ratio of this component in the y-plane
    pub vertical_sample: usize,
    /// Sub-sampling ratio of this component in the x-plane
    pub horizontal_sample: usize,
    /// DC huffman table position
    pub dc_huff_table: usize,
    /// AC huffman table position for this element.
    pub ac_huff_table: usize,
    /// Quantization table number
    pub quantization_table_number: u8,
    /// Specifies quantization table to use with this component
    pub quantization_table: Aligned32<[i32; 64]>,
    /// dc prediction for the component
    pub dc_pred: i32,
    /// The up-sampling routine for this component
    pub up_sampler: UpSampler,
    /// How many pixels we need to go to get to the next line
    pub width_stride: usize,
    /// Component ID byte as found in the frame header
    pub id: u8,
}

impl Components {
    /// Sampling factors are powers of two within a nibble and table slots fit
    /// a nibble.
    pub open spec fn wf(&self) -> bool {
        &&& spec_is_sampling_factor(self.horizontal_sample as int)
        &&& spec_is_sampling_factor(self.vertical_sample as int)
        &&& self.dc_huff_table < 16
        &&& self.ac_huff_table < 16
    }
}

/// Sampling factors accepted by the decoder: powers of two within a nibble.
pub open spec fn spec_is_sampling_factor(s: int) -> bool {
    s == 1 || s == 2 || s == 4 || s == 8
}

/// The component identity named by the first byte of a component record.
pub open spec fn spec_component_id(b: u8) -> Option<ComponentID> {
    if b == 1 {
        Some(ComponentID::Y)
    } else if b == 2 {
        Some(ComponentID::Cb)
    } else if b == 3 {
        Some(ComponentID::Cr)
    } else {
        None
    }
}

/// A nibble is a power of two.
fn is_sampling_factor(s: usize) -> (b: bool)
    ensures
        b == spec_is_sampling_factor(s as int),
{
    s == 1 || s == 2 || s == 4 || s == 8
}

impl Components {
    /// Create a new instance from the three bytes of a component record in
    /// the start of frame: identifier, sampling factors (horizontal in the
    /// high nibble) and quantization table number.
    pub fn from(a: [u8; 3]) -> (res: Result<Components, DecodeErrors>)
        ensures
            spec_component_id(a[0]) is None ==> (res matches Err(DecodeErrors::Format(_))),
            spec_component_id(a[0]) is Some && a[2] >= MAX_COMPONENTS ==> (res matches Err(
                DecodeErrors::Format(_),
            )),
            spec_component_id(a[0]) is Some && a[2] < MAX_COMPONENTS && !spec_is_sampling_factor(
                (a[1] / 16) as int,
            ) ==> (res matches Err(DecodeErrors::Format(_))),
            spec_component_id(a[0]) is Some && a[2] < MAX_COMPONENTS && spec_is_sampling_factor(
                (a[1] / 16) as int,
            ) && !spec_is_sampling_factor((a[1] % 16) as int) ==> (res matches Err(
                DecodeErrors::Format(_),
            )),
            res is Ok <==> (spec_component_id(a[0]) is Some && a[2] < MAX_COMPONENTS
                && spec_is_sampling_factor((a[1] / 16) as int) && spec_is_sampling_factor(
                (a[1] % 16) as int,
            )),
            res matches Ok(c) ==> {
                &&& Some(c.component_id) == spec_component_id(a[0])
                &&& c.horizontal_sample == a[1] / 16
                &&& c.vertical_sample == a[1] % 16
                &&& c.quantization_table_number == a[2]
                &&& c.dc_huff_table == 0
                &&& c.ac_huff_table == 0
                &&& c.dc_pred == 0
                &&& c.up_sampler == UpSampler::NoOp
                &&& c.width_stride == c.horizontal_sample
                &&& c.id == a[0]
                &&& c.wf()
                &&& forall|i: int| 0 <= i < 64 ==> #[trigger] c.quantization_table.0[i] == 0
            },
    {
        let id = match a[0] {
            1 => ComponentID::Y,
            2 => ComponentID::Cb,
            3 => ComponentID::Cr,
            r => {
                return Err(
                    DecodeErrors::Format(
                        message_with_number(
                            "Unknown component id found, expected value between 1 and 3 but found ",
                            r as u64,
                        ),
                    ),
                );
            },
        };
        let samples = a[1];
        let horizontal_sample = (samples >> 4) as usize;
        let vertical_sample = (samples & 0x0f) as usize;
        assert(samples >> 4 == samples / 16 && samples & 0x0f == samples % 16) by (bit_vector);
        let quantization_table_number = a[2];
        // confirm quantization number is between 0 and MAX_COMPONENTS
        if (quantization_table_number as usize) >= MAX_COMPONENTS {
            return Err(
                DecodeErrors::Format(
                    message_with_number(
                        "Too large quantization number, expected a value below 4 but found ",
                        quantization_table_number as u64,
                    ),
                ),
            );
        }
        // check that upsampling ratios are powers of two
        // if these fail, it's probably a corrupt image.
        if !is_sampling_factor(horizontal_sample) {
            return Err(
                DecodeErrors::Format(
                    message_with_number(
                        "Horizontal sample is not a power of two, cannot decode: ",
                        horizontal_sample as u64,
                    ),
                ),
            );
        }
        if !is_sampling_factor(vertical_sample) {
            return Err(
                DecodeErrors::Format(
                    message_with_number(
                        "Vertical sub-sample is not power of two, cannot decode: ",
                        vertical_sample as u64,
                    ),
                ),
            );
        }
        Ok(
            Components {
                component_id: id,
                vertical_sample,
                horizontal_sample,
                quantization_table_number,
                // These two will be set with sof marker
                dc_huff_table: 0,
                ac_huff_table: 0,
                quantization_table: Aligned32([0; 64]),
                dc_pred: 0,
                up_sampler: UpSampler::NoOp,
                // set later
                width_stride: horizontal_sample,
                id: a[0],
            },
        )
    }
}

} // verus!
