//! Decoding of MPEG audio frames: headers, the bitstream reader, and the
//! integer side of layer I, II and III side information and scale factors.
#![allow(non_camel_case_types)]
#![allow(non_snake_case)]
use vstd::prelude::*;

pub mod bitstream;
pub mod hdr;
pub mod l12;
pub mod layer3;
pub mod scalefactors;
pub mod sfb;
pub mod utils;

verus! {

/// Most samples one frame can decode to: 1152 per channel, two channels.
pub const MAX_SAMPLES_PER_FRAME: usize = 1152 * 2;

/// Largest free-format frame accepted, in bytes (more than the standard allows).
pub const MAX_FREE_FORMAT_FRAME_SIZE: usize = 2304;
/// Frames that must follow one another before a stream is taken as found.
pub const MAX_FRAME_SYNC_MATCHES: usize = 10;
/// Largest layer III payload of one frame, in bytes; at least 320000 / 8 / 32000 * 1152 = 1440.
pub const MAX_L3_FRAME_PAYLOAD_BYTES: usize = MAX_FREE_FORMAT_FRAME_SIZE;
/// Size of the layer III bit reservoir, in bytes.
pub const MAX_BITRESERVOIR_BYTES: usize = 511;

/// What the decoder reports about a decoded frame.
pub struct Mp3DecFrameInfo_t {
    /// Length of the frame in bytes, padding included.
    pub frame_bytes: i32,
    /// Number of channels: 1 or 2.
    pub channels: i32,
    /// Sample rate in Hz.
    pub hz: i32,
    /// Layer: 1, 2 or 3.
    pub layer: i32,
    /// Bitrate in kbit/s.
    pub bitrate_kbps: i32,
}

} // verus!
