//! Verified core of an MP4/MOV frame extractor: ISO-BMFF box walking and
//! sample tables, H.264 NAL framing and SPS parsing, RGB frame handling and
//! the small text formats the tool writes.

pub mod error;
pub mod text;
pub mod stack;
pub mod bmff;
pub mod frames;
pub mod bits;
pub mod bit_coding;
pub mod h264;
pub mod sps;
pub mod sps_coding;
pub mod decoded;
pub mod decoder;
pub mod cli;
