//! Validated RGB frames, the linked lists that carry decoded frames and PNG frame
//! records, and the text of the PPM files and manifests the tool writes.

use vstd::prelude::*;
use crate::error::{format_error, result_is, ErrorView, RtlError};
use crate::stack::Stack;
use crate::text::{decimal, decimal_padded, push_decimal, push_decimal_padded};

verus! {

/// An 8-bit RGB picture: three bytes per pixel, row after row.
pub struct RgbFrame {
    pub width: u32,
    pub height: u32,
    pub pixels: Vec<u8>,
}

/// The number of bytes of an RGB picture of the given size.
pub open spec fn rgb_len(width: u32, height: u32) -> int {
    width * height * 3
}

/// The message of a pixel buffer of the wrong size.
pub open spec fn size_mismatch_message(actual: nat, expected: nat) -> Seq<char> {
    "decoded RGB frame has "@ + decimal(actual) + " bytes, expected "@ + decimal(expected)
}

/// Whether a buffer of `len` bytes can hold a picture of the given size: the size
/// must be countable in a `usize`, and the buffer must have three bytes per pixel.
pub open spec fn spec_rgb_frame_check(width: u32, height: u32, len: nat) -> Result<(), ErrorView> {
    if rgb_len(width, height) > usize::MAX {
        Err(ErrorView::Format("decoded frame dimensions overflow"@))
    } else if len != rgb_len(width, height) {
        Err(ErrorView::Format(size_mismatch_message(len, rgb_len(width, height) as nat)))
    } else {
        Ok(())
    }
}

/// The number of bytes of an RGB picture of the given size, or `None` when it does
/// not fit in a `usize`.
pub fn rgb_frame_len(width: u32, height: u32) -> (len: Option<usize>)
    ensures
        len matches Some(n) ==> n == rgb_len(width, height),
        len is None <==> rgb_len(width, height) > usize::MAX,
{
    assert(width * height <= 0xffff_fffe_0000_0001) by (nonlinear_arith)
        requires
            width <= 0xffff_ffff,
            height <= 0xffff_ffff,
    ;
    let area = (width as u64) * (height as u64);
    if area > (usize::MAX / 3) as u64 {
        return None;
    }
    Some((area as usize) * 3)
}

impl RgbFrame {
    /// A frame of `width` by `height` pixels holding `pixels`, which must be exactly
    /// three bytes per pixel.
    pub fn new(width: u32, height: u32, pixels: Vec<u8>) -> (r: Result<Self, RtlError>)
        ensures
            result_is(r, spec_rgb_frame_check(width, height, pixels@.len()),
                |f: RgbFrame, u: ()| f.width == width && f.height == height && f.pixels@ == pixels@),
    {
        let expected = match rgb_frame_len(width, height) {
            Some(expected) => expected,
            None => return Err(format_error("decoded frame dimensions overflow")),
        };
        if pixels.len() != expected {
            let mut message = "decoded RGB frame has ".to_owned();
            push_decimal(&mut message, pixels.len() as u64);
            message.append(" bytes, expected ");
            push_decimal(&mut message, expected as u64);
            return Err(RtlError::Format(message));
        }
        Ok(RgbFrame { width, height, pixels })
    }
}

/// A stack of decoded frames: `pop` hands back the most recently pushed one.
pub struct DecodedFrameList {
    frames: Stack<RgbFrame>,
}

impl View for DecodedFrameList {
    type V = Seq<RgbFrame>;

    /// The frames from the first pushed to the last pushed.
    closed spec fn view(&self) -> Seq<RgbFrame> {
        self.frames@
    }
}

impl DecodedFrameList {
    /// An empty list.
    pub fn new() -> (list: Self)
        ensures
            list@ == Seq::<RgbFrame>::empty(),
    {
        DecodedFrameList { frames: Stack::new() }
    }

    /// Puts `frame` on top.
    pub fn push(&mut self, frame: RgbFrame)
        requires
            old(self)@.len() < usize::MAX,
        ensures
            final(self)@ == old(self)@.push(frame),
    {
        self.frames.push(frame);
    }

    /// The number of frames held.
    pub fn len(&self) -> (n: usize)
        ensures
            n == self@.len(),
    {
        self.frames.len()
    }

    /// Takes the most recently pushed frame, or gives `None` when the list is empty.
    pub fn pop(&mut self) -> (frame: Option<RgbFrame>)
        ensures
            old(self)@.len() == 0 ==> frame is None && final(self)@ == old(self)@,
            old(self)@.len() > 0 ==> frame == Some(old(self)@.last()) && final(self)@ == old(self)@.drop_last(),
    {
        self.frames.pop()
    }
}

/// A decoded image on disk: its position in the video, its file path and its size.
pub struct ImageFrameRecord {
    pub index: usize,
    pub path: String,
    pub width: u32,
    pub height: u32,
}

/// A stack of image records: `pop` hands back the most recently pushed one.
pub struct ImageFrameList {
    frames: Stack<ImageFrameRecord>,
}

impl View for ImageFrameList {
    type V = Seq<ImageFrameRecord>;

    /// The records from the first pushed to the last pushed.
    closed spec fn view(&self) -> Seq<ImageFrameRecord> {
        self.frames@
    }
}

impl ImageFrameList {
    /// An empty list.
    pub fn new() -> (list: Self)
        ensures
            list@ == Seq::<ImageFrameRecord>::empty(),
    {
        ImageFrameList { frames: Stack::new() }
    }

    /// Puts `frame` on top.
    pub fn push(&mut self, frame: ImageFrameRecord)
        requires
            old(self)@.len() < usize::MAX,
        ensures
            final(self)@ == old(self)@.push(frame),
    {
        self.frames.push(frame);
    }

    /// The number of records held.
    pub fn len(&self) -> (n: usize)
        ensures
            n == self@.len(),
    {
        self.frames.len()
    }

    /// Takes the most recently pushed record, or gives `None` when the list is empty.
    pub fn pop(&mut self) -> (frame: Option<ImageFrameRecord>)
        ensures
            old(self)@.len() == 0 ==> frame is None && final(self)@ == old(self)@,
            old(self)@.len() > 0 ==> frame == Some(old(self)@.last()) && final(self)@ == old(self)@.drop_last(),
    {
        self.frames.pop()
    }
}

/// The header of a binary PPM (`P6`) picture of the given size with 8-bit samples.
pub open spec fn spec_ppm_header(width: u32, height: u32) -> Seq<char> {
    "P6\n"@ + decimal(width as nat) + " "@ + decimal(height as nat) + "\n255\n"@
}

/// The header of a binary PPM (`P6`) picture of the given size with 8-bit samples;
/// the pixel bytes follow it.
pub fn ppm_header(width: u32, height: u32) -> (text: String)
    ensures
        text@ == spec_ppm_header(width, height),
{
    let mut text = "P6\n".to_owned();
    push_decimal(&mut text, width as u64);
    text.append(" ");
    push_decimal(&mut text, height as u64);
    text.append("\n255\n");
    text
}

/// The file name of frame `number`: `frame_`, the number on at least six digits, a
/// dot and `extension`.
pub open spec fn spec_frame_file_name(number: nat, extension: Seq<char>) -> Seq<char> {
    "frame_"@ + decimal_padded(number, 6) + "."@ + extension
}

/// The file name of frame `number`, such as `frame_000000.ppm`.
pub fn frame_file_name(number: u64, extension: &str) -> (name: String)
    ensures
        name@ == spec_frame_file_name(number as nat, extension@),
{
    let mut name = "frame_".to_owned();
    push_decimal_padded(&mut name, number, 6);
    name.append(".");
    name.append(extension);
    name
}

/// The manifest line of a picture: its number, its file name and its size.
pub open spec fn spec_manifest_entry(number: nat, name: Seq<char>, width: u32, height: u32) -> Seq<char> {
    decimal(number) + " "@ + name + " "@ + decimal(width as nat) + "x"@ + decimal(height as nat)
}

/// The manifest line of a picture, such as `0 frame_000000.ppm 464x832`.
pub fn manifest_entry(number: u64, name: &str, width: u32, height: u32) -> (line: String)
    ensures
        line@ == spec_manifest_entry(number as nat, name@, width, height),
{
    let mut line = String::new();
    push_decimal(&mut line, number);
    line.append(" ");
    line.append(name);
    line.append(" ");
    push_decimal(&mut line, width as u64);
    line.append("x");
    push_decimal(&mut line, height as u64);
    line
}

/// The name of the directory of decoded frames for an input whose file stem is `stem`.
pub fn ai_frames_directory_name(stem: &str) -> (name: String)
    ensures
        name@ == stem@ + "_ai_frames"@,
{
    let mut name = stem.to_owned();
    name.append("_ai_frames");
    name
}

/// The name of the directory of encoded samples for an input whose file stem is `stem`.
pub fn encoded_frames_directory_name(stem: &str) -> (name: String)
    ensures
        name@ == stem@ + "_frames"@,
{
    let mut name = stem.to_owned();
    name.append("_frames");
    name
}

/// The opening lines of the manifest of PPM frames written from `source`.
pub fn ppm_manifest_header(source: &str) -> (text: String)
    ensures
        text@ == "source="@ + source@ + "\nformat=RGB PPM (P6), 8-bit, 3 channels\nframes=streamed\n"@,
{
    let mut text = "source=".to_owned();
    text.append(source);
    text.append("\nformat=RGB PPM (P6), 8-bit, 3 channels\nframes=streamed\n");
    text
}

/// The opening lines of the manifest of `frames` PNG frames of the given size decoded
/// from `source`.
pub fn png_manifest_header(source: &str, width: u32, height: u32, frames: u64) -> (text: String)
    ensures
        text@ == "source="@ + source@ + "\nformat=PNG, decoded RGB video frames\ndimensions="@ + decimal(width as nat)
            + "x"@ + decimal(height as nat) + "\nframes="@ + decimal(frames as nat) + "\n"@,
{
    let mut text = "source=".to_owned();
    text.append(source);
    text.append("\nformat=PNG, decoded RGB video frames\ndimensions=");
    push_decimal(&mut text, width as u64);
    text.append("x");
    push_decimal(&mut text, height as u64);
    text.append("\nframes=");
    push_decimal(&mut text, frames);
    text.append("\n");
    text
}

/// The opening lines of the manifest of `frames` encoded samples taken from `source`.
pub fn encoded_manifest_header(source: &str, frames: u64) -> (text: String)
    ensures
        text@ == "source="@ + source@ + "\nformat=encoded ISO-BMFF video samples\nframes="@ + decimal(frames as nat)
            + "\n"@,
{
    let mut text = "source=".to_owned();
    text.append(source);
    text.append("\nformat=encoded ISO-BMFF video samples\nframes=");
    push_decimal(&mut text, frames);
    text.append("\n");
    text
}

} // verus!
