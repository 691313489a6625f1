//! From an MP4 to decoded frames: the Baseline configuration check, the access-unit
//! walk, and the integer YUV 4:2:0 to RGB conversion.

use vstd::prelude::*;
use crate::bmff::{extract_video_samples, spec_video_samples};
use crate::decoded::{rgb_len, DecodedFrameList, RgbFrame};
use crate::error::{format_error, result_is, unsupported_error, ErrorView, RtlError};
use crate::frames::frame_bytes;
use crate::h264::{
    nal_views, parameter_sets_from_avcc, probe_mp4_avcc, spec_parameter_sets, spec_probe_mp4_avcc,
    spec_split_avcc, split_avcc_sample, NalKind, NalUnit, NalView, StreamInfo,
};
use crate::text::{decimal, hex2, push_decimal, push_hex2};

verus! {

struct BaselineConfig {
    stream: StreamInfo,
    sps: NalUnit,
    pps: NalUnit,
}

/// The name of a NAL kind as its derived `Debug` form writes it.
pub open spec fn kind_name(kind: NalKind) -> Seq<char> {
    match kind {
        NalKind::Unspecified => "Unspecified"@,
        NalKind::CodedSlice => "CodedSlice"@,
        NalKind::IdrSlice => "IdrSlice"@,
        NalKind::SupplementalEnhancement => "SupplementalEnhancement"@,
        NalKind::SequenceParameterSet => "SequenceParameterSet"@,
        NalKind::PictureParameterSet => "PictureParameterSet"@,
        NalKind::AccessUnitDelimiter => "AccessUnitDelimiter"@,
        NalKind::EndOfSequence => "EndOfSequence"@,
        NalKind::EndOfStream => "EndOfStream"@,
        NalKind::Other(t) => "Other("@ + decimal(t as nat) + ")"@,
    }
}

fn push_kind_name(text: &mut String, kind: NalKind)
    ensures
        final(text)@ == old(text)@ + kind_name(kind),
{
    match kind {
        NalKind::Unspecified => text.append("Unspecified"),
        NalKind::CodedSlice => text.append("CodedSlice"),
        NalKind::IdrSlice => text.append("IdrSlice"),
        NalKind::SupplementalEnhancement => text.append("SupplementalEnhancement"),
        NalKind::SequenceParameterSet => text.append("SequenceParameterSet"),
        NalKind::PictureParameterSet => text.append("PictureParameterSet"),
        NalKind::AccessUnitDelimiter => text.append("AccessUnitDelimiter"),
        NalKind::EndOfSequence => text.append("EndOfSequence"),
        NalKind::EndOfStream => text.append("EndOfStream"),
        NalKind::Other(t) => {
            text.append("Other(");
            push_decimal(text, t as u64);
            text.append(")");
            assert(final(text)@ =~= old(text)@ + kind_name(kind));
        },
    }
}

/// Why the access unit `nals` cannot be decoded, looking from unit `k` on: the first
/// slice or unit of an unhandled kind stops the walk; delimiters, SEI and parameter
/// sets are passed over.
pub open spec fn spec_access_unit_error(nals: Seq<NalView>, k: int) -> ErrorView
    decreases nals.len() - k,
{
    if k < 0 || k >= nals.len() {
        ErrorView::Unsupported("H.264 access unit contains no decodable slice"@)
    } else {
        match nals[k].kind {
            NalKind::CodedSlice | NalKind::IdrSlice => ErrorView::Unsupported(
                "H.264 coded-slice reconstruction (CAVLC, prediction, and reference pictures) is not implemented"@,
            ),
            NalKind::AccessUnitDelimiter | NalKind::SupplementalEnhancement | NalKind::SequenceParameterSet
            | NalKind::PictureParameterSet => spec_access_unit_error(nals, k + 1),
            other => ErrorView::Unsupported("H.264 NAL type "@ + kind_name(other) + " is unsupported"@),
        }
    }
}

fn decode_access_unit(config: &BaselineConfig, nals: &Vec<NalUnit>, decoded: &mut DecodedFrameList) -> (r: Result<(), RtlError>)
    ensures
        r matches Err(e) && e@ == spec_access_unit_error(nal_views(nals@), 0),
        final(decoded)@ == old(decoded)@,
{
    let mut k: usize = 0;
    while k < nals.len()
        invariant
            k <= nals@.len(),
            spec_access_unit_error(nal_views(nals@), 0) == spec_access_unit_error(nal_views(nals@), k as int),
            decoded@ == old(decoded)@,
        decreases nals@.len() - k,
    {
        let kind = nals[k].kind;
        assert(nal_views(nals@)[k as int].kind == kind);
        match kind {
            NalKind::CodedSlice | NalKind::IdrSlice => {
                return Err(unsupported_error(
                    "H.264 coded-slice reconstruction (CAVLC, prediction, and reference pictures) is not implemented",
                ));
            },
            NalKind::AccessUnitDelimiter | NalKind::SupplementalEnhancement => {},
            NalKind::SequenceParameterSet | NalKind::PictureParameterSet => {},
            _ => {
                let mut message = "H.264 NAL type ".to_owned();
                push_kind_name(&mut message, kind);
                message.append(" is unsupported");
                return Err(RtlError::Unsupported(message));
            },
        }
        k = k + 1;
    }
    Err(unsupported_error("H.264 access unit contains no decodable slice"))
}

/// The profile byte of an SPS: the byte after the NAL header, or 0 when absent.
pub open spec fn sps_profile(sps: NalView) -> u8 {
    if sps.payload.len() > 1 { sps.payload[1] } else { 0 }
}

/// The stream information and the SPS and PPS of an MP4 whose H.264 stream uses the
/// Baseline profile (0x42); any other profile is refused.
pub open spec fn spec_baseline_config(s: Seq<u8>) -> Result<(StreamInfo, NalView, NalView), ErrorView> {
    match spec_probe_mp4_avcc(s) {
        Err(e) => Err(e),
        Ok(stream) => match spec_parameter_sets(s) {
            Err(e) => Err(e),
            Ok((sps, pps)) => if sps_profile(sps) != 0x42 {
                Err(ErrorView::Unsupported(
                    "H.264 profile 0x"@ + hex2(sps_profile(sps))
                        + " is unsupported; only Baseline profile 0x42 is implemented"@,
                ))
            } else {
                Ok((stream, sps, pps))
            },
        },
    }
}

fn read_baseline_config(bytes: &[u8]) -> (r: Result<BaselineConfig, RtlError>)
    ensures
        result_is(r, spec_baseline_config(bytes@),
            |c: BaselineConfig, w: (StreamInfo, NalView, NalView)| c.stream == w.0 && c.sps@ == w.1 && c.pps@ == w.2),
{
    let stream = probe_mp4_avcc(bytes)?;
    let (sps, pps) = parameter_sets_from_avcc(bytes)?;
    let profile: u8 = if sps.payload.len() > 1 { sps.payload[1] } else { 0 };
    if profile != 0x42 {
        let mut message = "H.264 profile 0x".to_owned();
        push_hex2(&mut message, profile);
        message.append(" is unsupported; only Baseline profile 0x42 is implemented");
        return Err(RtlError::Unsupported(message));
    }
    Ok(BaselineConfig { stream, sps, pps })
}

/// The outcome of decoding the MP4 `s`: its stream information when it has no
/// sample at all, else why its last sample (the first one decoded) cannot be decoded.
pub open spec fn spec_decode_mp4(s: Seq<u8>) -> Result<StreamInfo, ErrorView> {
    match spec_baseline_config(s) {
        Err(e) => Err(e),
        Ok((stream, _, _)) => match spec_video_samples(s) {
            Err(e) => Err(e),
            Ok(samples) => if samples.len() == 0 {
                Ok(stream)
            } else {
                match spec_split_avcc(samples.last(), stream.length_size as int) {
                    Err(e) => Err(e),
                    Ok(nals) => Err(spec_access_unit_error(nals, 0)),
                }
            },
        },
    }
}

/// Decodes the H.264 video of an MP4 held in `bytes`. Samples are taken from the last
/// one back; slice reconstruction is not implemented, so a video with samples is
/// always refused and no frame is ever produced.
pub fn decode_mp4(bytes: &[u8]) -> (r: Result<(StreamInfo, DecodedFrameList), RtlError>)
    ensures
        result_is(r, spec_decode_mp4(bytes@), |v: (StreamInfo, DecodedFrameList), w: StreamInfo| v.0 == w && v.1@.len() == 0),
{
    let config = read_baseline_config(bytes)?;
    let mut samples = extract_video_samples(bytes)?;
    let mut decoded = DecodedFrameList::new();
    let ghost all = frame_bytes(samples@);
    loop
        invariant
            frame_bytes(samples@) == all,
            spec_video_samples(bytes@) == Ok::<Seq<Seq<u8>>, ErrorView>(all),
            spec_baseline_config(bytes@) matches Ok(c) && c.0 == config.stream,
            decoded@.len() == 0,
        decreases samples@.len(),
    {
        let ghost before = samples@;
        match samples.pop() {
            None => {
                return Ok((config.stream, decoded));
            },
            Some(sample) => {
                assert(sample.data@ == all.last());
                let nals = split_avcc_sample(sample.data.as_slice(), config.stream.length_size)?;
                decode_access_unit(&config, &nals, &mut decoded)?;
            },
        }
    }
}

/// `value` limited to the range of a byte.
pub open spec fn clamp_to_byte(value: int) -> u8 {
    if value < 0 { 0 } else if value > 255 { 255 } else { value as u8 }
}

/// Channel `channel` (0 red, 1 green, 2 blue) of the pixel with luma `luma` and
/// chroma `cb`, `cr`, in the integer approximation of BT.601 full range: each product
/// is divided by 256 rounding down.
pub open spec fn rgb_channel(luma: int, cb: int, cr: int, channel: int) -> u8 {
    let b = cb - 128;
    let r = cr - 128;
    if channel == 0 {
        clamp_to_byte(luma + (359 * r) / 256)
    } else if channel == 1 {
        clamp_to_byte(luma - (88 * b + 183 * r) / 256)
    } else {
        clamp_to_byte(luma + (454 * b) / 256)
    }
}

/// Byte `k` of the RGB picture made from the planes `y`, `cb`, `cr` of a 4:2:0 picture
/// `width` pixels wide: each chroma sample covers a 2x2 block of pixels.
pub open spec fn yuv_pixel_byte(width: int, y: Seq<u8>, cb: Seq<u8>, cr: Seq<u8>, k: int) -> u8 {
    let pixel = k / 3;
    let row = pixel / width;
    let column = pixel % width;
    let chroma = (row / 2) * ((width + 1) / 2) + column / 2;
    rgb_channel(y[pixel] as int, cb[chroma] as int, cr[chroma] as int, k % 3)
}

/// The RGB bytes of the 4:2:0 picture given by its planes, or why it is refused.
pub open spec fn spec_yuv420_to_rgb(width: u32, height: u32, y: Seq<u8>, cb: Seq<u8>, cr: Seq<u8>) -> Result<Seq<u8>, ErrorView> {
    let chroma_width = (width + 1) / 2;
    let chroma_height = (height + 1) / 2;
    if width * height > usize::MAX {
        Err(ErrorView::Format("frame dimensions overflow"@))
    } else if chroma_width * chroma_height > usize::MAX {
        Err(ErrorView::Format("chroma dimensions overflow"@))
    } else if y.len() != width * height || cb.len() != chroma_width * chroma_height || cr.len() != chroma_width
        * chroma_height {
        Err(ErrorView::Format("YUV 4:2:0 planes have invalid sizes"@))
    } else if rgb_len(width, height) > usize::MAX {
        Err(ErrorView::Format("decoded frame dimensions overflow"@))
    } else {
        Ok(Seq::new((3 * width * height) as nat, |k: int| yuv_pixel_byte(width as int, y, cb, cr, k)))
    }
}

fn clamp_byte(value: i32) -> (b: u8)
    ensures
        b == clamp_to_byte(value as int),
{
    if value < 0 {
        0
    } else if value > 255 {
        255
    } else {
        value as u8
    }
}

fn floor_div_256(value: i32) -> (q: i32)
    requires
        -0x100_0000 <= value <= 0x100_0000,
    ensures
        q == value / 256,
{
    if value >= 0 {
        ((value as u32) / 256) as i32
    } else {
        let magnitude = (-value) as u32;
        let q = -(((magnitude + 255) / 256) as i32);
        assert(q == value / 256) by (nonlinear_arith)
            requires
                value < 0,
                magnitude == -value,
                q == -((magnitude + 255) / 256),
        ;
        q
    }
}

fn rgb_pixel(luma: u8, cb: u8, cr: u8) -> (rgb: (u8, u8, u8))
    ensures
        rgb.0 == rgb_channel(luma as int, cb as int, cr as int, 0),
        rgb.1 == rgb_channel(luma as int, cb as int, cr as int, 1),
        rgb.2 == rgb_channel(luma as int, cb as int, cr as int, 2),
{
    let y_value = luma as i32;
    let cb_value = cb as i32 - 128;
    let cr_value = cr as i32 - 128;
    let red = clamp_byte(y_value + floor_div_256(359 * cr_value));
    let green = clamp_byte(y_value - floor_div_256(88 * cb_value + 183 * cr_value));
    let blue = clamp_byte(y_value + floor_div_256(454 * cb_value));
    (red, green, blue)
}

proof fn lemma_pixel_position(w: int, h: int, row: int, column: int, p: int)
    requires
        0 <= row < h,
        0 <= column < w,
        p == row * w + column,
    ensures
        p < w * h,
        p / w == row,
        p % w == column,
        (3 * p) / 3 == p,
        (3 * p) % 3 == 0,
        (3 * p + 1) / 3 == p,
        (3 * p + 1) % 3 == 1,
        (3 * p + 2) / 3 == p,
        (3 * p + 2) % 3 == 2,
{
    assert(row * w + column < w * h) by (nonlinear_arith)
        requires
            0 <= row < h,
            0 <= column < w,
    ;
    vstd::arithmetic::div_mod::lemma_fundamental_div_mod_converse(p, w, row, column);
    vstd::arithmetic::div_mod::lemma_fundamental_div_mod_converse(3 * p, 3, p, 0);
    vstd::arithmetic::div_mod::lemma_fundamental_div_mod_converse(3 * p + 1, 3, p, 1);
    vstd::arithmetic::div_mod::lemma_fundamental_div_mod_converse(3 * p + 2, 3, p, 2);
}

proof fn lemma_chroma_position(cw: int, ch: int, row: int, column: int, w: int, h: int)
    requires
        0 <= row < h,
        0 <= column < w,
        cw == (w + 1) / 2,
        ch == (h + 1) / 2,
    ensures
        0 <= (row / 2) * cw + column / 2 < cw * ch,
{
    assert(0 <= (row / 2) * cw + column / 2 < cw * ch) by (nonlinear_arith)
        requires
            0 <= row / 2 < ch,
            0 <= column / 2 < cw,
    ;
}

/// Converts a 4:2:0 picture given by its Y, Cb and Cr planes to an RGB frame.
pub fn yuv420_to_rgb(width: u32, height: u32, y: &[u8], cb: &[u8], cr: &[u8]) -> (r: Result<RgbFrame, RtlError>)
    ensures
        result_is(r, spec_yuv420_to_rgb(width, height, y@, cb@, cr@),
            |f: RgbFrame, px: Seq<u8>| f.width == width && f.height == height && f.pixels@ == px),
{
    let w = width as usize;
    let h = height as usize;
    assert(width * height <= 0xffff_fffe_0000_0001) by (nonlinear_arith)
        requires
            width <= 0xffff_ffff,
            height <= 0xffff_ffff,
    ;
    let area = (width as u64) * (height as u64);
    if area > usize::MAX as u64 {
        return Err(format_error("frame dimensions overflow"));
    }
    let luma_len = area as usize;
    let chroma_width = w / 2 + w % 2;
    let chroma_height = h / 2 + h % 2;
    assert(chroma_width * chroma_height <= 0x4000_0000_0000_0000) by (nonlinear_arith)
        requires
            0 <= chroma_width <= 0x8000_0000,
            0 <= chroma_height <= 0x8000_0000,
    ;
    let chroma_area = (chroma_width as u64) * (chroma_height as u64);
    if chroma_area > usize::MAX as u64 {
        return Err(format_error("chroma dimensions overflow"));
    }
    let chroma_len = chroma_area as usize;
    if y.len() != luma_len || cb.len() != chroma_len || cr.len() != chroma_len {
        return Err(format_error("YUV 4:2:0 planes have invalid sizes"));
    }
    if luma_len > usize::MAX / 3 {
        return Err(format_error("decoded frame dimensions overflow"));
    }
    let ghost wi = width as int;
    let mut pixels: Vec<u8> = Vec::new();
    let mut row: usize = 0;
    while row < h
        invariant
            w == width,
            h == height,
            wi == width,
            row <= h,
            chroma_len == chroma_width * chroma_height,
            luma_len == w * h,
            3 * luma_len <= usize::MAX,
            chroma_width == (wi + 1) / 2,
            chroma_height == (height + 1) / 2,
            y@.len() == luma_len,
            cb@.len() == chroma_width * chroma_height,
            cr@.len() == chroma_width * chroma_height,
            pixels@.len() == 3 * (row * w),
            forall|k: int| 0 <= k < pixels@.len() ==> pixels@[k] == #[trigger] yuv_pixel_byte(wi, y@, cb@, cr@, k),
        decreases h - row,
    {
        let mut column: usize = 0;
        while column < w
            invariant
                w == width,
                h == height,
                wi == width,
                row < h,
                chroma_len == chroma_width * chroma_height,
                column <= w,
                luma_len == w * h,
                3 * luma_len <= usize::MAX,
                chroma_width == (wi + 1) / 2,
                chroma_height == (height + 1) / 2,
                y@.len() == luma_len,
                cb@.len() == chroma_width * chroma_height,
                cr@.len() == chroma_width * chroma_height,
                pixels@.len() == 3 * (row * w + column),
                forall|k: int| 0 <= k < pixels@.len() ==> pixels@[k] == #[trigger] yuv_pixel_byte(wi, y@, cb@, cr@, k),
            decreases w - column,
        {
            proof {
                lemma_pixel_position(w as int, h as int, row as int, column as int, row * w + column);
                lemma_chroma_position(chroma_width as int, chroma_height as int, row as int, column as int, w as int, h as int);
            }
            let pixel = row * w + column;
            let chroma_index = (row / 2) * chroma_width + column / 2;
            let (red, green, blue) = rgb_pixel(y[pixel], cb[chroma_index], cr[chroma_index]);
            let ghost start = pixels@.len() as int;
            pixels.push(red);
            pixels.push(green);
            pixels.push(blue);
            proof {
                assert(start == 3 * pixel);
                assert(yuv_pixel_byte(wi, y@, cb@, cr@, start) == red);
                assert(yuv_pixel_byte(wi, y@, cb@, cr@, start + 1) == green);
                assert(yuv_pixel_byte(wi, y@, cb@, cr@, start + 2) == blue);
            }
            column = column + 1;
        }
        assert(row * w + w == (row + 1) * w) by (nonlinear_arith);
        row = row + 1;
    }
    proof {
        assert(3 * (h * w) == 3 * width * height) by (nonlinear_arith)
            requires
                h == height,
                w == width,
        ;
        assert(pixels@ =~= Seq::new((3 * width * height) as nat, |k: int| yuv_pixel_byte(wi, y@, cb@, cr@, k)));
    }
    RgbFrame::new(width, height, pixels)
}

/// A chroma sample of 128 on both planes is neutral: each of the three channels
/// equals the luma.
pub proof fn lemma_neutral_chroma_channel(luma: u8, channel: int)
    ensures
        rgb_channel(luma as int, 128, 128, channel) == luma,
{
}

/// A picture whose chroma planes are all 128 converts to grey: every byte of a pixel
/// is that pixel's luma.
pub proof fn lemma_neutral_chroma_is_grey(width: u32, height: u32, y: Seq<u8>, cb: Seq<u8>, cr: Seq<u8>)
    requires
        forall|i: int| 0 <= i < cb.len() ==> cb[i] == 128,
        forall|i: int| 0 <= i < cr.len() ==> cr[i] == 128,
    ensures
        spec_yuv420_to_rgb(width, height, y, cb, cr) matches Ok(pixels) ==> forall|k: int|
            0 <= k < pixels.len() ==> #[trigger] pixels[k] == y[k / 3],
{
    if let Ok(pixels) = spec_yuv420_to_rgb(width, height, y, cb, cr) {
        let w = width as int;
        let h = height as int;
        assert forall|k: int| 0 <= k < pixels.len() implies #[trigger] pixels[k] == y[k / 3] by {
            let p = k / 3;
            assert(pixels.len() == 3 * w * h);
            assert(0 <= p < w * h) by (nonlinear_arith)
                requires
                    0 <= k < 3 * w * h,
                    p == k / 3,
            ;
            assert(w > 0) by (nonlinear_arith)
                requires
                    0 <= p < w * h,
                    h >= 0,
                    w >= 0,
            ;
            let row = p / w;
            let column = p % w;
            assert(0 <= row < h) by (nonlinear_arith)
                requires
                    0 <= p < w * h,
                    w > 0,
                    row == p / w,
            ;
            lemma_chroma_position((w + 1) / 2, (h + 1) / 2, row, column, w, h);
        }
    }
}

/// A channel byte follows luma one for one and saturates at the ends: for fixed
/// chroma, a brighter luma never gives a darker byte; while neither byte is at 0 or
/// 255, the bytes differ exactly as the lumas do; and a luma of 255 whose chroma
/// pushes the channel up (Cr at or above 128 for red, Cb at or above 128 for blue,
/// both at or below 128 for green) gives 255, as a luma of 0 whose chroma pulls the
/// channel down gives 0.
pub proof fn lemma_channel_follows_luma(l1: int, l2: int, cb: int, cr: int, channel: int)
    requires
        l1 <= l2,
    ensures
        rgb_channel(l1, cb, cr, channel) <= rgb_channel(l2, cb, cr, channel),
        0 < rgb_channel(l1, cb, cr, channel) < 255 && 0 < rgb_channel(l2, cb, cr, channel) < 255
            ==> rgb_channel(l2, cb, cr, channel) - rgb_channel(l1, cb, cr, channel) == l2 - l1,
        cr >= 128 ==> rgb_channel(255, cb, cr, 0) == 255,
        cb >= 128 ==> rgb_channel(255, cb, cr, 2) == 255,
        cb <= 128 && cr <= 128 ==> rgb_channel(255, cb, cr, 1) == 255,
        cr <= 128 ==> rgb_channel(0, cb, cr, 0) == 0,
        cb <= 128 ==> rgb_channel(0, cb, cr, 2) == 0,
        cb >= 128 && cr >= 128 ==> rgb_channel(0, cb, cr, 1) == 0,
{
}

/// While a channel is not saturated, its distance from the luma is the BT.601 chroma
/// term rounded down: red is luma plus 359 (Cr - 128) / 256, green luma less
/// (88 (Cb - 128) + 183 (Cr - 128)) / 256, blue luma plus 454 (Cb - 128) / 256, each
/// quotient the largest integer not above the exact one.
pub proof fn lemma_channel_offsets(luma: int, cb: int, cr: int)
    ensures
        0 < rgb_channel(luma, cb, cr, 0) < 255 ==> 0 <= 359 * (cr - 128) - 256 * (rgb_channel(luma, cb, cr, 0) - luma)
            < 256,
        0 < rgb_channel(luma, cb, cr, 1) < 255 ==> 0 <= 88 * (cb - 128) + 183 * (cr - 128) - 256 * (luma
            - rgb_channel(luma, cb, cr, 1)) < 256,
        0 < rgb_channel(luma, cb, cr, 2) < 255 ==> 0 <= 454 * (cb - 128) - 256 * (rgb_channel(luma, cb, cr, 2) - luma)
            < 256,
{
}

/// Red grows with Cr, blue with Cb, and green falls as either grows; red does not
/// depend on Cb, nor blue on Cr.
pub proof fn lemma_channel_follows_chroma(luma: int, cb1: int, cb2: int, cr1: int, cr2: int)
    requires
        cb1 <= cb2,
        cr1 <= cr2,
    ensures
        rgb_channel(luma, cb1, cr1, 0) == rgb_channel(luma, cb2, cr1, 0),
        rgb_channel(luma, cb1, cr1, 2) == rgb_channel(luma, cb1, cr2, 2),
        rgb_channel(luma, cb1, cr1, 0) <= rgb_channel(luma, cb2, cr2, 0),
        rgb_channel(luma, cb1, cr1, 2) <= rgb_channel(luma, cb2, cr2, 2),
        rgb_channel(luma, cb2, cr2, 1) <= rgb_channel(luma, cb1, cr1, 1),
{
    vstd::arithmetic::div_mod::lemma_div_is_ordered(359 * (cr1 - 128), 359 * (cr2 - 128), 256);
    vstd::arithmetic::div_mod::lemma_div_is_ordered(454 * (cb1 - 128), 454 * (cb2 - 128), 256);
    vstd::arithmetic::div_mod::lemma_div_is_ordered(
        88 * (cb1 - 128) + 183 * (cr1 - 128),
        88 * (cb2 - 128) + 183 * (cr2 - 128),
        256,
    );
}

/// Each pixel of a 4:2:0 picture takes its chroma from the sample of its 2x2 block: the
/// bytes of the pixel in row `r` and column `c` are its three channels for its own
/// luma `y[r * width + c]` and the chroma samples at row `r / 2`, column `c / 2` of the
/// half-size chroma planes, which are `(width + 1) / 2` samples wide.
pub proof fn lemma_pixel_takes_block_chroma(width: u32, height: u32, y: Seq<u8>, cb: Seq<u8>, cr: Seq<u8>)
    ensures
        spec_yuv420_to_rgb(width, height, y, cb, cr) matches Ok(pixels) ==> forall|r: int, c: int, channel: int|
            0 <= r < height && 0 <= c < width && 0 <= channel < 3 ==> #[trigger] pixels[3 * (r * width + c) + channel]
                == rgb_channel(
                y[r * width + c] as int,
                cb[(r / 2) * ((width + 1) / 2) + c / 2] as int,
                cr[(r / 2) * ((width + 1) / 2) + c / 2] as int,
                channel,
            ),
{
    if let Ok(pixels) = spec_yuv420_to_rgb(width, height, y, cb, cr) {
        let w = width as int;
        let h = height as int;
        assert forall|r: int, c: int, channel: int|
            0 <= r < height && 0 <= c < width && 0 <= channel < 3 implies #[trigger] pixels[3 * (r * width + c)
                + channel] == rgb_channel(
                y[r * width + c] as int,
                cb[(r / 2) * ((width + 1) / 2) + c / 2] as int,
                cr[(r / 2) * ((width + 1) / 2) + c / 2] as int,
                channel,
            ) by {
            let p = r * w + c;
            lemma_pixel_position(w, h, r, c, p);
            let k = 3 * p + channel;
            assert(k / 3 == p && k % 3 == channel) by {
                vstd::arithmetic::div_mod::lemma_fundamental_div_mod_converse(k, 3, p, channel);
            }
            assert(k < 3 * w * h) by (nonlinear_arith)
                requires
                    p < w * h,
                    k == 3 * p + channel,
                    channel < 3,
            ;
        }
    }
}

/// Brightening the luma plane never darkens the picture: two pictures with the same
/// chroma planes, where every luma sample of the first is at most that of the second,
/// convert to RGB bytes of which every one of the first is at most that of the second.
pub proof fn lemma_brighter_luma_brighter_picture(
    width: u32,
    height: u32,
    y1: Seq<u8>,
    y2: Seq<u8>,
    cb: Seq<u8>,
    cr: Seq<u8>,
)
    requires
        y1.len() == y2.len(),
        forall|i: int| 0 <= i < y1.len() ==> #[trigger] y1[i] <= y2[i],
    ensures
        spec_yuv420_to_rgb(width, height, y1, cb, cr) matches Ok(p1) ==> (spec_yuv420_to_rgb(
            width,
            height,
            y2,
            cb,
            cr,
        ) matches Ok(p2) && p1.len() == p2.len() && forall|k: int| 0 <= k < p1.len() ==> #[trigger] p1[k] <= p2[k]),
{
    if let Ok(p1) = spec_yuv420_to_rgb(width, height, y1, cb, cr) {
        let p2 = spec_yuv420_to_rgb(width, height, y2, cb, cr)->Ok_0;
        let w = width as int;
        let h = height as int;
        assert forall|k: int| 0 <= k < p1.len() implies #[trigger] p1[k] <= p2[k] by {
            let p = k / 3;
            assert(0 <= p < w * h) by (nonlinear_arith)
                requires
                    0 <= k < 3 * w * h,
                    p == k / 3,
            ;
            assert(y1[p] <= y2[p]);
            let row = p / w;
            let column = p % w;
            let c = (row / 2) * ((w + 1) / 2) + column / 2;
            lemma_channel_follows_luma(y1[p] as int, y2[p] as int, cb[c] as int, cr[c] as int, k % 3);
        }
    }
}

/// Units that carry no picture (delimiters, SEI, SPS and PPS) are passed over: putting
/// one in front of an access unit does not change why it cannot be decoded. A slice
/// (coded or IDR) at the front decides the answer: slice reconstruction is not
/// implemented. Any other unit at the front is refused by its kind's name.
pub proof fn lemma_access_unit_front(unit: NalView, nals: Seq<NalView>)
    ensures
        (unit.kind == NalKind::AccessUnitDelimiter || unit.kind == NalKind::SupplementalEnhancement || unit.kind
            == NalKind::SequenceParameterSet || unit.kind == NalKind::PictureParameterSet) ==> spec_access_unit_error(
            seq![unit] + nals,
            0,
        ) == spec_access_unit_error(nals, 0),
        (unit.kind == NalKind::CodedSlice || unit.kind == NalKind::IdrSlice) ==> spec_access_unit_error(
            seq![unit] + nals,
            0,
        ) == ErrorView::Unsupported(
            "H.264 coded-slice reconstruction (CAVLC, prediction, and reference pictures) is not implemented"@,
        ),
        (unit.kind == NalKind::Unspecified || unit.kind == NalKind::EndOfSequence || unit.kind == NalKind::EndOfStream
            || unit.kind is Other) ==> spec_access_unit_error(seq![unit] + nals, 0) == ErrorView::Unsupported(
            "H.264 NAL type "@ + kind_name(unit.kind) + " is unsupported"@,
        ),
{
    lemma_access_unit_shift(unit, nals, 0);
}

proof fn lemma_access_unit_shift(unit: NalView, nals: Seq<NalView>, k: int)
    requires
        0 <= k,
    ensures
        spec_access_unit_error(seq![unit] + nals, k + 1) == spec_access_unit_error(nals, k),
    decreases nals.len() - k,
{
    let all = seq![unit] + nals;
    if k < nals.len() {
        assert(all[k + 1] == nals[k]);
        lemma_access_unit_shift(unit, nals, k + 1);
    }
}

/// Only the Baseline profile is decoded: a configuration is accepted exactly when the
/// avcC record reads and its SPS has profile_idc 66 (0x42) in the byte after its NAL
/// header; any other profile is refused as unsupported.
pub proof fn lemma_baseline_only(s: Seq<u8>)
    ensures
        spec_baseline_config(s) matches Ok((stream, sps, pps)) ==> sps.payload.len() > 1 && sps.payload[1] == 66
            && spec_probe_mp4_avcc(s) == Ok::<StreamInfo, ErrorView>(stream) && spec_parameter_sets(s) == Ok::<
            (NalView, NalView),
            ErrorView,
        >((sps, pps)),
        spec_probe_mp4_avcc(s) is Ok ==> (spec_parameter_sets(s) matches Ok((sps, pps)) ==> (!(sps.payload.len() > 1
            && sps.payload[1] == 66) ==> (spec_baseline_config(s) matches Err(e) && e is Unsupported))),
{
}

/// Decoding never invents pixels: it succeeds only on a video that has no sample (and
/// `decode_mp4` then hands back an empty frame list together with what the avcC
/// record says of the stream), and every video with a sample is refused with an error.
pub proof fn lemma_decoding_never_invents_pixels(s: Seq<u8>)
    ensures
        spec_decode_mp4(s) is Ok ==> spec_video_samples(s) == Ok::<Seq<Seq<u8>>, ErrorView>(Seq::empty()),
        spec_decode_mp4(s) matches Ok(info) ==> spec_probe_mp4_avcc(s) == Ok::<StreamInfo, ErrorView>(info),
        (spec_video_samples(s) matches Ok(samples) && samples.len() > 0) ==> spec_decode_mp4(s) is Err,
{
    if let Ok(samples) = spec_video_samples(s) {
        if samples.len() == 0 {
            assert(samples =~= Seq::<Seq<u8>>::empty());
        }
    }
}

/// An access unit is never decoded: whatever its units, the answer is an
/// unsupported-feature error.
pub proof fn lemma_access_unit_always_unsupported(nals: Seq<NalView>, k: int)
    ensures
        spec_access_unit_error(nals, k) is Unsupported,
    decreases nals.len() - k,
{
    if 0 <= k < nals.len() {
        lemma_access_unit_always_unsupported(nals, k + 1);
    }
}

/// How a read of one raw RGB frame from an external decoder's output ended.
#[derive(Debug, Clone, Copy, PartialEq, Eq, Structural)]
pub enum RawFrameRead {
    /// Nothing more came: the stream is over.
    EndOfStream,
    /// Some bytes came, but fewer than a frame: the stream is refused.
    Truncated,
    /// A whole frame came.
    Complete,
}

/// What to do after `received` bytes of a raw frame of `frame_size` bytes arrived
/// before the stream paused or ended.
pub fn classify_raw_frame(received: usize, frame_size: usize) -> (read: RawFrameRead)
    ensures
        received == 0 ==> read == RawFrameRead::EndOfStream,
        received != 0 && received != frame_size ==> read == RawFrameRead::Truncated,
        received != 0 && received == frame_size ==> read == RawFrameRead::Complete,
{
    if received == 0 {
        RawFrameRead::EndOfStream
    } else if received != frame_size {
        RawFrameRead::Truncated
    } else {
        RawFrameRead::Complete
    }
}

} // verus!
