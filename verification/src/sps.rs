//! The fields of an H.264 sequence parameter set that lead to the picture size.

use vstd::prelude::*;
use crate::bits::{se_of, spec_read_bits, spec_read_se, spec_read_ue, BitReader};
use crate::error::{format_error, result_is, ErrorView, RtlError};
use crate::h264::VideoDimensions;

verus! {

/// The profiles whose SPS carries chroma format and scaling-matrix fields.
pub open spec fn high_profile(profile: int) -> bool {
    profile == 100 || profile == 110 || profile == 122 || profile == 244 || profile == 44 || profile == 83
        || profile == 86 || profile == 118 || profile == 128 || profile == 138 || profile == 139 || profile == 134
}

/// The next scale of a scaling list: `(last + delta + 256) % 256` in 32-bit signed
/// arithmetic, where `%` keeps the sign of the dividend.
pub open spec fn delta_step(last: int, delta: int) -> int {
    let v = last + delta + 256;
    if v >= 0 { v % 256 } else { -((-v) % 256) }
}

/// Skipping entries `j..size` of a scaling list at bit `p`, with the given last and
/// next scales: a delta is read for each entry while the next scale is not zero.
pub open spec fn spec_scaling_list(s: Seq<u8>, p: int, j: int, size: int, last: int, next: int) -> Result<int, ErrorView>
    decreases size - j,
{
    if j < 0 || j >= size {
        Ok(p)
    } else if next != 0 {
        match spec_read_se(s, p) {
            Err(e) => Err(e),
            Ok((delta, q)) => {
                let scale = delta_step(last, delta as int);
                spec_scaling_list(s, q, j + 1, size, if scale == 0 { last } else { scale }, scale)
            },
        }
    } else {
        spec_scaling_list(s, p, j + 1, size, last, next)
    }
}

/// Skipping scaling lists `index..count` at bit `p`: each opens with a presence flag.
/// The first six lists have 16 entries, the others 64.
pub open spec fn spec_scaling_lists(s: Seq<u8>, p: int, index: int, count: int) -> Result<int, ErrorView>
    decreases count - index,
{
    if index < 0 || index >= count {
        Ok(p)
    } else {
        match spec_read_bits(s, p, 1) {
            Err(e) => Err(e),
            Ok((flag, q)) => if flag != 0 {
                match spec_scaling_list(s, q, 0, if index < 6 { 16 } else { 64 }, 8, 8) {
                    Err(e) => Err(e),
                    Ok(r) => spec_scaling_lists(s, r, index + 1, count),
                }
            } else {
                spec_scaling_lists(s, q, index + 1, count)
            },
        }
    }
}

/// The position after the chroma and scaling-matrix fields that follow the SPS id.
pub open spec fn spec_chroma_fields(s: Seq<u8>, p: int, profile: int) -> Result<int, ErrorView> {
    if !high_profile(profile) {
        Ok(p)
    } else {
        match spec_read_ue(s, p) {
            Err(e) => Err(e),
            Ok((chroma, p1)) => match (if chroma == 3 { spec_read_bits(s, p1, 1) } else { Ok((0u32, p1)) }) {
                Err(e) => Err(e),
                Ok((_, p2)) => match spec_read_ue(s, p2) {
                    Err(e) => Err(e),
                    Ok((_, p3)) => match spec_read_ue(s, p3) {
                        Err(e) => Err(e),
                        Ok((_, p4)) => match spec_read_bits(s, p4, 1) {
                            Err(e) => Err(e),
                            Ok((_, p5)) => match spec_read_bits(s, p5, 1) {
                                Err(e) => Err(e),
                                Ok((flag, p6)) => if flag != 0 {
                                    spec_scaling_lists(s, p6, 0, if chroma == 3 { 12 } else { 8 })
                                } else {
                                    Ok(p6)
                                },
                            },
                        },
                    },
                },
            },
        }
    }
}

/// Skipping `n` signed Exp-Golomb codes at `p`.
pub open spec fn spec_skip_se(s: Seq<u8>, p: int, n: int) -> Result<int, ErrorView>
    decreases n,
{
    if n <= 0 {
        Ok(p)
    } else {
        match spec_read_se(s, p) {
            Err(e) => Err(e),
            Ok((_, q)) => spec_skip_se(s, q, n - 1),
        }
    }
}

/// The position after the picture-order-count fields of type `poc_type`.
pub open spec fn spec_poc_fields(s: Seq<u8>, p: int, poc_type: u32) -> Result<int, ErrorView> {
    if poc_type == 0 {
        match spec_read_ue(s, p) {
            Err(e) => Err(e),
            Ok((_, q)) => Ok(q),
        }
    } else if poc_type == 1 {
        match spec_read_bits(s, p, 1) {
            Err(e) => Err(e),
            Ok((_, p1)) => match spec_read_se(s, p1) {
                Err(e) => Err(e),
                Ok((_, p2)) => match spec_read_se(s, p2) {
                    Err(e) => Err(e),
                    Ok((_, p3)) => match spec_read_ue(s, p3) {
                        Err(e) => Err(e),
                        Ok((count, p4)) => spec_skip_se(s, p4, count as int),
                    },
                },
            },
        }
    } else {
        Ok(p)
    }
}

/// The error for picture sizes or crop amounts that do not fit in 32 bits.
pub open spec fn sps_overflow() -> ErrorView {
    ErrorView::Format("H.264 SPS dimensions overflow"@)
}

/// The picture size left by the four cropping offsets read at `p`.
pub open spec fn spec_cropped_size(s: Seq<u8>, p: int, width: u32, height: u32, frame_mbs_only: bool) -> Result<VideoDimensions, ErrorView> {
    match spec_read_ue(s, p) {
        Err(e) => Err(e),
        Ok((left, p1)) => match spec_read_ue(s, p1) {
            Err(e) => Err(e),
            Ok((right, p2)) => match spec_read_ue(s, p2) {
                Err(e) => Err(e),
                Ok((top, p3)) => match spec_read_ue(s, p3) {
                    Err(e) => Err(e),
                    Ok((bottom, _)) => {
                        let crop_x = left + right;
                        let crop_y = (top + bottom) * (if frame_mbs_only { 2int } else { 4 });
                        if crop_x > u32::MAX || crop_y > u32::MAX {
                            Err(sps_overflow())
                        } else if crop_x >= width || crop_y >= height {
                            Err(ErrorView::Format("H.264 SPS crop exceeds frame dimensions"@))
                        } else {
                            Ok(VideoDimensions { width: (width - crop_x) as u32, height: (height - crop_y) as u32 })
                        }
                    },
                },
            },
        },
    }
}

/// The picture size from the coded width and height in pixels and the frame and
/// cropping fields that follow them; a size that does not fit in 32 bits is refused.
pub open spec fn spec_frame_size(s: Seq<u8>, p: int, width: u32, height: u32) -> Result<VideoDimensions, ErrorView> {
    match spec_read_bits(s, p, 1) {
        Err(e) => Err(e),
        Ok((frame_mbs_only, p1)) => match (if frame_mbs_only != 0 { Ok((0u32, p1)) } else { spec_read_bits(s, p1, 1) }) {
            Err(e) => Err(e),
            Ok((_, p2)) => match spec_read_bits(s, p2, 1) {
                Err(e) => Err(e),
                Ok((_, p3)) => match spec_read_bits(s, p3, 1) {
                    Err(e) => Err(e),
                    Ok((cropping, p4)) => if cropping != 0 {
                        spec_cropped_size(s, p4, width, height, frame_mbs_only != 0)
                    } else {
                        let full_height = height * (if frame_mbs_only != 0 { 1int } else { 2 });
                        if full_height > u32::MAX {
                            Err(sps_overflow())
                        } else {
                            Ok(VideoDimensions { width, height: full_height as u32 })
                        }
                    },
                },
            },
        },
    }
}

/// The picture size that the SPS RBSP `s` describes.
pub open spec fn spec_sps_dimensions(s: Seq<u8>) -> Result<VideoDimensions, ErrorView> {
    match spec_read_bits(s, 0, 8) {
        Err(e) => Err(e),
        Ok((profile, p1)) => match spec_read_bits(s, p1, 8) {
            Err(e) => Err(e),
            Ok((_, p2)) => match spec_read_bits(s, p2, 8) {
                Err(e) => Err(e),
                Ok((_, p3)) => match spec_read_ue(s, p3) {
                    Err(e) => Err(e),
                    Ok((_, p4)) => match spec_chroma_fields(s, p4, profile as int) {
                        Err(e) => Err(e),
                        Ok(p5) => match spec_read_ue(s, p5) {
                            Err(e) => Err(e),
                            Ok((_, p6)) => match spec_read_ue(s, p6) {
                                Err(e) => Err(e),
                                Ok((poc_type, p7)) => match spec_poc_fields(s, p7, poc_type) {
                                    Err(e) => Err(e),
                                    Ok(p8) => match spec_read_ue(s, p8) {
                                        Err(e) => Err(e),
                                        Ok((_, p9)) => match spec_read_bits(s, p9, 1) {
                                            Err(e) => Err(e),
                                            Ok((_, p10)) => match spec_read_ue(s, p10) {
                                                Err(e) => Err(e),
                                                Ok((width_mbs, p11)) => if (width_mbs + 1) * 16 > u32::MAX {
                                                    Err(sps_overflow())
                                                } else {
                                                    match spec_read_ue(s, p11) {
                                                        Err(e) => Err(e),
                                                        Ok((height_mbs, p12)) => if (height_mbs + 1) * 16 > u32::MAX {
                                                            Err(sps_overflow())
                                                        } else {
                                                            spec_frame_size(s, p12, ((width_mbs + 1) * 16) as u32, ((height_mbs + 1) * 16) as u32)
                                                        },
                                                    }
                                                },
                                            },
                                        },
                                    },
                                },
                            },
                        },
                    },
                },
            },
        },
    }
}

/// Every signed Exp-Golomb value lies within 2^30 of zero.
pub proof fn lemma_se_range()
    ensures
        forall|code: u32| -0x4000_0000 <= #[trigger] se_of(code) <= 0x4000_0000,
{
}

fn skip_scaling_list(bits: &mut BitReader, size: usize) -> (r: Result<(), RtlError>)
    ensures
        final(bits).bytes == old(bits).bytes,
        result_is(r, spec_scaling_list(old(bits).bytes@, old(bits).position as int, 0, size as int, 8, 8),
            |v: (), w: int| final(bits).position == w),
{
    let ghost s = bits.bytes@;
    let ghost start = bits.position as int;
    let mut last: i32 = 8;
    let mut next: i32 = 8;
    let mut j: usize = 0;
    while j < size
        invariant
            j <= size,
            bits.bytes == old(bits).bytes,
            bits.bytes@ == s,
            start == old(bits).position,
            -256 < last < 256,
            -256 < next < 256,
            spec_scaling_list(s, start, 0, size as int, 8, 8)
                == spec_scaling_list(s, bits.position as int, j as int, size as int, last as int, next as int),
        decreases size - j,
    {
        if next != 0 {
            let delta = bits.read_se()?;
            proof {
                lemma_se_range();
            }
            let v = last + delta + 256;
            next = if v >= 0 { ((v as u32) % 256) as i32 } else { -((((-v) as u32) % 256) as i32) };
        }
        last = if next == 0 { last } else { next };
        j = j + 1;
    }
    Ok(())
}

fn skip_scaling_matrix(bits: &mut BitReader, chroma_format: u32) -> (r: Result<(), RtlError>)
    ensures
        final(bits).bytes == old(bits).bytes,
        result_is(r, spec_scaling_lists(old(bits).bytes@, old(bits).position as int, 0, if chroma_format == 3 { 12 } else { 8 }),
            |v: (), w: int| final(bits).position == w),
{
    let ghost s = bits.bytes@;
    let ghost start = bits.position as int;
    let count: usize = if chroma_format == 3 { 12 } else { 8 };
    let mut index: usize = 0;
    while index < count
        invariant
            index <= count,
            count == (if chroma_format == 3 { 12usize } else { 8 }),
            bits.bytes == old(bits).bytes,
            bits.bytes@ == s,
            start == old(bits).position,
            spec_scaling_lists(s, start, 0, count as int) == spec_scaling_lists(s, bits.position as int, index as int, count as int),
        decreases count - index,
    {
        if bits.read_bit()? {
            let size: usize = if index < 6 { 16 } else { 64 };
            skip_scaling_list(bits, size)?;
        }
        index = index + 1;
    }
    Ok(())
}

fn is_high_profile(profile: u32) -> (high: bool)
    ensures
        high == high_profile(profile as int),
{
    profile == 100 || profile == 110 || profile == 122 || profile == 244 || profile == 44 || profile == 83
        || profile == 86 || profile == 118 || profile == 128 || profile == 138 || profile == 139 || profile == 134
}

fn chroma_fields(bits: &mut BitReader, profile: u32) -> (r: Result<(), RtlError>)
    ensures
        final(bits).bytes == old(bits).bytes,
        result_is(r, spec_chroma_fields(old(bits).bytes@, old(bits).position as int, profile as int),
            |v: (), w: int| final(bits).position == w),
{
    if is_high_profile(profile) {
        let chroma_format_idc = bits.read_ue()?;
        if chroma_format_idc == 3 {
            bits.skip_bits(1)?;
        }
        bits.read_ue()?;
        bits.read_ue()?;
        bits.skip_bits(1)?;
        if bits.read_bit()? {
            skip_scaling_matrix(bits, chroma_format_idc)?;
        }
    }
    Ok(())
}

fn poc_fields(bits: &mut BitReader, poc_type: u32) -> (r: Result<(), RtlError>)
    ensures
        final(bits).bytes == old(bits).bytes,
        result_is(r, spec_poc_fields(old(bits).bytes@, old(bits).position as int, poc_type),
            |v: (), w: int| final(bits).position == w),
{
    if poc_type == 0 {
        bits.read_ue()?;
    } else if poc_type == 1 {
        bits.skip_bits(1)?;
        bits.read_se()?;
        bits.read_se()?;
        let count = bits.read_ue()?;
        let ghost s = bits.bytes@;
        let mut i: u32 = 0;
        while i < count
            invariant
                i <= count,
                bits.bytes == old(bits).bytes,
                bits.bytes@ == s,
                    spec_poc_fields(s, old(bits).position as int, poc_type)
                    == spec_skip_se(s, bits.position as int, (count - i) as int),
            decreases count - i,
        {
            bits.read_se()?;
            i = i + 1;
        }
    }
    Ok(())
}

fn cropped_size(bits: &mut BitReader, width: u32, height: u32, frame_mbs_only: bool) -> (r: Result<VideoDimensions, RtlError>)
    ensures
        final(bits).bytes == old(bits).bytes,
        result_is(r, spec_cropped_size(old(bits).bytes@, old(bits).position as int, width, height, frame_mbs_only),
            |v: VideoDimensions, w: VideoDimensions| v == w),
{
    let left = bits.read_ue()?;
    let right = bits.read_ue()?;
    let top = bits.read_ue()?;
    let bottom = bits.read_ue()?;
    let crop_unit_y: u64 = if frame_mbs_only { 2 } else { 4 };
    let crop_x = left as u64 + right as u64;
    let crop_y = (top as u64 + bottom as u64) * crop_unit_y;
    if crop_x > u32::MAX as u64 || crop_y > u32::MAX as u64 {
        return Err(format_error("H.264 SPS dimensions overflow"));
    }
    let crop_x = crop_x as u32;
    let crop_y = crop_y as u32;
    if crop_x >= width || crop_y >= height {
        return Err(format_error("H.264 SPS crop exceeds frame dimensions"));
    }
    Ok(VideoDimensions { width: width - crop_x, height: height - crop_y })
}

fn frame_size(bits: &mut BitReader, width: u32, height: u32) -> (r: Result<VideoDimensions, RtlError>)
    ensures
        final(bits).bytes == old(bits).bytes,
        result_is(r, spec_frame_size(old(bits).bytes@, old(bits).position as int, width, height),
            |v: VideoDimensions, w: VideoDimensions| v == w),
{
    let frame_mbs_only = bits.read_bit()?;
    if !frame_mbs_only {
        bits.skip_bits(1)?;
    }
    bits.skip_bits(1)?;
    if bits.read_bit()? {
        return cropped_size(bits, width, height, frame_mbs_only);
    }
    let factor: u64 = if frame_mbs_only { 1 } else { 2 };
    let full_height = height as u64 * factor;
    if full_height > u32::MAX as u64 {
        return Err(format_error("H.264 SPS dimensions overflow"));
    }
    Ok(VideoDimensions { width, height: full_height as u32 })
}

/// Reads the picture size from the RBSP of a sequence parameter set.
pub fn sps_dimensions(rbsp: &[u8]) -> (r: Result<VideoDimensions, RtlError>)
    ensures
        result_is(r, spec_sps_dimensions(rbsp@), |v: VideoDimensions, w: VideoDimensions| v == w),
{
    let mut bits = BitReader::new(rbsp);
    let profile_idc = bits.read_bits(8)?;
    bits.skip_bits(8)?;
    bits.skip_bits(8)?;
    bits.read_ue()?;
    chroma_fields(&mut bits, profile_idc)?;
    bits.read_ue()?;
    let pic_order_cnt_type = bits.read_ue()?;
    poc_fields(&mut bits, pic_order_cnt_type)?;
    bits.read_ue()?;
    bits.skip_bits(1)?;
    let width_mbs = bits.read_ue()?;
    let width = width_mbs as u64 * 16 + 16;
    if width > u32::MAX as u64 {
        return Err(format_error("H.264 SPS dimensions overflow"));
    }
    let height_mbs = bits.read_ue()?;
    let height = height_mbs as u64 * 16 + 16;
    if height > u32::MAX as u64 {
        return Err(format_error("H.264 SPS dimensions overflow"));
    }
    frame_size(&mut bits, width as u32, height as u32)
}

} // verus!
