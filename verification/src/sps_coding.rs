//! The fields of a sequence parameter set written out as bits, and the picture size
//! that the SPS reader gives for them.

use vstd::prelude::*;
use crate::bits::spec_read_bits;
use crate::bit_coding::{
    bit_of, bits_match, se_code, lemma_read_byte_match, lemma_read_flag_match, lemma_read_ue_match, num_bits, ue_bits,
};
use crate::error::ErrorView;
use crate::h264::{is_escape_at, lemma_unescape_keeps_unescaped, spec_dimensions_from_sps, NalKind, NalView, VideoDimensions};
use crate::sps::{
    spec_chroma_fields, spec_cropped_size, spec_frame_size, spec_poc_fields, spec_scaling_list, spec_scaling_lists,
    spec_skip_se, spec_sps_dimensions,
};

verus! {

/// The syntax elements of an SPS up to the cropping window, as an encoder writes
/// them (no scaling matrix).
pub struct SpsFields {
    pub profile_idc: u8,
    pub constraint_flags: u8,
    pub level_idc: u8,
    pub seq_parameter_set_id: u32,
    pub chroma_format_idc: u32,
    pub separate_colour_plane: bool,
    pub bit_depth_luma_minus8: u32,
    pub bit_depth_chroma_minus8: u32,
    pub qpprime_y_zero_transform_bypass: bool,
    pub seq_scaling_matrix_present: bool,
    pub seq_scaling_list_present: Vec<bool>,
    pub log2_max_frame_num_minus4: u32,
    pub pic_order_cnt_type: u32,
    pub log2_max_pic_order_cnt_lsb_minus4: u32,
    pub delta_pic_order_always_zero: bool,
    pub offset_for_non_ref_pic: i32,
    pub offset_for_top_to_bottom_field: i32,
    pub offset_for_ref_frame: Vec<i32>,
    pub max_num_ref_frames: u32,
    pub gaps_in_frame_num_allowed: bool,
    pub pic_width_in_mbs_minus1: u32,
    pub pic_height_in_map_units_minus1: u32,
    pub frame_mbs_only: bool,
    pub mb_adaptive_frame_field: bool,
    pub direct_8x8_inference: bool,
    pub cropping: bool,
    pub crop_left: u32,
    pub crop_right: u32,
    pub crop_top: u32,
    pub crop_bottom: u32,
}

/// The profiles (High, High 10, High 4:2:2, High 4:4:4, CAVLC 4:4:4 and the scalable,
/// multiview and stereo High profiles) whose SPS carries chroma format, bit depths and
/// the scaling-matrix flag after the SPS id.
pub open spec fn carries_chroma_fields(profile_idc: u8) -> bool {
    profile_idc == 100 || profile_idc == 110 || profile_idc == 122 || profile_idc == 244
        || profile_idc == 44 || profile_idc == 83 || profile_idc == 86 || profile_idc == 118
        || profile_idc == 128 || profile_idc == 138 || profile_idc == 139 || profile_idc == 134
}

/// The signed Exp-Golomb codes `se(v)` of `values`, one after the other.
pub open spec fn se_seq_bits(values: Seq<i32>) -> Seq<bool>
    decreases values.len(),
{
    if values.len() == 0 {
        Seq::empty()
    } else {
        ue_bits(se_code(values[0] as int)) + se_seq_bits(values.drop_first())
    }
}

/// The scaling lists of a scaling matrix, each opened by its presence flag; a present
/// list is written as the single delta -8, which makes it the default list.
pub open spec fn scaling_lists_bits(present: Seq<bool>) -> Seq<bool>
    decreases present.len(),
{
    if present.len() == 0 {
        Seq::empty()
    } else {
        (if present[0] { seq![true] + ue_bits(se_code(-8)) } else { seq![false] }) + scaling_lists_bits(
            present.drop_first(),
        )
    }
}

/// The scaling-matrix flag and, when it is set, the scaling lists.
pub open spec fn scaling_bits(f: SpsFields) -> Seq<bool> {
    seq![f.seq_scaling_matrix_present] + (if f.seq_scaling_matrix_present {
        scaling_lists_bits(f.seq_scaling_list_present@)
    } else {
        Seq::empty()
    })
}

/// The chroma format, bit depths, flags and scaling matrix of a High-family SPS;
/// nothing for the other profiles.
pub open spec fn chroma_bits(f: SpsFields) -> Seq<bool> {
    if carries_chroma_fields(f.profile_idc) {
        ue_bits(f.chroma_format_idc as nat) + ((if f.chroma_format_idc == 3 {
            seq![f.separate_colour_plane]
        } else {
            Seq::empty()
        }) + (ue_bits(f.bit_depth_luma_minus8 as nat) + (ue_bits(f.bit_depth_chroma_minus8 as nat) + (seq![
            f.qpprime_y_zero_transform_bypass] + scaling_bits(f)))))
    } else {
        Seq::empty()
    }
}

/// The picture-order-count fields: `log2_max_pic_order_cnt_lsb_minus4` for type 0;
/// for type 1 the always-zero flag, the two offsets, the cycle length and the offsets
/// of the cycle; nothing for the types above 1.
pub open spec fn poc_bits(f: SpsFields) -> Seq<bool> {
    if f.pic_order_cnt_type == 0 {
        ue_bits(f.log2_max_pic_order_cnt_lsb_minus4 as nat)
    } else if f.pic_order_cnt_type == 1 {
        seq![f.delta_pic_order_always_zero] + (ue_bits(se_code(f.offset_for_non_ref_pic as int)) + (ue_bits(
            se_code(f.offset_for_top_to_bottom_field as int),
        ) + (ue_bits(f.offset_for_ref_frame@.len()) + se_seq_bits(f.offset_for_ref_frame@))))
    } else {
        Seq::empty()
    }
}

/// The cropping offsets, when the cropping flag is set.
pub open spec fn crop_bits(f: SpsFields) -> Seq<bool> {
    if f.cropping {
        ue_bits(f.crop_left as nat) + (ue_bits(f.crop_right as nat) + (ue_bits(f.crop_top as nat) + ue_bits(
            f.crop_bottom as nat)))
    } else {
        Seq::empty()
    }
}

/// The frame flags and the cropping window.
pub open spec fn frame_bits(f: SpsFields) -> Seq<bool> {
    seq![f.frame_mbs_only] + ((if f.frame_mbs_only {
        Seq::empty()
    } else {
        seq![f.mb_adaptive_frame_field]
    }) + (seq![f.direct_8x8_inference] + (seq![f.cropping] + crop_bits(f))))
}

/// From `max_num_ref_frames` on.
pub open spec fn size_bits(f: SpsFields) -> Seq<bool> {
    ue_bits(f.max_num_ref_frames as nat) + (seq![f.gaps_in_frame_num_allowed] + (ue_bits(
        f.pic_width_in_mbs_minus1 as nat,
    ) + (ue_bits(f.pic_height_in_map_units_minus1 as nat) + frame_bits(f))))
}

/// From `log2_max_frame_num_minus4` on.
pub open spec fn order_bits(f: SpsFields) -> Seq<bool> {
    ue_bits(f.log2_max_frame_num_minus4 as nat) + (ue_bits(f.pic_order_cnt_type as nat) + (poc_bits(f)
        + size_bits(f)))
}

/// The bits of the SPS RBSP that carries the fields `f`.
pub open spec fn sps_bits(f: SpsFields) -> Seq<bool> {
    num_bits(f.profile_idc as nat, 8) + (num_bits(f.constraint_flags as nat, 8) + (num_bits(
        f.level_idc as nat,
        8,
    ) + (ue_bits(f.seq_parameter_set_id as nat) + (chroma_bits(f) + order_bits(f)))))
}

/// The coded width in pixels: 16 per macroblock.
pub open spec fn coded_width(f: SpsFields) -> int {
    (f.pic_width_in_mbs_minus1 + 1) * 16
}

/// The coded height in pixels of one field or frame: 16 per map unit.
pub open spec fn coded_height(f: SpsFields) -> int {
    (f.pic_height_in_map_units_minus1 + 1) * 16
}

/// The rows removed by the vertical cropping offsets: 2 per unit for frames, 4 for
/// fields.
pub open spec fn crop_rows(f: SpsFields) -> int {
    (f.crop_top + f.crop_bottom) * (if f.frame_mbs_only { 2int } else { 4 })
}

/// Fields that an encoder can write and whose picture size fits: every Exp-Golomb value
/// below `u32::MAX` (no signed value at `i32::MIN`), one presence flag for each
/// scaling list of the chroma format (12 for 4:4:4, 8 otherwise), a cropping window
/// inside the picture and sizes within 32 bits.
pub open spec fn sps_fields_valid(f: SpsFields) -> bool {
    &&& f.seq_parameter_set_id < u32::MAX
    &&& f.chroma_format_idc < u32::MAX
    &&& f.bit_depth_luma_minus8 < u32::MAX
    &&& f.bit_depth_chroma_minus8 < u32::MAX
    &&& f.log2_max_frame_num_minus4 < u32::MAX
    &&& f.pic_order_cnt_type < u32::MAX
    &&& f.seq_scaling_matrix_present ==> f.seq_scaling_list_present@.len() == (if f.chroma_format_idc == 3 {
        12int
    } else {
        8
    })
    &&& f.offset_for_non_ref_pic != i32::MIN
    &&& f.offset_for_top_to_bottom_field != i32::MIN
    &&& f.offset_for_ref_frame@.len() < u32::MAX
    &&& forall|i: int| 0 <= i < f.offset_for_ref_frame@.len() ==> #[trigger] f.offset_for_ref_frame@[i] != i32::MIN
    &&& f.log2_max_pic_order_cnt_lsb_minus4 < u32::MAX
    &&& f.max_num_ref_frames < u32::MAX
    &&& coded_width(f) <= u32::MAX
    &&& coded_height(f) <= u32::MAX
    &&& f.crop_left < u32::MAX
    &&& f.crop_right < u32::MAX
    &&& f.crop_top < u32::MAX
    &&& f.crop_bottom < u32::MAX
    &&& f.cropping ==> f.crop_left + f.crop_right < coded_width(f) && crop_rows(f) < coded_height(f)
    &&& !f.cropping && !f.frame_mbs_only ==> 2 * coded_height(f) <= u32::MAX
}

/// The picture size that the fields `f` describe: the coded size, with the height
/// doubled for field coding, less the cropping window when there is one.
pub open spec fn sps_fields_size(f: SpsFields) -> VideoDimensions {
    if f.cropping {
        VideoDimensions {
            width: (coded_width(f) - (f.crop_left + f.crop_right)) as u32,
            height: (coded_height(f) - crop_rows(f)) as u32,
        }
    } else {
        VideoDimensions {
            width: coded_width(f) as u32,
            height: (coded_height(f) * (if f.frame_mbs_only { 1int } else { 2 })) as u32,
        }
    }
}

/// The Exp-Golomb codes of a sequence of signed values are skipped one by one.
proof fn lemma_skip_se_match(s: Seq<u8>, p: int, values: Seq<i32>, rest: Seq<bool>)
    requires
        forall|i: int| 0 <= i < values.len() ==> #[trigger] values[i] != i32::MIN,
        bits_match(s, p, se_seq_bits(values) + rest),
    ensures
        spec_skip_se(s, p, values.len() as int) == Ok::<int, ErrorView>(p + se_seq_bits(values).len()),
        bits_match(s, p + se_seq_bits(values).len(), rest),
    decreases values.len(),
{
    if values.len() == 0 {
        assert(se_seq_bits(values) + rest =~= rest);
    } else {
        let head = ue_bits(se_code(values[0] as int));
        let tail = se_seq_bits(values.drop_first());
        assert(se_seq_bits(values) + rest =~= head + (tail + rest));
        assert(values[0] != i32::MIN);
        lemma_read_ue_match(s, p, se_code(values[0] as int), tail + rest);
        assert forall|i: int| 0 <= i < values.drop_first().len() implies #[trigger] values.drop_first()[i]
            != i32::MIN by {
            assert(values.drop_first()[i] == values[i + 1]);
        }
        lemma_skip_se_match(s, p + head.len(), values.drop_first(), rest);
    }
}

/// A scaling list whose next scale is zero reads no more deltas.
proof fn lemma_scaling_list_done(s: Seq<u8>, p: int, j: int, size: int, last: int)
    ensures
        spec_scaling_list(s, p, j, size, last, 0) == Ok::<int, ErrorView>(p),
    decreases size - j,
{
    if 0 <= j < size {
        lemma_scaling_list_done(s, p, j + 1, size, last);
    }
}

/// Scaling lists coded by their presence flags, each present one as the default
/// marker, are skipped flag by flag.
proof fn lemma_scaling_lists_match(s: Seq<u8>, p: int, present: Seq<bool>, index: int, rest: Seq<bool>)
    requires
        0 <= index,
        bits_match(s, p, scaling_lists_bits(present) + rest),
    ensures
        spec_scaling_lists(s, p, index, index + present.len()) == Ok::<int, ErrorView>(p + scaling_lists_bits(
            present,
        ).len()),
        bits_match(s, p + scaling_lists_bits(present).len(), rest),
    decreases present.len(),
{
    if present.len() == 0 {
        assert(scaling_lists_bits(present) + rest =~= rest);
    } else {
        let marker = ue_bits(se_code(-8));
        let tail = scaling_lists_bits(present.drop_first());
        let count = index + present.len();
        if present[0] {
            assert(scaling_lists_bits(present) + rest =~= seq![true] + (marker + (tail + rest)));
            lemma_read_flag_match(s, p, true, marker + (tail + rest));
            lemma_read_ue_match(s, p + 1, se_code(-8), tail + rest);
            let q: int = p + 1 + marker.len();
            assert(crate::bits::se_of(16) == -8);
            let size: int = if index < 6 { 16 } else { 64 };
            assert(crate::sps::delta_step(8, -8) == 0);
            lemma_scaling_list_done(s, q, 1, size, 8);
            assert(spec_scaling_list(s, p + 1, 0, size, 8, 8) == Ok::<int, ErrorView>(q));
            lemma_scaling_lists_match(s, q, present.drop_first(), index + 1, rest);
            assert(q + tail.len() == p + scaling_lists_bits(present).len());
        } else {
            assert(scaling_lists_bits(present) + rest =~= seq![false] + (tail + rest));
            lemma_read_flag_match(s, p, false, tail + rest);
            lemma_scaling_lists_match(s, p + 1, present.drop_first(), index + 1, rest);
        }
    }
}

/// The scaling-matrix flag and the lists it announces are read as written.
proof fn lemma_scaling_bits_match(s: Seq<u8>, p: int, f: SpsFields, rest: Seq<bool>)
    requires
        f.seq_scaling_matrix_present ==> f.seq_scaling_list_present@.len() == (if f.chroma_format_idc == 3 {
            12int
        } else {
            8
        }),
        bits_match(s, p, scaling_bits(f) + rest),
    ensures
        spec_read_bits(s, p, 1) == Ok::<(u32, int), ErrorView>((bit_of(f.seq_scaling_matrix_present) as u32, p + 1)),
        f.seq_scaling_matrix_present ==> spec_scaling_lists(s, p + 1, 0, if f.chroma_format_idc == 3 {
            12
        } else {
            8
        }) == Ok::<int, ErrorView>(p + scaling_bits(f).len()),
        bits_match(s, p + scaling_bits(f).len(), rest),
{
    let lists = if f.seq_scaling_matrix_present {
        scaling_lists_bits(f.seq_scaling_list_present@)
    } else {
        Seq::<bool>::empty()
    };
    assert(scaling_bits(f) + rest =~= seq![f.seq_scaling_matrix_present] + (lists + rest));
    lemma_read_flag_match(s, p, f.seq_scaling_matrix_present, lists + rest);
    if f.seq_scaling_matrix_present {
        lemma_scaling_lists_match(s, p + 1, f.seq_scaling_list_present@, 0, rest);
    } else {
        assert(lists + rest =~= rest);
    }
}

#[verifier::rlimit(40)]
proof fn lemma_chroma_match(s: Seq<u8>, p: int, f: SpsFields, rest: Seq<bool>)
    requires
        sps_fields_valid(f),
        bits_match(s, p, chroma_bits(f) + rest),
    ensures
        spec_chroma_fields(s, p, f.profile_idc as int) == Ok::<int, ErrorView>(p + chroma_bits(f).len()),
        bits_match(s, p + chroma_bits(f).len(), rest),
{
    if carries_chroma_fields(f.profile_idc) {
        let sep = if f.chroma_format_idc == 3 { seq![f.separate_colour_plane] } else { Seq::<bool>::empty() };
        let tail3 = seq![f.qpprime_y_zero_transform_bypass] + scaling_bits(f);
        let tail2 = ue_bits(f.bit_depth_chroma_minus8 as nat) + tail3;
        let tail1 = ue_bits(f.bit_depth_luma_minus8 as nat) + tail2;
        let c0 = ue_bits(f.chroma_format_idc as nat);
        assert(chroma_bits(f) == c0 + (sep + tail1));
        assert((c0 + (sep + tail1)) + rest =~= c0 + (sep + (tail1 + rest)));
        lemma_read_ue_match(s, p, f.chroma_format_idc as nat, sep + (tail1 + rest));
        let p1: int = p + c0.len();
        if f.chroma_format_idc == 3 {
            lemma_read_flag_match(s, p1, f.separate_colour_plane, tail1 + rest);
        } else {
            assert(sep + (tail1 + rest) =~= tail1 + rest);
        }
        let p2: int = p1 + sep.len();
        assert(tail1 + rest =~= ue_bits(f.bit_depth_luma_minus8 as nat) + (tail2 + rest));
        lemma_read_ue_match(s, p2, f.bit_depth_luma_minus8 as nat, tail2 + rest);
        let p3: int = p2 + ue_bits(f.bit_depth_luma_minus8 as nat).len();
        assert(tail2 + rest =~= ue_bits(f.bit_depth_chroma_minus8 as nat) + (tail3 + rest));
        lemma_read_ue_match(s, p3, f.bit_depth_chroma_minus8 as nat, tail3 + rest);
        let p4: int = p3 + ue_bits(f.bit_depth_chroma_minus8 as nat).len();
        assert(tail3 + rest =~= seq![f.qpprime_y_zero_transform_bypass] + (scaling_bits(f) + rest));
        lemma_read_flag_match(s, p4, f.qpprime_y_zero_transform_bypass, scaling_bits(f) + rest);
        lemma_scaling_bits_match(s, p4 + 1, f, rest);
        assert(p4 + 1 + scaling_bits(f).len() == p + chroma_bits(f).len());
    } else {
        assert(chroma_bits(f) + rest =~= rest);
    }
}

proof fn lemma_poc_match(s: Seq<u8>, p: int, f: SpsFields, rest: Seq<bool>)
    requires
        sps_fields_valid(f),
        bits_match(s, p, poc_bits(f) + rest),
    ensures
        spec_poc_fields(s, p, f.pic_order_cnt_type) == Ok::<int, ErrorView>(p + poc_bits(f).len()),
        bits_match(s, p + poc_bits(f).len(), rest),
{
    if f.pic_order_cnt_type == 0 {
        lemma_read_ue_match(s, p, f.log2_max_pic_order_cnt_lsb_minus4 as nat, rest);
    } else if f.pic_order_cnt_type == 1 {
        let cycle = f.offset_for_ref_frame@;
        let c1 = ue_bits(se_code(f.offset_for_non_ref_pic as int));
        let c2 = ue_bits(se_code(f.offset_for_top_to_bottom_field as int));
        let c3 = ue_bits(cycle.len());
        let c4 = se_seq_bits(cycle);
        assert(poc_bits(f) + rest =~= seq![f.delta_pic_order_always_zero] + (c1 + (c2 + (c3 + (c4 + rest)))));
        lemma_read_flag_match(s, p, f.delta_pic_order_always_zero, c1 + (c2 + (c3 + (c4 + rest))));
        lemma_read_ue_match(s, p + 1, se_code(f.offset_for_non_ref_pic as int), c2 + (c3 + (c4 + rest)));
        let q2: int = p + 1 + c1.len();
        lemma_read_ue_match(s, q2, se_code(f.offset_for_top_to_bottom_field as int), c3 + (c4 + rest));
        let q3: int = q2 + c2.len();
        lemma_read_ue_match(s, q3, cycle.len(), c4 + rest);
        let q4: int = q3 + c3.len();
        lemma_skip_se_match(s, q4, cycle, rest);
        assert(q4 + c4.len() == p + poc_bits(f).len());
    } else {
        assert(poc_bits(f) + rest =~= rest);
    }
}

proof fn lemma_frame_match(s: Seq<u8>, p: int, f: SpsFields)
    requires
        sps_fields_valid(f),
        bits_match(s, p, frame_bits(f)),
    ensures
        spec_frame_size(s, p, coded_width(f) as u32, coded_height(f) as u32) == Ok::<VideoDimensions, ErrorView>(
            sps_fields_size(f),
        ),
{
    let mb = if f.frame_mbs_only { Seq::<bool>::empty() } else { seq![f.mb_adaptive_frame_field] };
    let tail = seq![f.direct_8x8_inference] + (seq![f.cropping] + crop_bits(f));
    lemma_read_flag_match(s, p, f.frame_mbs_only, mb + tail);
    if f.frame_mbs_only {
        assert(mb + tail =~= tail);
    } else {
        lemma_read_flag_match(s, p + 1, f.mb_adaptive_frame_field, tail);
    }
    let p2: int = p + 1 + mb.len();
    lemma_read_flag_match(s, p2, f.direct_8x8_inference, seq![f.cropping] + crop_bits(f));
    let empty = Seq::<bool>::empty();
    assert(crop_bits(f) =~= crop_bits(f) + empty);
    lemma_read_flag_match(s, p2 + 1, f.cropping, crop_bits(f) + empty);
    let p4: int = p2 + 2;
    if f.cropping {
        let t3 = ue_bits(f.crop_bottom as nat);
        let t2 = ue_bits(f.crop_top as nat) + t3;
        let t1 = ue_bits(f.crop_right as nat) + t2;
        lemma_read_ue_match(s, p4, f.crop_left as nat, t1 + empty);
        let q1: int = p4 + ue_bits(f.crop_left as nat).len();
        assert(t1 + empty =~= ue_bits(f.crop_right as nat) + (t2 + empty));
        lemma_read_ue_match(s, q1, f.crop_right as nat, t2 + empty);
        let q2: int = q1 + ue_bits(f.crop_right as nat).len();
        assert(t2 + empty =~= ue_bits(f.crop_top as nat) + (t3 + empty));
        lemma_read_ue_match(s, q2, f.crop_top as nat, t3 + empty);
        let q3: int = q2 + ue_bits(f.crop_top as nat).len();
        lemma_read_ue_match(s, q3, f.crop_bottom as nat, empty);
        assert(spec_cropped_size(s, p4, coded_width(f) as u32, coded_height(f) as u32, f.frame_mbs_only)
            == Ok::<VideoDimensions, ErrorView>(sps_fields_size(f)));
    }
}

/// Reading an SPS gives back the picture size of the fields it was written from: for
/// every byte string whose bits begin with the SPS bits of `f` (the bits after them do
/// not matter), the picture size is the coded size of `f`, doubled in height for field
/// coding, less its cropping window. So a High-family SPS is read with its chroma
/// fields, and an SPS with a picture-order-count type other than 0 and 1 carries no
/// picture-order-count field.
#[verifier::rlimit(40)]
pub proof fn lemma_sps_fields_read_back(f: SpsFields, s: Seq<u8>)
    requires
        sps_fields_valid(f),
        bits_match(s, 0, sps_bits(f)),
    ensures
        spec_sps_dimensions(s) == Ok::<VideoDimensions, ErrorView>(sps_fields_size(f)),
{
    let order = order_bits(f);
    let after_id = chroma_bits(f) + order;
    let after_level = ue_bits(f.seq_parameter_set_id as nat) + after_id;
    let after_constraint = num_bits(f.level_idc as nat, 8) + after_level;
    lemma_read_byte_match(s, 0, f.profile_idc as nat, num_bits(f.constraint_flags as nat, 8) + after_constraint);
    lemma_read_byte_match(s, 8, f.constraint_flags as nat, after_constraint);
    lemma_read_byte_match(s, 16, f.level_idc as nat, after_level);
    lemma_read_ue_match(s, 24, f.seq_parameter_set_id as nat, after_id);
    let p4: int = 24int + ue_bits(f.seq_parameter_set_id as nat).len();
    lemma_chroma_match(s, p4, f, order);
    let p5: int = p4 + chroma_bits(f).len();
    let size = size_bits(f);
    lemma_read_ue_match(s, p5, f.log2_max_frame_num_minus4 as nat, ue_bits(f.pic_order_cnt_type as nat) + (
    poc_bits(f) + size));
    let p6: int = p5 + ue_bits(f.log2_max_frame_num_minus4 as nat).len();
    lemma_read_ue_match(s, p6, f.pic_order_cnt_type as nat, poc_bits(f) + size);
    let p7: int = p6 + ue_bits(f.pic_order_cnt_type as nat).len();
    lemma_poc_match(s, p7, f, size);
    let p8: int = p7 + poc_bits(f).len();
    let after_gap = ue_bits(f.pic_width_in_mbs_minus1 as nat) + (ue_bits(f.pic_height_in_map_units_minus1 as nat)
        + frame_bits(f));
    lemma_read_ue_match(s, p8, f.max_num_ref_frames as nat, seq![f.gaps_in_frame_num_allowed] + after_gap);
    let p9: int = p8 + ue_bits(f.max_num_ref_frames as nat).len();
    lemma_read_flag_match(s, p9, f.gaps_in_frame_num_allowed, after_gap);
    lemma_read_ue_match(s, p9 + 1, f.pic_width_in_mbs_minus1 as nat, ue_bits(
        f.pic_height_in_map_units_minus1 as nat,
    ) + frame_bits(f));
    let p11: int = p9 + 1 + ue_bits(f.pic_width_in_mbs_minus1 as nat).len();
    lemma_read_ue_match(s, p11, f.pic_height_in_map_units_minus1 as nat, frame_bits(f));
    let p12: int = p11 + ue_bits(f.pic_height_in_map_units_minus1 as nat).len();
    lemma_frame_match(s, p12, f);
}

/// The picture size of an SPS NAL unit whose bytes after the header hold no
/// emulation-prevention escape and begin with the SPS bits of `f` is the picture
/// size of `f`.
pub proof fn lemma_sps_unit_read_back(f: SpsFields, nal: NalView)
    requires
        sps_fields_valid(f),
        nal.kind == NalKind::SequenceParameterSet,
        nal.payload.len() >= 1,
        forall|i: int| !#[trigger] is_escape_at(nal.payload.drop_first(), i),
        bits_match(nal.payload.drop_first(), 0, sps_bits(f)),
    ensures
        spec_dimensions_from_sps(nal) == Ok::<VideoDimensions, ErrorView>(sps_fields_size(f)),
{
    lemma_unescape_keeps_unescaped(nal.payload.drop_first());
    lemma_sps_fields_read_back(f, nal.payload.drop_first());
}

} // verus!
