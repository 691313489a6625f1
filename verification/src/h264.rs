//! H.264 NAL units: Annex-B and AVCC framing, emulation prevention, the avcC
//! configuration record and the picture size of a sequence parameter set.

use vstd::prelude::*;
use crate::error::{format_error, result_is, ErrorView, RtlError};
use crate::sps::{sps_dimensions, spec_sps_dimensions};

verus! {

/// The NAL unit types that the extractor tells apart.
#[derive(Debug, Clone, Copy, PartialEq, Eq, Structural)]
pub enum NalKind {
    Unspecified,
    CodedSlice,
    IdrSlice,
    SupplementalEnhancement,
    SequenceParameterSet,
    PictureParameterSet,
    AccessUnitDelimiter,
    EndOfSequence,
    EndOfStream,
    Other(u8),
}

/// A NAL unit: its type, its `nal_ref_idc` and its bytes, header byte included.
#[derive(Debug, Clone)]
pub struct NalUnit {
    pub kind: NalKind,
    pub reference_idc: u8,
    pub payload: Vec<u8>,
}

/// What a contract sees of a NAL unit.
pub struct NalView {
    pub kind: NalKind,
    pub reference_idc: u8,
    pub payload: Seq<u8>,
}

impl View for NalUnit {
    type V = NalView;

    open spec fn view(&self) -> NalView {
        NalView { kind: self.kind, reference_idc: self.reference_idc, payload: self.payload@ }
    }
}

/// The views of `units`, in order.
pub open spec fn nal_views(units: Seq<NalUnit>) -> Seq<NalView> {
    units.map_values(|u: NalUnit| u@)
}

/// A picture size in pixels.
#[derive(Debug, Clone, Copy, PartialEq, Eq, Structural)]
pub struct VideoDimensions {
    pub width: u32,
    pub height: u32,
}

/// What the avcC record tells of a stream: the picture size and the byte count of
/// the length prefix of each NAL unit in a sample.
#[derive(Debug, Clone, Copy)]
pub struct StreamInfo {
    pub dimensions: VideoDimensions,
    pub length_size: usize,
}

/// The kind named by the five-bit NAL unit type `t`.
pub open spec fn kind_of_type(t: u8) -> NalKind {
    if t == 0 { NalKind::Unspecified }
    else if t == 1 { NalKind::CodedSlice }
    else if t == 5 { NalKind::IdrSlice }
    else if t == 6 { NalKind::SupplementalEnhancement }
    else if t == 7 { NalKind::SequenceParameterSet }
    else if t == 8 { NalKind::PictureParameterSet }
    else if t == 9 { NalKind::AccessUnitDelimiter }
    else if t == 10 { NalKind::EndOfSequence }
    else if t == 11 { NalKind::EndOfStream }
    else { NalKind::Other(t) }
}

/// The NAL unit made of the bytes `s`: the header's forbidden bit must be clear.
pub open spec fn spec_parse_nal(s: Seq<u8>) -> Result<NalView, ErrorView> {
    if s.len() == 0 {
        Err(ErrorView::Format("empty H.264 NAL"@))
    } else if s[0] >= 0x80 {
        Err(ErrorView::Format("invalid H.264 NAL header"@))
    } else {
        Ok(NalView { kind: kind_of_type(s[0] % 32), reference_idc: (s[0] / 32) % 4, payload: s })
    }
}

fn parse_nal(nal: &[u8]) -> (r: Result<NalUnit, RtlError>)
    ensures
        result_is(r, spec_parse_nal(nal@), |v: NalUnit, w: NalView| v@ == w),
{
    if nal.len() == 0 {
        return Err(format_error("empty H.264 NAL"));
    }
    let header = nal[0];
    if header >= 0x80 {
        return Err(format_error("invalid H.264 NAL header"));
    }
    let t = header % 32;
    let kind = if t == 0 { NalKind::Unspecified }
        else if t == 1 { NalKind::CodedSlice }
        else if t == 5 { NalKind::IdrSlice }
        else if t == 6 { NalKind::SupplementalEnhancement }
        else if t == 7 { NalKind::SequenceParameterSet }
        else if t == 8 { NalKind::PictureParameterSet }
        else if t == 9 { NalKind::AccessUnitDelimiter }
        else if t == 10 { NalKind::EndOfSequence }
        else if t == 11 { NalKind::EndOfStream }
        else { NalKind::Other(t) };
    Ok(NalUnit { kind, reference_idc: (header / 32) % 4, payload: vstd::slice::slice_to_vec(nal) })
}

/// A NAL unit is classified by the five low bits of its header byte, by the table
/// of H.264: 0 unspecified, 1 coded slice, 5 IDR slice, 6 SEI, 7 SPS, 8 PPS, 9 access
/// unit delimiter, 10 end of sequence, 11 end of stream, and every other type kept as
/// `Other` with its number; the header byte is 32 times `nal_ref_idc` plus the type;
/// the unit keeps all its bytes; and only an empty unit or one whose forbidden bit is
/// set is refused.
pub proof fn lemma_nal_header_classifies(s: Seq<u8>)
    ensures
        spec_parse_nal(s) is Ok <==> s.len() > 0 && s[0] < 0x80,
        spec_parse_nal(s) matches Ok(u) ==> {
            let t = s[0] % 32;
            &&& u.payload == s
            &&& s[0] == 32 * u.reference_idc + t
            &&& (u.kind == NalKind::Unspecified <==> t == 0)
            &&& (u.kind == NalKind::CodedSlice <==> t == 1)
            &&& (u.kind == NalKind::IdrSlice <==> t == 5)
            &&& (u.kind == NalKind::SupplementalEnhancement <==> t == 6)
            &&& (u.kind == NalKind::SequenceParameterSet <==> t == 7)
            &&& (u.kind == NalKind::PictureParameterSet <==> t == 8)
            &&& (u.kind == NalKind::AccessUnitDelimiter <==> t == 9)
            &&& (u.kind == NalKind::EndOfSequence <==> t == 10)
            &&& (u.kind == NalKind::EndOfStream <==> t == 11)
            &&& (u.kind == NalKind::Other(t) <==> (2 <= t <= 4 || t >= 12))
        },
{
}

/// `s` with emulation-prevention bytes removed, after `zeros` zero bytes in a row:
/// a 3 that follows two or more zero bytes is dropped and ends the run.
pub open spec fn spec_unescape(s: Seq<u8>, zeros: int) -> Seq<u8>
    decreases s.len(),
{
    if s.len() == 0 {
        Seq::empty()
    } else if zeros >= 2 && s[0] == 3 {
        spec_unescape(s.drop_first(), 0)
    } else {
        seq![s[0]] + spec_unescape(s.drop_first(), if s[0] == 0 { zeros + 1 } else { 0 })
    }
}

fn unescape_rbsp(bytes: &[u8]) -> (r: Vec<u8>)
    ensures
        r@ == spec_unescape(bytes@, 0),
{
    let mut result: Vec<u8> = Vec::new();
    let mut zeroes: usize = 0;
    let mut i: usize = 0;
    assert(bytes@.skip(0) =~= bytes@);
    while i < bytes.len()
        invariant
            i <= bytes@.len(),
            zeroes <= i,
            spec_unescape(bytes@, 0) == result@ + spec_unescape(bytes@.skip(i as int), zeroes as int),
        decreases bytes@.len() - i,
    {
        let byte = bytes[i];
        let ghost rest = bytes@.skip(i as int);
        assert(rest.drop_first() =~= bytes@.skip(i + 1));
        if zeroes >= 2 && byte == 3 {
            zeroes = 0;
        } else {
            let ghost before = result@;
            result.push(byte);
            assert(before + (seq![byte] + spec_unescape(bytes@.skip(i + 1), if byte == 0 { zeroes + 1 } else { 0 }))
                =~= result@ + spec_unescape(bytes@.skip(i + 1), if byte == 0 { zeroes + 1 } else { 0 }));
            zeroes = if byte == 0 { zeroes + 1 } else { 0 };
        }
        i = i + 1;
    }
    assert(result@ + spec_unescape(bytes@.skip(i as int), zeroes as int) =~= result@);
    result
}

/// The picture size of an SPS NAL unit; any other unit, and an SPS without even a
/// header byte, is refused.
pub open spec fn spec_dimensions_from_sps(nal: NalView) -> Result<VideoDimensions, ErrorView> {
    if nal.kind != NalKind::SequenceParameterSet {
        Err(ErrorView::Format("H.264 dimensions require an SPS NAL"@))
    } else if nal.payload.len() == 0 {
        Err(ErrorView::Format("empty H.264 NAL"@))
    } else {
        spec_sps_dimensions(spec_unescape(nal.payload.drop_first(), 0))
    }
}

/// Reads the picture size from a sequence parameter set NAL unit.
pub fn dimensions_from_sps(nal: &NalUnit) -> (r: Result<VideoDimensions, RtlError>)
    ensures
        result_is(r, spec_dimensions_from_sps(nal@), |v: VideoDimensions, w: VideoDimensions| v == w),
{
    if nal.kind != NalKind::SequenceParameterSet {
        return Err(format_error("H.264 dimensions require an SPS NAL"));
    }
    if nal.payload.len() == 0 {
        return Err(format_error("empty H.264 NAL"));
    }
    let body = vstd::slice::slice_subrange(nal.payload.as_slice(), 1, nal.payload.len());
    assert(body@ =~= nal.payload@.drop_first());
    let rbsp = unescape_rbsp(body);
    sps_dimensions(rbsp.as_slice())
}

/// Whether an Annex-B start code (`00 00 01` or `00 00 00 01`) begins at `i`.
pub open spec fn is_start_code_at(s: Seq<u8>, i: int) -> bool {
    &&& 0 <= i
    &&& i + 3 <= s.len()
    &&& (s[i] == 0 && s[i + 1] == 0 && s[i + 2] == 1) || (i + 4 <= s.len() && s[i] == 0 && s[i + 1] == 0
        && s[i + 2] == 0 && s[i + 3] == 1)
}

/// The first start code at or after `from`.
pub open spec fn spec_find_start_code(s: Seq<u8>, from: int) -> Option<int>
    decreases s.len() - from,
{
    if from < 0 || from + 3 > s.len() {
        None
    } else if is_start_code_at(s, from) {
        Some(from)
    } else {
        spec_find_start_code(s, from + 1)
    }
}

/// A start code found from `from` lies at or after `from`, within `s`.
pub proof fn lemma_start_code_found(s: Seq<u8>, from: int)
    ensures
        spec_find_start_code(s, from) matches Some(i) ==> from <= i && is_start_code_at(s, i),
    decreases s.len() - from,
{
    if 0 <= from && from + 3 <= s.len() && !is_start_code_at(s, from) {
        lemma_start_code_found(s, from + 1);
    }
}

fn find_start_code(bytes: &[u8], from: usize) -> (r: Option<usize>)
    ensures
        r matches Some(i) ==> spec_find_start_code(bytes@, from as int) == Some(i as int),
        r is None ==> spec_find_start_code(bytes@, from as int) is None,
{
    let mut index = from;
    while index <= bytes.len() && bytes.len() - index >= 3
        invariant
            from <= index,
            spec_find_start_code(bytes@, from as int) == spec_find_start_code(bytes@, index as int),
        decreases bytes@.len() - index,
    {
        if bytes[index] == 0 && bytes[index + 1] == 0 && bytes[index + 2] == 1 {
            return Some(index);
        }
        if bytes.len() - index >= 4 && bytes[index] == 0 && bytes[index + 1] == 0 && bytes[index + 2] == 0
            && bytes[index + 3] == 1 {
            return Some(index);
        }
        index = index + 1;
    }
    None
}

/// The NAL units of an Annex-B byte stream from `cursor` on: each lies between a
/// start code and the next start code or the end of the stream; empty ones are passed
/// over.
pub open spec fn spec_annex_b_from(s: Seq<u8>, cursor: int) -> Result<Seq<NalView>, ErrorView>
    decreases s.len() - cursor,
{
    match spec_find_start_code(s, cursor) {
        None => Ok(Seq::empty()),
        Some(start) => {
            proof {
                lemma_start_code_found(s, cursor);
            }
            let payload_start = start + if s[start + 2] == 1 { 3int } else { 4 };
            proof {
                lemma_start_code_found(s, payload_start);
            }
            let end = match spec_find_start_code(s, payload_start) {
                Some(e) => e,
                None => s.len() as int,
            };
            if payload_start < end {
                match spec_parse_nal(s.subrange(payload_start, end)) {
                    Err(e) => Err(e),
                    Ok(unit) => match spec_annex_b_from(s, end) {
                        Err(e) => Err(e),
                        Ok(rest) => Ok(seq![unit] + rest),
                    },
                }
            } else {
                spec_annex_b_from(s, end)
            }
        },
    }
}

/// Splits an Annex-B byte stream into its NAL units.
pub fn split_annex_b(stream: &[u8]) -> (r: Result<Vec<NalUnit>, RtlError>)
    ensures
        result_is(r, spec_annex_b_from(stream@, 0), |v: Vec<NalUnit>, w: Seq<NalView>| nal_views(v@) == w),
{
    let mut units: Vec<NalUnit> = Vec::new();
    let mut cursor: usize = 0;
    let _total = stream.len();
    loop
        invariant
            cursor <= stream@.len(),
            stream@.len() <= usize::MAX,
            match spec_annex_b_from(stream@, cursor as int) {
                Ok(rest) => spec_annex_b_from(stream@, 0) == Ok::<Seq<NalView>, ErrorView>(nal_views(units@) + rest),
                Err(e) => spec_annex_b_from(stream@, 0) == Err::<Seq<NalView>, ErrorView>(e),
            },
        decreases stream@.len() - cursor,
    {
        let start = match find_start_code(stream, cursor) {
            Some(start) => start,
            None => {
                assert(nal_views(units@) + Seq::<NalView>::empty() =~= nal_views(units@));
                return Ok(units);
            },
        };
        proof {
            lemma_start_code_found(stream@, cursor as int);
        }
        let payload_start = start + if stream[start + 2] == 1 { 3 } else { 4 };
        proof {
            lemma_start_code_found(stream@, payload_start as int);
        }
        let end = match find_start_code(stream, payload_start) {
            Some(e) => e,
            None => stream.len(),
        };
        if payload_start < end {
            let unit = parse_nal(vstd::slice::slice_subrange(stream, payload_start, end))?;
            let ghost before = units@;
            units.push(unit);
            proof {
                assert(nal_views(units@) =~= nal_views(before).push(unit@));
                if let Ok(r) = spec_annex_b_from(stream@, end as int) {
                    assert(nal_views(before) + (seq![unit@] + r) =~= nal_views(units@) + r);
                }
            }
        }
        cursor = end;
    }
}

/// The number written big-endian by the `n` bytes of `s` from `p` on.
pub open spec fn be_value(s: Seq<u8>, p: int, n: nat) -> int
    decreases n,
{
    if n == 0 { 0 } else { be_value(s, p, (n - 1) as nat) * 256 + s[p + n - 1] }
}

/// A big-endian number of `n` bytes is below `256^n`.
pub proof fn lemma_be_value_bound(s: Seq<u8>, p: int, n: nat)
    requires
        0 <= p,
        p + n <= s.len(),
    ensures
        0 <= be_value(s, p, n),
        n <= 4 ==> be_value(s, p, n) <= 0xffff_ffff,
        n <= 3 ==> be_value(s, p, n) <= 0xff_ffff,
        n <= 2 ==> be_value(s, p, n) <= 0xffff,
        n <= 1 ==> be_value(s, p, n) <= 0xff,
    decreases n,
{
    if n > 0 {
        lemma_be_value_bound(s, p, (n - 1) as nat);
    }
}

fn read_be_length(bytes: &[u8], start: usize, count: usize) -> (v: usize)
    requires
        1 <= count <= 4,
        start + count <= bytes@.len(),
    ensures
        v == be_value(bytes@, start as int, count as nat),
{
    let mut value: u64 = 0;
    let mut i: usize = 0;
    let _total = bytes.len();
    while i < count
        invariant
            i <= count <= 4,
            start + count <= bytes@.len(),
            bytes@.len() <= usize::MAX,
            value == be_value(bytes@, start as int, i as nat),
        decreases count - i,
    {
        proof {
            lemma_be_value_bound(bytes@, start as int, i as nat);
        }
        value = value * 256 + bytes[start + i] as u64;
        i = i + 1;
    }
    proof {
        lemma_be_value_bound(bytes@, start as int, count as nat);
    }
    value as usize
}

/// The NAL units of an AVCC sample from `cursor` on, each behind a big-endian length
/// of `length_size` bytes; units of length zero are passed over.
pub open spec fn spec_avcc_from(s: Seq<u8>, length_size: int, cursor: int) -> Result<Seq<NalView>, ErrorView>
    decreases s.len() - cursor,
{
    if cursor < 0 || cursor >= s.len() || length_size < 1 {
        Ok(Seq::empty())
    } else if cursor + length_size > usize::MAX {
        Err(ErrorView::Format("H.264 NAL length overflow"@))
    } else if cursor + length_size > s.len() {
        Err(ErrorView::Format("truncated H.264 NAL length"@))
    } else {
        proof {
            lemma_be_value_bound(s, cursor, length_size as nat);
        }
        let start = cursor + length_size;
        let end = start + be_value(s, cursor, length_size as nat);
        if end > usize::MAX || end > s.len() {
            Err(ErrorView::Format("H.264 NAL extends past sample"@))
        } else if end > start {
            match spec_parse_nal(s.subrange(start, end)) {
                Err(e) => Err(e),
                Ok(unit) => match spec_avcc_from(s, length_size, end) {
                    Ok(rest) => Ok(seq![unit] + rest),
                    Err(e) => Err(e),
                },
            }
        } else {
            spec_avcc_from(s, length_size, end)
        }
    }
}

/// Splitting an AVCC sample whose NAL lengths take `length_size` bytes.
pub open spec fn spec_split_avcc(s: Seq<u8>, length_size: int) -> Result<Seq<NalView>, ErrorView> {
    if length_size < 1 || length_size > 4 {
        Err(ErrorView::Format("H.264 AVCC length size must be 1 to 4"@))
    } else {
        spec_avcc_from(s, length_size, 0)
    }
}

/// Splits an AVCC (length-prefixed) sample into its NAL units.
pub fn split_avcc_sample(sample: &[u8], length_size: usize) -> (r: Result<Vec<NalUnit>, RtlError>)
    ensures
        result_is(r, spec_split_avcc(sample@, length_size as int),
            |v: Vec<NalUnit>, w: Seq<NalView>| nal_views(v@) == w),
{
    if !(1 <= length_size && length_size <= 4) {
        return Err(format_error("H.264 AVCC length size must be 1 to 4"));
    }
    let mut units: Vec<NalUnit> = Vec::new();
    let mut cursor: usize = 0;
    while cursor < sample.len()
        invariant
            1 <= length_size <= 4,
            cursor <= sample@.len(),
            match spec_avcc_from(sample@, length_size as int, cursor as int) {
                Ok(rest) => spec_split_avcc(sample@, length_size as int)
                    == Ok::<Seq<NalView>, ErrorView>(nal_views(units@) + rest),
                Err(e) => spec_split_avcc(sample@, length_size as int) == Err::<Seq<NalView>, ErrorView>(e),
            },
        decreases sample@.len() - cursor,
    {
        if length_size > usize::MAX - cursor {
            return Err(format_error("H.264 NAL length overflow"));
        }
        let end_of_length = cursor + length_size;
        if end_of_length > sample.len() {
            return Err(format_error("truncated H.264 NAL length"));
        }
        let length = read_be_length(sample, cursor, length_size);
        cursor = end_of_length;
        if length > usize::MAX - cursor || cursor + length > sample.len() {
            return Err(format_error("H.264 NAL extends past sample"));
        }
        let end = cursor + length;
        if length > 0 {
            let unit = parse_nal(vstd::slice::slice_subrange(sample, cursor, end))?;
            let ghost before = units@;
            units.push(unit);
            proof {
                assert(nal_views(units@) =~= nal_views(before).push(unit@));
                if let Ok(r) = spec_avcc_from(sample@, length_size as int, end as int) {
                    assert(nal_views(before) + (seq![unit@] + r) =~= nal_views(units@) + r);
                }
            }
        }
        cursor = end;
    }
    assert(nal_views(units@) + Seq::<NalView>::empty() =~= nal_views(units@));
    Ok(units)
}

/// Whether the four bytes `avcC` begin at `i`.
pub open spec fn is_avcc_marker_at(s: Seq<u8>, i: int) -> bool {
    0 <= i && i + 4 <= s.len() && s[i] == 0x61 && s[i + 1] == 0x76 && s[i + 2] == 0x63 && s[i + 3] == 0x43
}

/// The first position at or after `from` where `avcC` begins.
pub open spec fn spec_find_avcc(s: Seq<u8>, from: int) -> Option<int>
    decreases s.len() - from,
{
    if from < 0 || from + 4 > s.len() {
        None
    } else if is_avcc_marker_at(s, from) {
        Some(from)
    } else {
        spec_find_avcc(s, from + 1)
    }
}

/// The bytes that follow the first `avcC` marker of `s`: the configuration record.
pub open spec fn avcc_config(s: Seq<u8>) -> Option<Seq<u8>> {
    match spec_find_avcc(s, 0) {
        Some(m) => Some(s.subrange(m + 4, s.len() as int)),
        None => None,
    }
}

fn find_avcc_config(bytes: &[u8]) -> (r: Option<&[u8]>)
    ensures
        match (r, avcc_config(bytes@)) {
            (Some(c), Some(d)) => c@ == d,
            (None, None) => true,
            _ => false,
        },
{
    let mut index: usize = 0;
    assert(spec_find_avcc(bytes@, 0) == spec_find_avcc(bytes@, index as int));
    while index <= bytes.len() && bytes.len() - index >= 4
        invariant
            spec_find_avcc(bytes@, 0) == spec_find_avcc(bytes@, index as int),
        decreases bytes@.len() - index,
    {
        if bytes[index] == 0x61 && bytes[index + 1] == 0x76 && bytes[index + 2] == 0x63 && bytes[index + 3] == 0x43 {
            return Some(vstd::slice::slice_subrange(bytes, index + 4, bytes.len()));
        }
        index = index + 1;
    }
    None
}

/// What the first SPS of the avcC record of the file `s` says of the stream.
pub open spec fn spec_probe_mp4_avcc(s: Seq<u8>) -> Result<StreamInfo, ErrorView> {
    match avcc_config(s) {
        None => Err(ErrorView::Format("MP4 has no H.264 avcC configuration"@)),
        Some(c) => {
            let length_size = (if c.len() > 4 { c[4] % 4 } else { 0 }) + 1;
            let sps_count = if c.len() > 5 { c[5] % 32 } else { 0 };
            if sps_count == 0 {
                Err(ErrorView::Format("H.264 avcC contains no SPS"@))
            } else if c.len() < 8 {
                Err(ErrorView::Format("truncated H.264 SPS length"@))
            } else {
                let sps_end = 8 + c[6] * 256 + c[7];
                if sps_end > c.len() {
                    Err(ErrorView::Format("truncated H.264 SPS"@))
                } else {
                    match spec_parse_nal(c.subrange(8, sps_end)) {
                        Err(e) => Err(e),
                        Ok(sps) => match spec_dimensions_from_sps(sps) {
                            Err(e) => Err(e),
                            Ok(dimensions) => Ok(StreamInfo { dimensions, length_size: length_size as usize }),
                        },
                    }
                }
            }
        },
    }
}

/// Reads the picture size and the NAL length size from the avcC record of an MP4.
pub fn probe_mp4_avcc(bytes: &[u8]) -> (r: Result<StreamInfo, RtlError>)
    ensures
        result_is(r, spec_probe_mp4_avcc(bytes@), |v: StreamInfo, w: StreamInfo| v == w),
{
    let config = match find_avcc_config(bytes) {
        Some(config) => config,
        None => return Err(format_error("MP4 has no H.264 avcC configuration")),
    };
    let length_byte: u8 = if config.len() > 4 { config[4] } else { 0 };
    let length_size = (length_byte % 4 + 1) as usize;
    let count_byte: u8 = if config.len() > 5 { config[5] } else { 0 };
    if count_byte % 32 == 0 {
        return Err(format_error("H.264 avcC contains no SPS"));
    }
    if config.len() < 8 {
        return Err(format_error("truncated H.264 SPS length"));
    }
    let sps_end = 8 + (config[6] as usize) * 256 + config[7] as usize;
    if sps_end > config.len() {
        return Err(format_error("truncated H.264 SPS"));
    }
    let sps = parse_nal(vstd::slice::slice_subrange(config, 8, sps_end))?;
    let dimensions = dimensions_from_sps(&sps)?;
    Ok(StreamInfo { dimensions, length_size })
}

/// The SPS and PPS of the avcC record of the file `s`.
pub open spec fn spec_parameter_sets(s: Seq<u8>) -> Result<(NalView, NalView), ErrorView> {
    match avcc_config(s) {
        None => Err(ErrorView::Format("MP4 has no H.264 avcC configuration"@)),
        Some(c) => if c.len() <= 5 {
            Err(ErrorView::Format("truncated H.264 avcC configuration"@))
        } else if c[5] % 32 == 0 {
            Err(ErrorView::Format("H.264 avcC contains no SPS"@))
        } else if c.len() < 8 {
            Err(ErrorView::Format("truncated H.264 SPS length"@))
        } else {
            let sps_end = 8 + c[6] * 256 + c[7];
            if sps_end > c.len() {
                Err(ErrorView::Format("truncated H.264 SPS"@))
            } else {
                match spec_parse_nal(c.subrange(8, sps_end)) {
                    Err(e) => Err(e),
                    Ok(sps) => if c.len() <= sps_end {
                        Err(ErrorView::Format("truncated H.264 PPS count"@))
                    } else if c[sps_end] == 0 {
                        Err(ErrorView::Format("H.264 avcC contains no PPS"@))
                    } else if c.len() < sps_end + 3 {
                        Err(ErrorView::Format("truncated H.264 PPS length"@))
                    } else {
                        let pps_start = sps_end + 3;
                        let pps_end = pps_start + c[sps_end + 1] * 256 + c[sps_end + 2];
                        if pps_end > c.len() {
                            Err(ErrorView::Format("truncated H.264 PPS"@))
                        } else {
                            match spec_parse_nal(c.subrange(pps_start, pps_end)) {
                                Err(e) => Err(e),
                                Ok(pps) => if sps.kind != NalKind::SequenceParameterSet || pps.kind
                                    != NalKind::PictureParameterSet {
                                    Err(ErrorView::Format("H.264 avcC parameter-set types are invalid"@))
                                } else {
                                    Ok((sps, pps))
                                },
                            }
                        }
                    }
                }
            }
        },
    }
}

/// Reads the sequence and picture parameter sets from the avcC record of an MP4.
pub fn parameter_sets_from_avcc(bytes: &[u8]) -> (r: Result<(NalUnit, NalUnit), RtlError>)
    ensures
        result_is(r, spec_parameter_sets(bytes@), |v: (NalUnit, NalUnit), w: (NalView, NalView)| v.0@ == w.0 && v.1@ == w.1),
{
    let config = match find_avcc_config(bytes) {
        Some(config) => config,
        None => return Err(format_error("MP4 has no H.264 avcC configuration")),
    };
    if config.len() <= 5 {
        return Err(format_error("truncated H.264 avcC configuration"));
    }
    if config[5] % 32 == 0 {
        return Err(format_error("H.264 avcC contains no SPS"));
    }
    if config.len() < 8 {
        return Err(format_error("truncated H.264 SPS length"));
    }
    let sps_end = 8 + (config[6] as usize) * 256 + config[7] as usize;
    if sps_end > config.len() {
        return Err(format_error("truncated H.264 SPS"));
    }
    let sps = parse_nal(vstd::slice::slice_subrange(config, 8, sps_end))?;
    if config.len() <= sps_end {
        return Err(format_error("truncated H.264 PPS count"));
    }
    if config[sps_end] == 0 {
        return Err(format_error("H.264 avcC contains no PPS"));
    }
    if config.len() - sps_end < 3 {
        return Err(format_error("truncated H.264 PPS length"));
    }
    let pps_start = sps_end + 3;
    let pps_length = (config[sps_end + 1] as usize) * 256 + config[sps_end + 2] as usize;
    if pps_length > config.len() - pps_start {
        return Err(format_error("truncated H.264 PPS"));
    }
    let pps = parse_nal(vstd::slice::slice_subrange(config, pps_start, pps_start + pps_length))?;
    if sps.kind != NalKind::SequenceParameterSet || pps.kind != NalKind::PictureParameterSet {
        return Err(format_error("H.264 avcC parameter-set types are invalid"));
    }
    Ok((sps, pps))
}

/// Unescaping drops bytes and never adds any: the result is never longer.
pub proof fn lemma_unescape_not_longer(s: Seq<u8>, zeros: int)
    ensures
        spec_unescape(s, zeros).len() <= s.len(),
    decreases s.len(),
{
    if s.len() > 0 {
        lemma_unescape_not_longer(s.drop_first(), 0);
        lemma_unescape_not_longer(s.drop_first(), zeros + 1);
    }
}

/// Bytes with no emulation-prevention byte (no 3 at all) come through unescaping
/// unchanged.
pub proof fn lemma_unescape_keeps_plain_bytes(s: Seq<u8>, zeros: int)
    requires
        forall|i: int| 0 <= i < s.len() ==> s[i] != 3,
    ensures
        spec_unescape(s, zeros) == s,
    decreases s.len(),
{
    if s.len() > 0 {
        let next = if s[0] == 0 { zeros + 1 } else { 0 };
        assert forall|i: int| 0 <= i < s.drop_first().len() implies s.drop_first()[i] != 3 by {
            assert(s.drop_first()[i] == s[i + 1]);
        }
        lemma_unescape_keeps_plain_bytes(s.drop_first(), next);
        assert(seq![s[0]] + s.drop_first() =~= s);
    }
}

/// An emulation-prevention byte is removed: two zero bytes and a 3 become two zero
/// bytes.
pub proof fn lemma_unescape_removes_escape(rest: Seq<u8>)
    ensures
        spec_unescape(seq![0u8, 0u8, 3u8] + rest, 0) == seq![0u8, 0u8] + spec_unescape(rest, 0),
{
    let s = seq![0u8, 0u8, 3u8] + rest;
    assert(s.drop_first() =~= seq![0u8, 3u8] + rest);
    assert(s.drop_first().drop_first() =~= seq![3u8] + rest);
    assert((seq![3u8] + rest).drop_first() =~= rest);
    assert(spec_unescape(seq![3u8] + rest, 2) == spec_unescape(rest, 0));
    assert(spec_unescape(seq![0u8, 3u8] + rest, 1) == seq![0u8] + spec_unescape(seq![3u8] + rest, 2));
    assert(spec_unescape(s, 0) == seq![0u8] + spec_unescape(seq![0u8, 3u8] + rest, 1));
    assert(seq![0u8] + (seq![0u8] + spec_unescape(rest, 0)) =~= seq![0u8, 0u8] + spec_unescape(rest, 0));
}

proof fn lemma_no_start_code_from(s: Seq<u8>, from: int)
    requires
        forall|i: int| from <= i ==> !is_start_code_at(s, i),
    ensures
        spec_find_start_code(s, from) is None,
    decreases s.len() - from,
{
    if 0 <= from && from + 3 <= s.len() {
        lemma_no_start_code_from(s, from + 1);
    }
}

/// A NAL unit written after a start code `00 00 01`, with no start code inside it,
/// is split back out of the stream unchanged.
pub proof fn lemma_annex_b_single_unit(payload: Seq<u8>)
    requires
        payload.len() > 0,
        payload[0] < 0x80,
        forall|i: int| !is_start_code_at(payload, i),
    ensures
        spec_annex_b_from(seq![0u8, 0u8, 1u8] + payload, 0) == Ok::<Seq<NalView>, ErrorView>(seq![
            NalView { kind: kind_of_type(payload[0] % 32), reference_idc: (payload[0] / 32) % 4, payload },
        ]),
{
    let s = seq![0u8, 0u8, 1u8] + payload;
    assert(is_start_code_at(s, 0));
    assert forall|i: int| 3 <= i implies !is_start_code_at(s, i) by {
        if is_start_code_at(s, i) {
            assert(s[i] == payload[i - 3]);
            assert(s[i + 1] == payload[i - 2]);
            assert(s[i + 2] == payload[i - 1]);
            if i + 4 <= s.len() {
                assert(s[i + 3] == payload[i]);
            }
            assert(is_start_code_at(payload, i - 3));
        }
    }
    lemma_no_start_code_from(s, 3);
    lemma_no_start_code_from(s, s.len() as int);
    assert(s.subrange(3, s.len() as int) =~= payload);
    let unit = NalView { kind: kind_of_type(payload[0] % 32), reference_idc: (payload[0] / 32) % 4, payload };
    assert(spec_annex_b_from(s, s.len() as int) == Ok::<Seq<NalView>, ErrorView>(Seq::empty()));
    assert(seq![unit] + Seq::<NalView>::empty() =~= seq![unit]);
}

/// A NAL unit of fewer than 256 bytes written after its one-byte length is split back
/// out of an AVCC sample with one-byte lengths unchanged.
pub proof fn lemma_avcc_single_unit(payload: Seq<u8>)
    requires
        0 < payload.len() < 256,
        payload[0] < 0x80,
    ensures
        spec_split_avcc(seq![payload.len() as u8] + payload, 1) == Ok::<Seq<NalView>, ErrorView>(seq![
            NalView { kind: kind_of_type(payload[0] % 32), reference_idc: (payload[0] / 32) % 4, payload },
        ]),
{
    let s = seq![payload.len() as u8] + payload;
    assert(be_value(s, 0, 1) == payload.len()) by {
        assert(be_value(s, 0, 0) == 0);
    }
    assert(s.subrange(1, s.len() as int) =~= payload);
    let unit = NalView { kind: kind_of_type(payload[0] % 32), reference_idc: (payload[0] / 32) % 4, payload };
    assert(spec_avcc_from(s, 1, s.len() as int) == Ok::<Seq<NalView>, ErrorView>(Seq::empty()));
    assert(seq![unit] + Seq::<NalView>::empty() =~= seq![unit]);
}

/// H.264 emulation prevention of `x` after `zeros` zero bytes written since the last
/// inserted 3: a 3 is inserted before every byte of at most 3 that follows two zero
/// bytes.
pub open spec fn spec_escape(x: Seq<u8>, zeros: int) -> Seq<u8>
    decreases x.len(),
{
    if x.len() == 0 {
        Seq::empty()
    } else if zeros >= 2 && x[0] <= 3 {
        seq![3u8, x[0]] + spec_escape(x.drop_first(), if x[0] == 0 { 1 } else { 0 })
    } else {
        seq![x[0]] + spec_escape(x.drop_first(), if x[0] == 0 { zeros + 1 } else { 0 })
    }
}

/// Unescaping undoes emulation prevention: `unescape(escape(x)) == x`.
pub proof fn lemma_unescape_undoes_escape(x: Seq<u8>, zeros: int)
    requires
        zeros >= 0,
    ensures
        spec_unescape(spec_escape(x, zeros), zeros) == x,
    decreases x.len(),
{
    if x.len() > 0 {
        let b = x[0];
        let rest = x.drop_first();
        if zeros >= 2 && b <= 3 {
            let next: int = if b == 0 { 1 } else { 0 };
            lemma_unescape_undoes_escape(rest, next);
            let e = seq![3u8, b] + spec_escape(rest, next);
            assert(e.drop_first() =~= seq![b] + spec_escape(rest, next));
            assert((seq![b] + spec_escape(rest, next)).drop_first() =~= spec_escape(rest, next));
            assert(spec_unescape(e, zeros) == spec_unescape(seq![b] + spec_escape(rest, next), 0));
            assert(spec_unescape(seq![b] + spec_escape(rest, next), 0) == seq![b] + spec_unescape(spec_escape(rest, next), next));
            assert(seq![b] + rest =~= x);
        } else {
            let next: int = if b == 0 { zeros + 1 } else { 0 };
            lemma_unescape_undoes_escape(rest, next);
            let e = seq![b] + spec_escape(rest, next);
            assert(e.drop_first() =~= spec_escape(rest, next));
            assert(seq![b] + rest =~= x);
        }
    }
}

/// Whether the bytes `00 00 03` begin at `i`.
pub open spec fn is_escape_at(x: Seq<u8>, i: int) -> bool {
    0 <= i && i + 2 < x.len() && x[i] == 0 && x[i + 1] == 0 && x[i + 2] == 3
}

/// A stream that holds no `00 00 03` comes through unescaping unchanged.
pub proof fn lemma_unescape_keeps_unescaped(x: Seq<u8>)
    requires
        forall|i: int| !#[trigger] is_escape_at(x, i),
    ensures
        spec_unescape(x, 0) == x,
{
    lemma_unescape_keeps_unescaped_from(x, 0);
}

proof fn lemma_unescape_keeps_unescaped_from(x: Seq<u8>, zeros: int)
    requires
        zeros >= 0,
        forall|i: int| !#[trigger] is_escape_at(x, i),
        zeros >= 2 ==> x.len() == 0 || x[0] != 3,
        zeros >= 1 ==> !(x.len() >= 2 && x[0] == 0 && x[1] == 3),
    ensures
        spec_unescape(x, zeros) == x,
    decreases x.len(),
{
    if x.len() > 0 {
        let b = x[0];
        let rest = x.drop_first();
        let next: int = if b == 0 { zeros + 1 } else { 0 };
        assert forall|i: int| !#[trigger] is_escape_at(rest, i) by {
            if is_escape_at(rest, i) {
                assert(rest[i] == x[i + 1] && rest[i + 1] == x[i + 2] && rest[i + 2] == x[i + 3]);
                assert(is_escape_at(x, i + 1));
            }
        }
        if next >= 1 && rest.len() >= 2 {
            assert(!is_escape_at(x, 0));
        }
        lemma_unescape_keeps_unescaped_from(rest, next);
        assert(seq![b] + rest =~= x);
    }
}

/// The start code `00 00 01`, or `00 00 00 01` when `long`.
pub open spec fn start_code(long: bool) -> Seq<u8> {
    if long { seq![0u8, 0u8, 0u8, 1u8] } else { seq![0u8, 0u8, 1u8] }
}

/// The NAL unit made of the bytes `p`, as the parser reads a well-formed one.
pub open spec fn nal_of(p: Seq<u8>) -> NalView {
    NalView { kind: kind_of_type(p[0] % 32), reference_idc: (p[0] / 32) % 4, payload: p }
}

/// Whether `00 00 01` begins at `i` in `p`.
pub open spec fn has_short_code_at(p: Seq<u8>, i: int) -> bool {
    0 <= i && i + 3 <= p.len() && p[i] == 0 && p[i + 1] == 0 && p[i + 2] == 1
}

/// Whether `p` can stand between start codes of a byte stream: not empty, forbidden
/// bit clear, last byte not zero, and no `00 00 01` inside.
pub open spec fn is_framable_unit(p: Seq<u8>) -> bool {
    &&& p.len() > 0
    &&& p[0] < 0x80
    &&& p.last() != 0
    &&& forall|i: int| !#[trigger] has_short_code_at(p, i)
}

/// The Annex-B byte stream of `units`, each behind a start code (a long one where
/// `long` says so).
pub open spec fn annex_b_stream(units: Seq<Seq<u8>>, long: Seq<bool>) -> Seq<u8>
    decreases units.len(),
{
    if units.len() == 0 || long.len() == 0 {
        Seq::empty()
    } else {
        start_code(long[0]) + units[0] + annex_b_stream(units.drop_first(), long.drop_first())
    }
}

proof fn lemma_find_skips(s: Seq<u8>, x: int, y: int)
    requires
        0 <= x <= y,
        forall|i: int| x <= i < y ==> !#[trigger] is_start_code_at(s, i),
    ensures
        spec_find_start_code(s, x) == spec_find_start_code(s, y),
    decreases y - x,
{
    if x < y && x + 3 <= s.len() {
        lemma_find_skips(s, x + 1, y);
    }
}

proof fn lemma_annex_b_at(s: Seq<u8>, cursor: int, units: Seq<Seq<u8>>, long: Seq<bool>)
    requires
        0 <= cursor <= s.len(),
        long.len() == units.len(),
        forall|i: int| 0 <= i < units.len() ==> is_framable_unit(#[trigger] units[i]),
        s.subrange(cursor, s.len() as int) == annex_b_stream(units, long),
    ensures
        spec_annex_b_from(s, cursor) == Ok::<Seq<NalView>, ErrorView>(units.map_values(|p: Seq<u8>| nal_of(p))),
    decreases units.len(),
{
    let stream = annex_b_stream(units, long);
    if units.len() == 0 {
        assert(stream.len() == 0);
        assert(cursor == s.len());
        assert(units.map_values(|p: Seq<u8>| nal_of(p)) =~= Seq::<NalView>::empty());
    } else {
        let sc = start_code(long[0]);
        let p = units[0];
        let rest_units = units.drop_first();
        let rest_long = long.drop_first();
        let rest = annex_b_stream(rest_units, rest_long);
        assert(stream == sc + p + rest);
        assert(is_framable_unit(p));
        let ps = cursor + sc.len();
        let f = cursor + sc.len() + p.len();
        assert forall|k: int| 0 <= k < stream.len() implies s[cursor + k] == #[trigger] stream[k] by {
            assert(s.subrange(cursor, s.len() as int)[k] == s[cursor + k]);
        }
        assert forall|k: int| 0 <= k < sc.len() implies s[cursor + k] == #[trigger] sc[k] by {
            assert(stream[k] == sc[k]);
        }
        assert forall|k: int| 0 <= k < p.len() implies s[ps + k] == #[trigger] p[k] by {
            assert(stream[sc.len() + k] == p[k]);
        }
        assert forall|k: int| 0 <= k < rest.len() implies s[f + k] == #[trigger] rest[k] by {
            assert(stream[sc.len() + p.len() + k] == rest[k]);
        }
        // The start code is found where the unit begins.
        assert(s[cursor] == sc[0] && s[cursor + 1] == sc[1] && s[cursor + 2] == sc[2]);
        if long[0] {
            assert(s[cursor + 3] == sc[3]);
        }
        assert(is_start_code_at(s, cursor));
        assert(spec_find_start_code(s, cursor) == Some(cursor));
        assert(s[cursor + 2] == 1 <==> !long[0]);
        // No start code begins inside the unit.
        assert forall|i: int| ps <= i < f implies !#[trigger] is_start_code_at(s, i) by {
            let j = i - ps;
            let l = p.len() - 1;
            assert(s[ps + l] == p[l]);
            if is_start_code_at(s, i) {
                assert(s[i] == 0 && s[i + 1] == 0);
                if j == l {
                    assert(s[i] == p[l]);
                } else if j + 1 == l {
                    assert(s[i + 1] == p[l]);
                } else {
                    assert(s[i] == p[j] && s[i + 1] == p[j + 1] && s[i + 2] == p[j + 2]);
                    if s[i + 2] == 1 {
                        assert(has_short_code_at(p, j));
                    } else {
                        assert(s[i + 2] == 0 && s[i + 3] == 1);
                        if j + 2 == l {
                            assert(s[i + 2] == p[l]);
                        } else {
                            assert(s[i + 3] == p[j + 3]);
                            assert(has_short_code_at(p, j + 1));
                        }
                    }
                }
            }
        }
        lemma_find_skips(s, ps, f);
        let rest_views = rest_units.map_values(|q: Seq<u8>| nal_of(q));
        assert forall|i: int| 0 <= i < rest_units.len() implies is_framable_unit(#[trigger] rest_units[i]) by {
            assert(rest_units[i] == units[i + 1]);
        }
        assert(s.subrange(f, s.len() as int) =~= rest);
        lemma_annex_b_at(s, f, rest_units, rest_long);
        if rest_units.len() > 0 {
            let sc2 = start_code(rest_long[0]);
            assert(rest == sc2 + rest_units[0] + annex_b_stream(rest_units.drop_first(), rest_long.drop_first()));
            assert(rest[0] == sc2[0] && rest[1] == sc2[1] && rest[2] == sc2[2]);
            assert(s[f] == rest[0] && s[f + 1] == rest[1] && s[f + 2] == rest[2]);
            if rest_long[0] {
                assert(rest[3] == sc2[3]);
                assert(s[f + 3] == rest[3]);
            }
            assert(is_start_code_at(s, f));
            assert(spec_find_start_code(s, f) == Some(f));
        } else {
            assert(f == s.len());
        }
        assert(s.subrange(ps, f) =~= p);
        assert(spec_parse_nal(p) == Ok::<NalView, ErrorView>(nal_of(p)));
        assert(units.map_values(|q: Seq<u8>| nal_of(q)) =~= seq![nal_of(p)] + rest_views);
    }
}

/// A byte stream made of start codes and well-formed NAL units splits back into
/// exactly those units, whole and in order, without their start codes.
pub proof fn lemma_annex_b_splits_units(units: Seq<Seq<u8>>, long: Seq<bool>)
    requires
        long.len() == units.len(),
        forall|i: int| 0 <= i < units.len() ==> is_framable_unit(#[trigger] units[i]),
    ensures
        spec_annex_b_from(annex_b_stream(units, long), 0) == Ok::<Seq<NalView>, ErrorView>(
            units.map_values(|p: Seq<u8>| nal_of(p)),
        ),
{
    let s = annex_b_stream(units, long);
    assert(s.subrange(0, s.len() as int) =~= s);
    lemma_annex_b_at(s, 0, units, long);
}

/// 256 to the power `n`.
pub open spec fn pow256(n: nat) -> nat
    decreases n,
{
    if n == 0 { 1 } else { 256 * pow256((n - 1) as nat) }
}

/// `v` written big-endian on `n` bytes.
pub open spec fn be_bytes(v: nat, n: nat) -> Seq<u8>
    decreases n,
{
    if n == 0 { Seq::empty() } else { be_bytes(v / 256, (n - 1) as nat).push((v % 256) as u8) }
}

proof fn lemma_be_bytes_len(v: nat, n: nat)
    ensures
        be_bytes(v, n).len() == n,
    decreases n,
{
    if n > 0 {
        lemma_be_bytes_len(v / 256, (n - 1) as nat);
    }
}

proof fn lemma_be_bytes_value(s: Seq<u8>, p: int, v: nat, n: nat)
    requires
        v < pow256(n),
        0 <= p,
        p + n <= s.len(),
        forall|k: int| 0 <= k < n ==> s[p + k] == #[trigger] be_bytes(v, n)[k],
    ensures
        be_value(s, p, n) == v,
    decreases n,
{
    if n > 0 {
        let m = (n - 1) as nat;
        lemma_be_bytes_len(v / 256, m);
        assert(v / 256 < pow256(m)) by (nonlinear_arith)
            requires
                v < 256 * pow256(m),
        ;
        assert forall|k: int| 0 <= k < m implies s[p + k] == #[trigger] be_bytes(v / 256, m)[k] by {
            assert(be_bytes(v, n)[k] == be_bytes(v / 256, m)[k]);
        }
        lemma_be_bytes_value(s, p, v / 256, m);
        assert(s[p + m] == be_bytes(v, n)[m as int]);
        assert(v == (v / 256) * 256 + v % 256) by (nonlinear_arith);
    }
}

/// An AVCC sample made of `entries`, each behind its length written on
/// `length_size` bytes; an empty entry is a length of zero alone.
pub open spec fn avcc_sample(entries: Seq<Seq<u8>>, length_size: nat) -> Seq<u8>
    decreases entries.len(),
{
    if entries.len() == 0 {
        Seq::empty()
    } else {
        be_bytes(entries[0].len(), length_size) + entries[0] + avcc_sample(entries.drop_first(), length_size)
    }
}

/// The NAL units of the non-empty `entries`, in order.
pub open spec fn avcc_units(entries: Seq<Seq<u8>>) -> Seq<NalView>
    decreases entries.len(),
{
    if entries.len() == 0 {
        Seq::empty()
    } else {
        (if entries[0].len() > 0 { seq![nal_of(entries[0])] } else { Seq::empty() }) + avcc_units(entries.drop_first())
    }
}

proof fn lemma_avcc_at(s: Seq<u8>, length_size: nat, cursor: int, entries: Seq<Seq<u8>>)
    requires
        1 <= length_size <= 4,
        0 <= cursor <= s.len(),
        s.len() <= usize::MAX,
        forall|i: int| 0 <= i < entries.len() ==> (#[trigger] entries[i]).len() < pow256(length_size) && (
        entries[i].len() > 0 ==> entries[i][0] < 0x80),
        s.subrange(cursor, s.len() as int) == avcc_sample(entries, length_size),
    ensures
        spec_avcc_from(s, length_size as int, cursor) == Ok::<Seq<NalView>, ErrorView>(avcc_units(entries)),
    decreases entries.len(),
{
    let sample = avcc_sample(entries, length_size);
    if entries.len() == 0 {
        assert(sample.len() == 0);
        assert(cursor == s.len());
    } else {
        let e = entries[0];
        let h = be_bytes(e.len(), length_size);
        let rest_entries = entries.drop_first();
        let rest = avcc_sample(rest_entries, length_size);
        lemma_be_bytes_len(e.len(), length_size);
        assert(sample == h + e + rest);
        assert forall|k: int| 0 <= k < sample.len() implies s[cursor + k] == #[trigger] sample[k] by {
            assert(s.subrange(cursor, s.len() as int)[k] == s[cursor + k]);
        }
        assert forall|k: int| 0 <= k < length_size implies s[cursor + k] == #[trigger] h[k] by {
            assert(sample[k] == h[k]);
        }
        assert(entries[0].len() < pow256(length_size));
        lemma_be_bytes_value(s, cursor, e.len(), length_size);
        let start = cursor + length_size;
        let end = start + e.len();
        assert forall|k: int| 0 <= k < rest.len() implies s[end + k] == #[trigger] rest[k] by {
            assert(sample[length_size + e.len() + k] == rest[k]);
        }
        assert(s.subrange(end, s.len() as int) =~= rest);
        assert forall|i: int| 0 <= i < rest_entries.len() implies (#[trigger] rest_entries[i]).len() < pow256(
            length_size,
        ) && (rest_entries[i].len() > 0 ==> rest_entries[i][0] < 0x80) by {
            assert(rest_entries[i] == entries[i + 1]);
        }
        lemma_avcc_at(s, length_size, end, rest_entries);
        if e.len() > 0 {
            assert forall|k: int| 0 <= k < e.len() implies s[start + k] == #[trigger] e[k] by {
                assert(sample[length_size + k] == e[k]);
            }
            assert(s.subrange(start, end) =~= e);
            assert(spec_parse_nal(e) == Ok::<NalView, ErrorView>(nal_of(e)));
        } else {
            assert(Seq::<NalView>::empty() + avcc_units(rest_entries) =~= avcc_units(rest_entries));
        }
    }
}

/// An AVCC sample made of length-prefixed NAL units, with any number of zero-length
/// entries among them, splits back into exactly those units, whole and in order.
pub proof fn lemma_avcc_splits_units(entries: Seq<Seq<u8>>, length_size: nat)
    requires
        1 <= length_size <= 4,
        avcc_sample(entries, length_size).len() <= usize::MAX,
        forall|i: int| 0 <= i < entries.len() ==> (#[trigger] entries[i]).len() < pow256(length_size) && (
        entries[i].len() > 0 ==> entries[i][0] < 0x80),
    ensures
        spec_split_avcc(avcc_sample(entries, length_size), length_size as int) == Ok::<Seq<NalView>, ErrorView>(
            avcc_units(entries),
        ),
{
    let s = avcc_sample(entries, length_size);
    assert(s.subrange(0, s.len() as int) =~= s);
    lemma_avcc_at(s, length_size, 0, entries);
}


/// The four bytes `avcC`.
pub open spec fn avcc_tag() -> Seq<u8> {
    seq![0x61u8, 0x76u8, 0x63u8, 0x43u8]
}

/// An avcC configuration record as an encoder writes it: version 1, the profile,
/// compatibility and level bytes of the SPS, the NAL length size less one under six
/// set bits, one SPS under three set bits, then the SPS and one PPS, each behind its
/// 16-bit length.
pub open spec fn avcc_record(length_size: nat, sps: Seq<u8>, pps: Seq<u8>) -> Seq<u8> {
    seq![1u8, sps[1], sps[2], sps[3], (0xfc + length_size - 1) as u8, 0xe1u8, (sps.len() / 256) as u8, (sps.len()
        % 256) as u8] + sps + seq![1u8, (pps.len() / 256) as u8, (pps.len() % 256) as u8] + pps
}

proof fn lemma_find_avcc_after(s: Seq<u8>, prefix: Seq<u8>, from: int)
    requires
        0 <= from <= prefix.len(),
        s.len() >= prefix.len() + 4,
        s.subrange(0, prefix.len() + 4int) == prefix + avcc_tag(),
        forall|i: int| 0 <= i < prefix.len() ==> !#[trigger] is_avcc_marker_at(prefix + avcc_tag(), i),
    ensures
        spec_find_avcc(s, from) == Some(prefix.len() as int),
    decreases prefix.len() - from,
{
    let head = prefix + avcc_tag();
    assert forall|k: int| 0 <= k < prefix.len() + 4 implies s[k] == #[trigger] head[k] by {
        assert(s.subrange(0, prefix.len() + 4int)[k] == s[k]);
    }
    if from < prefix.len() {
        assert(!is_avcc_marker_at(head, from));
        assert(s[from] == head[from] && s[from + 1] == head[from + 1] && s[from + 2] == head[from + 2] && s[from + 3]
            == head[from + 3]);
        lemma_find_avcc_after(s, prefix, from + 1);
    } else {
        let n = prefix.len() as int;
        assert(head[n] == 0x61 && head[n + 1] == 0x76 && head[n + 2] == 0x63 && head[n + 3] == 0x43);
        assert(s[n] == head[n] && s[n + 1] == head[n + 1] && s[n + 2] == head[n + 2] && s[n + 3] == head[n + 3]);
    }
}

proof fn lemma_avcc_record_bytes(length_size: nat, sps: Seq<u8>, pps: Seq<u8>, suffix: Seq<u8>)
    requires
        1 <= length_size <= 4,
        4 <= sps.len() < 0x1_0000,
        1 <= pps.len() < 0x1_0000,
    ensures
        ({
            let c = avcc_record(length_size, sps, pps) + suffix;
            let sps_end: int = 8int + sps.len();
            &&& c.len() >= sps_end + 3 + pps.len()
            &&& c[4] % 4 + 1 == length_size
            &&& c[5] % 32 == 1
            &&& c[6] * 256 + c[7] == sps.len()
            &&& c.subrange(8, sps_end) == sps
            &&& c[sps_end] == 1
            &&& c[sps_end + 1] * 256 + c[sps_end + 2] == pps.len()
            &&& c.subrange(sps_end + 3, sps_end + 3 + pps.len()) == pps
        }),
{
    let sl = sps.len() as int;
    let pl = pps.len() as int;
    let hdr = seq![1u8, sps[1], sps[2], sps[3], (0xfc + length_size - 1) as u8, 0xe1u8, (sl / 256) as u8, (sl
        % 256) as u8];
    let mid = seq![1u8, (pl / 256) as u8, (pl % 256) as u8];
    let c = avcc_record(length_size, sps, pps) + suffix;
    assert(c =~= hdr + (sps + (mid + (pps + suffix))));
    assert(c[4] == hdr[4] && c[5] == hdr[5] && c[6] == hdr[6] && c[7] == hdr[7]);
    assert(c.subrange(8, 8 + sl) =~= sps);
    assert(c[8 + sl] == mid[0] && c[9 + sl] == mid[1] && c[10 + sl] == mid[2]);
    assert(c.subrange(11 + sl, 11 + sl + pl) =~= pps);
}

/// A file that carries an avcC record written by an encoder, after bytes that hold no
/// earlier `avcC` marker and before any bytes at all, gives back what was written: its
/// SPS and PPS units are those bytes, and the stream's NAL length size is the one
/// written, with the picture size of that SPS.
#[verifier::spinoff_prover]
pub proof fn lemma_avcc_record_read_back(prefix: Seq<u8>, length_size: nat, sps: Seq<u8>, pps: Seq<u8>, suffix: Seq<u8>)
    requires
        1 <= length_size <= 4,
        4 <= sps.len() < 0x1_0000,
        1 <= pps.len() < 0x1_0000,
        sps[0] < 0x80 && sps[0] % 32 == 7,
        pps[0] < 0x80 && pps[0] % 32 == 8,
        forall|i: int| 0 <= i < prefix.len() ==> !#[trigger] is_avcc_marker_at(prefix + avcc_tag(), i),
    ensures
        ({
            let s = prefix + avcc_tag() + avcc_record(length_size, sps, pps) + suffix;
            &&& spec_parameter_sets(s) matches Ok((a, b)) && a.payload == sps && b.payload == pps
                && a.kind == NalKind::SequenceParameterSet && b.kind == NalKind::PictureParameterSet
            &&& spec_probe_mp4_avcc(s) == (match spec_dimensions_from_sps(spec_parse_nal(sps)->Ok_0) {
                Ok(d) => Ok::<StreamInfo, ErrorView>(StreamInfo { dimensions: d, length_size: length_size as usize }),
                Err(e) => Err(e),
            })
        }),
{
    let c = avcc_record(length_size, sps, pps) + suffix;
    lemma_avcc_config_after(prefix, avcc_record(length_size, sps, pps), suffix);
    lemma_avcc_record_bytes(length_size, sps, pps, suffix);
    lemma_read_record(c, length_size, sps, pps);
}

proof fn lemma_avcc_config_after(prefix: Seq<u8>, record: Seq<u8>, suffix: Seq<u8>)
    requires
        forall|i: int| 0 <= i < prefix.len() ==> !#[trigger] is_avcc_marker_at(prefix + avcc_tag(), i),
    ensures
        avcc_config(prefix + avcc_tag() + record + suffix) == Some(record + suffix),
{
    let c = record + suffix;
    let s = prefix + avcc_tag() + record + suffix;
    assert(s =~= prefix + avcc_tag() + c);
    let n = prefix.len() as int;
    assert(s.subrange(0, n + 4) =~= prefix + avcc_tag());
    lemma_find_avcc_after(s, prefix, 0);
    assert(s.subrange(n + 4, s.len() as int) =~= c);
}

#[verifier::rlimit(30)]
proof fn lemma_read_record(c: Seq<u8>, length_size: nat, sps: Seq<u8>, pps: Seq<u8>)
    requires
        1 <= length_size <= 4,
        4 <= sps.len() < 0x1_0000,
        1 <= pps.len() < 0x1_0000,
        sps[0] < 0x80 && sps[0] % 32 == 7,
        pps[0] < 0x80 && pps[0] % 32 == 8,
        ({
            let sps_end: int = 8int + sps.len();
            &&& c.len() >= sps_end + 3 + pps.len()
            &&& c[4] % 4 + 1 == length_size
            &&& c[5] % 32 == 1
            &&& c[6] * 256 + c[7] == sps.len()
            &&& c.subrange(8, sps_end) == sps
            &&& c[sps_end] == 1
            &&& c[sps_end + 1] * 256 + c[sps_end + 2] == pps.len()
            &&& c.subrange(sps_end + 3, sps_end + 3 + pps.len()) == pps
        }),
    ensures
        forall|s: Seq<u8>| #[trigger] avcc_config(s) == Some(c) ==> {
            &&& spec_parameter_sets(s) matches Ok((a, b)) && a.payload == sps && b.payload == pps
                && a.kind == NalKind::SequenceParameterSet && b.kind == NalKind::PictureParameterSet
            &&& spec_probe_mp4_avcc(s) == (match spec_dimensions_from_sps(spec_parse_nal(sps)->Ok_0) {
                Ok(d) => Ok::<StreamInfo, ErrorView>(StreamInfo { dimensions: d, length_size: length_size as usize }),
                Err(e) => Err(e),
            })
        },
{
}

} // verus!
