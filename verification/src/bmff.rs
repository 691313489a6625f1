//! ISO-BMFF (MP4/MOV) box walking and the video sample tables.

use vstd::prelude::*;
use crate::error::{format_error, result_is, ErrorView, RtlError};
use crate::frames::{frame_bytes, EncodedFrame, FrameList};

verus! {

/// `b"ftyp"` read as a big-endian number.
pub const FTYP: u32 = 0x6674_7970;
/// `b"moov"` read as a big-endian number.
pub const MOOV: u32 = 0x6d6f_6f76;
/// `b"trak"` read as a big-endian number.
pub const TRAK: u32 = 0x7472_616b;
/// `b"mdia"` read as a big-endian number.
pub const MDIA: u32 = 0x6d64_6961;
/// `b"hdlr"` read as a big-endian number.
pub const HDLR: u32 = 0x6864_6c72;
/// `b"vide"` read as a big-endian number.
pub const VIDE: u32 = 0x7669_6465;
/// `b"minf"` read as a big-endian number.
pub const MINF: u32 = 0x6d69_6e66;
/// `b"stbl"` read as a big-endian number.
pub const STBL: u32 = 0x7374_626c;
/// `b"stsz"` read as a big-endian number.
pub const STSZ: u32 = 0x7374_737a;
/// `b"stco"` read as a big-endian number.
pub const STCO: u32 = 0x7374_636f;
/// `b"co64"` read as a big-endian number.
pub const CO64: u32 = 0x636f_3634;
/// `b"stsc"` read as a big-endian number.
pub const STSC: u32 = 0x7374_7363;

/// The big-endian number held by the four bytes of `s` from `p` on.
pub open spec fn be_u32(s: Seq<u8>, p: int) -> int {
    s[p] * 0x100_0000 + s[p + 1] * 0x1_0000 + s[p + 2] * 0x100 + s[p + 3]
}

/// The big-endian number held by the eight bytes of `s` from `p` on.
pub open spec fn be_u64(s: Seq<u8>, p: int) -> int {
    be_u32(s, p) * 0x1_0000_0000 + be_u32(s, p + 4)
}

pub open spec fn truncated_integer() -> ErrorView {
    ErrorView::Format("truncated integer"@)
}

/// Reading a big-endian `u32` at `p`: it fails when fewer than four bytes remain.
pub open spec fn spec_read_u32(s: Seq<u8>, p: int) -> Result<u32, ErrorView> {
    if 0 <= p && p + 4 <= s.len() {
        Ok(be_u32(s, p) as u32)
    } else {
        Err(truncated_integer())
    }
}

/// Reading a big-endian `u64` at `p`: it fails when fewer than eight bytes remain.
pub open spec fn spec_read_u64(s: Seq<u8>, p: int) -> Result<u64, ErrorView> {
    if 0 <= p && p + 8 <= s.len() {
        Ok(be_u64(s, p) as u64)
    } else {
        Err(truncated_integer())
    }
}

/// Reading a four-character code at `p`.
pub open spec fn spec_read_fourcc(s: Seq<u8>, p: int) -> Result<u32, ErrorView> {
    if 0 <= p && p + 4 <= s.len() {
        Ok(be_u32(s, p) as u32)
    } else {
        Err(ErrorView::Format("truncated fourcc"@))
    }
}

fn be_u32_at(bytes: &[u8], position: usize) -> (v: u32)
    requires
        position + 4 <= bytes@.len(),
    ensures
        v == be_u32(bytes@, position as int),
{
    (bytes[position] as u32) * 0x100_0000 + (bytes[position + 1] as u32) * 0x1_0000
        + (bytes[position + 2] as u32) * 0x100 + bytes[position + 3] as u32
}

fn read_u32(bytes: &[u8], base: usize, delta: usize) -> (r: Result<u32, RtlError>)
    ensures
        result_is(r, spec_read_u32(bytes@, base + delta), |v: u32, w: u32| v == w),
{
    if base > bytes.len() || bytes.len() - base < delta || bytes.len() - base - delta < 4 {
        return Err(format_error("truncated integer"));
    }
    Ok(be_u32_at(bytes, base + delta))
}

fn read_u64(bytes: &[u8], base: usize, delta: usize) -> (r: Result<u64, RtlError>)
    ensures
        result_is(r, spec_read_u64(bytes@, base + delta), |v: u64, w: u64| v == w),
{
    if base > bytes.len() || bytes.len() - base < delta || bytes.len() - base - delta < 8 {
        return Err(format_error("truncated integer"));
    }
    let high = be_u32_at(bytes, base + delta) as u64;
    let low = be_u32_at(bytes, base + delta + 4) as u64;
    Ok(high * 0x1_0000_0000 + low)
}

fn read_fourcc(bytes: &[u8], base: usize, delta: usize) -> (r: Result<u32, RtlError>)
    ensures
        result_is(r, spec_read_fourcc(bytes@, base + delta), |v: u32, w: u32| v == w),
{
    if base > bytes.len() || bytes.len() - base < delta || bytes.len() - base - delta < 4 {
        return Err(format_error("truncated fourcc"));
    }
    Ok(be_u32_at(bytes, base + delta))
}

/// A box found in the file: its type, where its payload starts and where it ends.
#[derive(Clone, Copy)]
pub struct BoxInfo {
    pub kind: u32,
    pub payload_start: usize,
    pub end: usize,
}

/// The box whose header starts at `cursor`, inside a parent that ends at `end`.
pub open spec fn spec_box_at(s: Seq<u8>, cursor: int, end: int) -> Result<BoxInfo, ErrorView> {
    if end - cursor < 8 {
        Err(ErrorView::Format("truncated box header"@))
    } else {
        match spec_read_u32(s, cursor) {
            Err(e) => Err(e),
            Ok(size32) => match spec_read_fourcc(s, cursor + 4) {
                Err(e) => Err(e),
                Ok(kind) => {
                    let header: int = if size32 == 1 { 16 } else { 8 };
                    let size: Result<int, ErrorView> = if size32 == 1 {
                        match spec_read_u64(s, cursor + 8) {
                            Ok(v) => Ok(v as int),
                            Err(e) => Err(e),
                        }
                    } else if size32 == 0 {
                        Ok(end - cursor)
                    } else {
                        Ok(size32 as int)
                    };
                    match size {
                        Err(e) => Err(e),
                        Ok(box_size) => if box_size > usize::MAX {
                            Err(ErrorView::Format("box is too large"@))
                        } else if cursor + box_size > usize::MAX {
                            Err(ErrorView::Format("box size overflow"@))
                        } else if box_size < header || cursor + box_size > end {
                            Err(ErrorView::Format("box extends outside its parent"@))
                        } else {
                            Ok(BoxInfo {
                                kind,
                                payload_start: (cursor + header) as usize,
                                end: (cursor + box_size) as usize,
                            })
                        },
                    }
                },
            },
        }
    }
}

/// A box that parses advances the walk by at least a header and stays in its parent.
pub proof fn lemma_box_advances(s: Seq<u8>, cursor: int, end: int)
    ensures
        spec_box_at(s, cursor, end) matches Ok(b) ==> cursor + 8 <= b.payload_start <= b.end <= end,
{
}

/// A box header is read as ISO-BMFF writes it: the type is the four bytes at 4, and
/// the 32-bit size at 0 gives the box's extent: 1 means a 64-bit size follows at 8
/// and the payload starts after 16 bytes, 0 means the box runs to the end of its
/// parent, and any other size counts the bytes of the whole box, whose payload starts
/// after 8 bytes.
pub proof fn lemma_box_header_fields(s: Seq<u8>, cursor: int, end: int)
    requires
        0 <= cursor,
    ensures
        spec_box_at(s, cursor, end) matches Ok(b) ==> {
            let size32 = s[cursor] * 0x100_0000 + s[cursor + 1] * 0x1_0000 + s[cursor + 2] * 0x100 + s[cursor + 3];
            &&& b.kind == s[cursor + 4] * 0x100_0000 + s[cursor + 5] * 0x1_0000 + s[cursor + 6] * 0x100 + s[cursor
                + 7]
            &&& size32 == 1 ==> b.payload_start == cursor + 16 && b.end == cursor + (s[cursor + 8] * 0x100_0000
                + s[cursor + 9] * 0x1_0000 + s[cursor + 10] * 0x100 + s[cursor + 11]) * 0x1_0000_0000 + (s[cursor
                + 12] * 0x100_0000 + s[cursor + 13] * 0x1_0000 + s[cursor + 14] * 0x100 + s[cursor + 15])
            &&& size32 == 0 ==> b.payload_start == cursor + 8 && b.end == end
            &&& size32 >= 2 ==> b.payload_start == cursor + 8 && b.end == cursor + size32
        },
{
    if let Ok(b) = spec_box_at(s, cursor, end) {
        assert(0 <= be_u32(s, cursor) < 0x1_0000_0000);
        assert(0 <= be_u32(s, cursor + 4) < 0x1_0000_0000);
        if be_u32(s, cursor) == 1 {
            assert(0 <= be_u32(s, cursor + 8) < 0x1_0000_0000);
            assert(0 <= be_u32(s, cursor + 12) < 0x1_0000_0000);
            assert(0 <= be_u64(s, cursor + 8) < 0x1_0000_0000_0000_0000);
        }
    }
}

/// The boxes that follow one another from `start` to `end`, or the first error met.
pub open spec fn spec_boxes(s: Seq<u8>, start: int, end: int) -> Result<Seq<BoxInfo>, ErrorView>
    decreases end - start,
{
    if start >= end {
        Ok(Seq::empty())
    } else {
        proof {
            lemma_box_advances(s, start, end);
        }
        match spec_box_at(s, start, end) {
            Err(e) => Err(e),
            Ok(b) => match spec_boxes(s, b.end as int, end) {
                Err(e) => Err(e),
                Ok(rest) => Ok(seq![b] + rest),
            },
        }
    }
}

/// Every box of a successful walk lies between `start` and `end`.
pub proof fn lemma_boxes_inside(s: Seq<u8>, start: int, end: int)
    requires
        0 <= start,
    ensures
        spec_boxes(s, start, end) matches Ok(bs) ==> forall|i: int|
            0 <= i < bs.len() ==> start <= #[trigger] bs[i].payload_start <= bs[i].end <= end,
    decreases end - start,
{
    if start < end {
        lemma_box_advances(s, start, end);
        if let Ok(b) = spec_box_at(s, start, end) {
            lemma_boxes_inside(s, b.end as int, end);
            if let Ok(bs) = spec_boxes(s, start, end) {
                let rest = spec_boxes(s, b.end as int, end)->Ok_0;
                assert forall|i: int| 0 <= i < bs.len() implies start <= #[trigger] bs[i].payload_start
                    <= bs[i].end <= end by {
                    if i > 0 {
                        assert(bs[i] == rest[i - 1]);
                    }
                }
            }
        }
    }
}

fn box_at(bytes: &[u8], cursor: usize, end: usize) -> (r: Result<BoxInfo, RtlError>)
    requires
        cursor < end,
    ensures
        result_is(r, spec_box_at(bytes@, cursor as int, end as int), |v: BoxInfo, w: BoxInfo| v == w),
{
    if end - cursor < 8 {
        return Err(format_error("truncated box header"));
    }
    let size32 = read_u32(bytes, cursor, 0)?;
    let kind = read_fourcc(bytes, cursor, 4)?;
    let header_size: usize;
    let box_size: u64;
    if size32 == 1 {
        header_size = 16;
        box_size = read_u64(bytes, cursor, 8)?;
    } else if size32 == 0 {
        header_size = 8;
        box_size = (end - cursor) as u64;
    } else {
        header_size = 8;
        box_size = size32 as u64;
    }
    if box_size > usize::MAX as u64 {
        return Err(format_error("box is too large"));
    }
    let box_size = box_size as usize;
    if box_size > usize::MAX - cursor {
        return Err(format_error("box size overflow"));
    }
    let box_end = cursor + box_size;
    if box_size < header_size || box_end > end {
        return Err(format_error("box extends outside its parent"));
    }
    Ok(BoxInfo { kind, payload_start: cursor + header_size, end: box_end })
}

fn boxes_in(bytes: &[u8], start: usize, end: usize) -> (r: Result<Vec<BoxInfo>, RtlError>)
    ensures
        result_is(r, spec_boxes(bytes@, start as int, end as int), |v: Vec<BoxInfo>, w: Seq<BoxInfo>| v@ == w),
{
    let mut result: Vec<BoxInfo> = Vec::new();
    let mut cursor = start;
    while cursor < end
        invariant
            start <= cursor,
            match spec_boxes(bytes@, cursor as int, end as int) {
                Ok(rest) => spec_boxes(bytes@, start as int, end as int) == Ok::<Seq<BoxInfo>, ErrorView>(result@ + rest),
                Err(e) => spec_boxes(bytes@, start as int, end as int) == Err::<Seq<BoxInfo>, ErrorView>(e),
            },
        decreases end - cursor,
    {
        proof {
            lemma_box_advances(bytes@, cursor as int, end as int);
        }
        let item = box_at(bytes, cursor, end)?;
        let ghost before = result@;
        result.push(item);
        proof {
            let rest = spec_boxes(bytes@, item.end as int, end as int);
            if let Ok(r) = rest {
                assert(before + (seq![item] + r) =~= result@ + r);
            }
        }
        cursor = item.end;
    }
    proof {
        assert(result@ + Seq::<BoxInfo>::empty() =~= result@);
    }
    Ok(result)
}

/// The first box of `boxes` with type `kind`.
pub open spec fn spec_find(boxes: Seq<BoxInfo>, kind: u32) -> Option<BoxInfo>
    decreases boxes.len(),
{
    if boxes.len() == 0 {
        None
    } else if boxes[0].kind == kind {
        Some(boxes[0])
    } else {
        spec_find(boxes.drop_first(), kind)
    }
}

/// A box found by `spec_find` is one of the boxes searched.
pub proof fn lemma_find_member(boxes: Seq<BoxInfo>, kind: u32)
    ensures
        spec_find(boxes, kind) matches Some(b) ==> b.kind == kind && exists|i: int|
            0 <= i < boxes.len() && boxes[i] == b,
    decreases boxes.len(),
{
    if boxes.len() > 0 && boxes[0].kind != kind {
        lemma_find_member(boxes.drop_first(), kind);
        if let Some(b) = spec_find(boxes, kind) {
            let i = choose|i: int| 0 <= i < boxes.drop_first().len() && boxes.drop_first()[i] == b;
            assert(boxes[i + 1] == b);
        }
    }
}

/// The box found for a type is the first box of that type, and none is found exactly
/// when no box has that type.
pub proof fn lemma_find_first(boxes: Seq<BoxInfo>, kind: u32)
    ensures
        spec_find(boxes, kind) is None <==> forall|i: int| 0 <= i < boxes.len() ==> #[trigger] boxes[i].kind != kind,
        spec_find(boxes, kind) matches Some(b) ==> exists|i: int|
            0 <= i < boxes.len() && boxes[i] == b && b.kind == kind && forall|j: int|
                0 <= j < i ==> #[trigger] boxes[j].kind != kind,
    decreases boxes.len(),
{
    if boxes.len() > 0 {
        let rest = boxes.drop_first();
        lemma_find_first(rest, kind);
        if boxes[0].kind == kind {
            assert(forall|j: int| 0 <= j < 0 ==> #[trigger] boxes[j].kind != kind);
        } else {
            assert forall|i: int| 0 <= i < rest.len() implies rest[i] == boxes[i + 1] by {}
            if spec_find(rest, kind) is None {
                assert forall|i: int| 0 <= i < boxes.len() implies #[trigger] boxes[i].kind != kind by {
                    if i > 0 {
                        assert(rest[i - 1] == boxes[i]);
                    }
                }
            } else {
                assert(!forall|i: int| 0 <= i < boxes.len() ==> #[trigger] boxes[i].kind != kind) by {
                    let b = spec_find(rest, kind)->Some_0;
                    let i = choose|i: int|
                        0 <= i < rest.len() && rest[i] == b && b.kind == kind && forall|j: int|
                            0 <= j < i ==> #[trigger] rest[j].kind != kind;
                    assert(boxes[i + 1].kind == kind);
                }
            }
            if let Some(b) = spec_find(boxes, kind) {
                let i = choose|i: int|
                    0 <= i < rest.len() && rest[i] == b && b.kind == kind && forall|j: int|
                        0 <= j < i ==> #[trigger] rest[j].kind != kind;
                assert(boxes[i + 1] == b);
                assert forall|j: int| 0 <= j < i + 1 implies #[trigger] boxes[j].kind != kind by {
                    if j > 0 {
                        assert(rest[j - 1] == boxes[j]);
                    }
                }
            }
        }
    }
}

fn find_box(boxes: &Vec<BoxInfo>, kind: u32) -> (r: Option<BoxInfo>)
    ensures
        r == spec_find(boxes@, kind),
{
    let mut i: usize = 0;
    assert(boxes@.skip(0) =~= boxes@);
    while i < boxes.len()
        invariant
            i <= boxes@.len(),
            spec_find(boxes@, kind) == spec_find(boxes@.skip(i as int), kind),
        decreases boxes@.len() - i,
    {
        assert(boxes@.skip(i as int).drop_first() =~= boxes@.skip(i + 1));
        if boxes[i].kind == kind {
            return Some(boxes[i]);
        }
        i = i + 1;
    }
    None
}

/// The sample sizes of an `stsz` box whose payload starts at `p`.
pub open spec fn spec_sample_sizes(s: Seq<u8>, p: int) -> Result<Seq<usize>, ErrorView> {
    match spec_read_u32(s, p + 4) {
        Err(e) => Err(e),
        Ok(fixed) => match spec_read_u32(s, p + 8) {
            Err(e) => Err(e),
            Ok(count) => if fixed != 0 {
                Ok(Seq::new(count as nat, |i: int| fixed as usize))
            } else if count > 0 && p + 12 + 4 * count > s.len() {
                Err(truncated_integer())
            } else {
                Ok(Seq::new(count as nat, |i: int| be_u32(s, p + 12 + 4 * i) as usize))
            },
        },
    }
}

fn parse_sample_sizes(bytes: &[u8], info: BoxInfo) -> (r: Result<Vec<usize>, RtlError>)
    requires
        info.payload_start <= bytes@.len(),
    ensures
        result_is(r, spec_sample_sizes(bytes@, info.payload_start as int), |v: Vec<usize>, w: Seq<usize>| v@ == w),
{
    let payload = info.payload_start;
    let fixed_size = read_u32(bytes, payload, 4)?;
    let count = read_u32(bytes, payload, 8)?;
    let mut sizes: Vec<usize> = Vec::new();
    if fixed_size != 0 {
        let mut i: u32 = 0;
        while i < count
            invariant
                i <= count,
                sizes@ =~= Seq::new(i as nat, |k: int| fixed_size as usize),
            decreases count - i,
        {
            sizes.push(fixed_size as usize);
            i = i + 1;
        }
        return Ok(sizes);
    }
    let available = (bytes.len() - payload) as u64;
    if count > 0 && 12 + 4 * (count as u64) > available {
        return Err(format_error("truncated integer"));
    }
    let mut i: u32 = 0;
    while i < count
        invariant
            i <= count,
            payload + 12 + 4 * count <= bytes@.len() || count == 0,
            bytes@.len() <= usize::MAX,
            sizes@ =~= Seq::new(i as nat, |k: int| be_u32(bytes@, payload + 12 + 4 * k) as usize),
        decreases count - i,
    {
        let position = payload + 12 + 4 * (i as usize);
        sizes.push(be_u32_at(bytes, position) as usize);
        i = i + 1;
    }
    Ok(sizes)
}

/// The chunk offsets of an `stco` (32-bit) or `co64` (64-bit) box.
pub open spec fn spec_chunk_offsets(s: Seq<u8>, info: BoxInfo) -> Result<Seq<u64>, ErrorView> {
    let p = info.payload_start as int;
    let wide = info.kind == CO64;
    let width: int = if wide { 8 } else { 4 };
    match spec_read_u32(s, p + 4) {
        Err(e) => Err(e),
        Ok(count) => if count > 0 && p + 8 + width * count > s.len() {
            Err(truncated_integer())
        } else {
            Ok(Seq::new(count as nat, |i: int| if wide {
                be_u64(s, p + 8 + 8 * i) as u64
            } else {
                be_u32(s, p + 8 + 4 * i) as u64
            }))
        },
    }
}

/// The chunk offsets of a table are its entries, in order: the table is read when the
/// entry count (the four bytes at 4 into the payload) and that many entries lie within
/// the bytes; it then holds that many offsets, and offset `k` is the big-endian number
/// in the four bytes at `8 + 4k` of an `stco` payload, or in the eight bytes at `8 + 8k`
/// of a `co64` one.
pub proof fn lemma_chunk_offset_entries(s: Seq<u8>, info: BoxInfo)
    ensures
        ({
            let p = info.payload_start as int;
            let count = s[p + 4] * 0x100_0000 + s[p + 5] * 0x1_0000 + s[p + 6] * 0x100 + s[p + 7];
            let width: int = if info.kind == CO64 { 8 } else { 4 };
            spec_chunk_offsets(s, info) is Ok <==> p + 8 <= s.len() && p + 8 + width * count <= s.len()
        }),
        spec_chunk_offsets(s, info) matches Ok(offsets) ==> {
            let p = info.payload_start as int;
            &&& offsets.len() == s[p + 4] * 0x100_0000 + s[p + 5] * 0x1_0000 + s[p + 6] * 0x100 + s[p + 7]
            &&& info.kind != CO64 ==> forall|k: int|
                0 <= k < offsets.len() ==> #[trigger] offsets[k] == s[p + 8 + 4 * k] * 0x100_0000 + s[p + 9 + 4 * k]
                    * 0x1_0000 + s[p + 10 + 4 * k] * 0x100 + s[p + 11 + 4 * k]
            &&& info.kind == CO64 ==> forall|k: int|
                0 <= k < offsets.len() ==> #[trigger] offsets[k] == s[p + 8 + 8 * k] * 0x100_0000_0000_0000
                    + s[p + 9 + 8 * k] * 0x1_0000_0000_0000 + s[p + 10 + 8 * k] * 0x100_0000_0000 + s[p + 11 + 8
                    * k] * 0x1_0000_0000 + s[p + 12 + 8 * k] * 0x100_0000 + s[p + 13 + 8 * k] * 0x1_0000 + s[p
                    + 14 + 8 * k] * 0x100 + s[p + 15 + 8 * k]
        },
{
    let p = info.payload_start as int;
    if let Ok(offsets) = spec_chunk_offsets(s, info) {
        if info.kind != CO64 {
            assert forall|k: int| 0 <= k < offsets.len() implies #[trigger] offsets[k] == s[p + 8 + 4 * k]
                * 0x100_0000 + s[p + 9 + 4 * k] * 0x1_0000 + s[p + 10 + 4 * k] * 0x100 + s[p + 11 + 4 * k] by {
                assert(0 <= be_u32(s, p + 8 + 4 * k) < 0x1_0000_0000);
            }
        } else {
            assert forall|k: int| 0 <= k < offsets.len() implies #[trigger] offsets[k] == s[p + 8 + 8 * k]
                * 0x100_0000_0000_0000 + s[p + 9 + 8 * k] * 0x1_0000_0000_0000 + s[p + 10 + 8 * k]
                * 0x100_0000_0000 + s[p + 11 + 8 * k] * 0x1_0000_0000 + s[p + 12 + 8 * k] * 0x100_0000 + s[p
                + 13 + 8 * k] * 0x1_0000 + s[p + 14 + 8 * k] * 0x100 + s[p + 15 + 8 * k] by {
                let q = p + 8 + 8 * k;
                assert(0 <= be_u32(s, q) < 0x1_0000_0000);
                assert(0 <= be_u32(s, q + 4) < 0x1_0000_0000);
                assert(0 <= be_u64(s, q) < 0x1_0000_0000_0000_0000);
            }
        }
    }
}

fn parse_chunk_offsets(bytes: &[u8], info: BoxInfo) -> (r: Result<Vec<u64>, RtlError>)
    requires
        info.payload_start <= bytes@.len(),
    ensures
        result_is(r, spec_chunk_offsets(bytes@, info), |v: Vec<u64>, w: Seq<u64>| v@ == w),
{
    let payload = info.payload_start;
    let count = read_u32(bytes, payload, 4)?;
    let wide = info.kind == CO64;
    let width: u64 = if wide { 8 } else { 4 };
    let available = (bytes.len() - payload) as u64;
    if count > 0 && 8 + width * (count as u64) > available {
        return Err(format_error("truncated integer"));
    }
    let ghost s = bytes@;
    let mut offsets: Vec<u64> = Vec::new();
    let mut i: u32 = 0;
    while i < count
        invariant
            i <= count,
            s == bytes@,
            width == (if wide { 8int } else { 4int }),
            wide ==> payload + 8 + 8 * count <= bytes@.len() || count == 0,
            !wide ==> payload + 8 + 4 * count <= bytes@.len() || count == 0,
            bytes@.len() <= usize::MAX,
            offsets@ =~= Seq::new(i as nat, |k: int| if wide {
                be_u64(s, payload + 8 + 8 * k) as u64
            } else {
                be_u32(s, payload + 8 + 4 * k) as u64
            }),
        decreases count - i,
    {
        if wide {
            let position = payload + 8 + 8 * (i as usize);
            let high = be_u32_at(bytes, position) as u64;
            let low = be_u32_at(bytes, position + 4) as u64;
            offsets.push(high * 0x1_0000_0000 + low);
        } else {
            let position = payload + 8 + 4 * (i as usize);
            offsets.push(be_u32_at(bytes, position) as u64);
        }
        i = i + 1;
    }
    Ok(offsets)
}

/// One row of an `stsc` table: from chunk `first_chunk` on, each chunk holds
/// `samples_per_chunk` samples.
#[derive(Clone, Copy)]
pub struct StscEntry {
    pub first_chunk: u32,
    pub samples_per_chunk: u32,
}

/// The rows of an `stsc` box whose payload starts at `p`. A row is twelve bytes
/// long, of which the first eight are read.
pub open spec fn spec_stsc(s: Seq<u8>, p: int) -> Result<Seq<StscEntry>, ErrorView> {
    match spec_read_u32(s, p + 4) {
        Err(e) => Err(e),
        Ok(count) => if count > 0 && p + 12 * count + 4 > s.len() {
            Err(truncated_integer())
        } else {
            Ok(Seq::new(count as nat, |i: int| StscEntry {
                first_chunk: be_u32(s, p + 8 + 12 * i) as u32,
                samples_per_chunk: be_u32(s, p + 12 + 12 * i) as u32,
            }))
        },
    }
}

fn parse_stsc(bytes: &[u8], info: BoxInfo) -> (r: Result<Vec<StscEntry>, RtlError>)
    requires
        info.payload_start <= bytes@.len(),
    ensures
        result_is(r, spec_stsc(bytes@, info.payload_start as int), |v: Vec<StscEntry>, w: Seq<StscEntry>| v@ == w),
{
    let payload = info.payload_start;
    let count = read_u32(bytes, payload, 4)?;
    let available = (bytes.len() - payload) as u64;
    if count > 0 && 12 * (count as u64) + 4 > available {
        return Err(format_error("truncated integer"));
    }
    let ghost s = bytes@;
    let mut entries: Vec<StscEntry> = Vec::new();
    let mut i: u32 = 0;
    while i < count
        invariant
            i <= count,
            s == bytes@,
            payload + 12 * count + 4 <= bytes@.len() || count == 0,
            bytes@.len() <= usize::MAX,
            entries@ =~= Seq::new(i as nat, |k: int| StscEntry {
                first_chunk: be_u32(s, payload + 8 + 12 * k) as u32,
                samples_per_chunk: be_u32(s, payload + 12 + 12 * k) as u32,
            }),
        decreases count - i,
    {
        let position = payload + 8 + 12 * (i as usize);
        let first_chunk = be_u32_at(bytes, position);
        let samples_per_chunk = be_u32_at(bytes, position + 4);
        entries.push(StscEntry { first_chunk, samples_per_chunk });
        i = i + 1;
    }
    Ok(entries)
}

/// The sum of `sizes`.
pub open spec fn seq_sum(sizes: Seq<usize>) -> int
    decreases sizes.len(),
{
    if sizes.len() == 0 {
        0
    } else {
        seq_sum(sizes.drop_last()) + sizes.last()
    }
}

/// A prefix of `sizes` sums to no more than the whole.
pub proof fn lemma_prefix_sum_le(sizes: Seq<usize>, j: int)
    requires
        0 <= j <= sizes.len(),
    ensures
        0 <= seq_sum(sizes.take(j)) <= seq_sum(sizes),
    decreases sizes.len(),
{
    if j == sizes.len() {
        assert(sizes.take(j) =~= sizes);
        lemma_sum_nonnegative(sizes);
    } else {
        lemma_prefix_sum_le(sizes.drop_last(), j);
        assert(sizes.drop_last().take(j) =~= sizes.take(j));
    }
}

proof fn lemma_sum_nonnegative(sizes: Seq<usize>)
    ensures
        seq_sum(sizes) >= 0,
    decreases sizes.len(),
{
    if sizes.len() > 0 {
        lemma_sum_nonnegative(sizes.drop_last());
    }
}

/// The file offsets of the consecutive samples of one chunk that starts at `start`,
/// or `None` when the end of the chunk's samples does not fit in a `usize`.
pub open spec fn spec_chunk_samples(start: int, sizes: Seq<usize>) -> Option<Seq<usize>> {
    if start + seq_sum(sizes) > usize::MAX {
        None
    } else {
        Some(Seq::new(sizes.len(), |k: int| (start + seq_sum(sizes.take(k))) as usize))
    }
}

/// The `stsc` row that applies to chunk `chunk`: the last row whose first chunk
/// is at most `chunk`.
pub open spec fn spec_stsc_lookup(rows: Seq<StscEntry>, chunk: int) -> Option<StscEntry>
    decreases rows.len(),
{
    if rows.len() == 0 {
        None
    } else if rows.last().first_chunk <= chunk {
        Some(rows.last())
    } else {
        spec_stsc_lookup(rows.drop_last(), chunk)
    }
}

/// The offsets of the samples of chunks `chunk..=chunks.len()` (numbered from 1),
/// whose first sample is `first_sample`.
pub open spec fn spec_offsets_from(
    chunks: Seq<u64>,
    rows: Seq<StscEntry>,
    sizes: Seq<usize>,
    chunk: int,
    first_sample: int,
) -> Result<Seq<usize>, ErrorView>
    decreases chunks.len() + 1 - chunk,
{
    if chunk > chunks.len() || chunk < 1 || first_sample < 0 {
        if first_sample == sizes.len() {
            Ok(Seq::empty())
        } else {
            Err(ErrorView::Format("stsc table does not describe every sample"@))
        }
    } else {
        match spec_stsc_lookup(rows, chunk) {
            None => Err(ErrorView::Format("stsc table does not cover all chunks"@)),
            Some(row) => {
                let last = first_sample + row.samples_per_chunk;
                let start = chunks[chunk - 1];
                if start > usize::MAX {
                    Err(ErrorView::Format("chunk offset is too large"@))
                } else if last > sizes.len() {
                    Err(ErrorView::Format("stsc table references more samples than stsz"@))
                } else {
                    match spec_chunk_samples(start as int, sizes.subrange(first_sample, last)) {
                        None => Err(ErrorView::Format("sample offset overflow"@)),
                        Some(here) => match spec_offsets_from(chunks, rows, sizes, chunk + 1, last) {
                            Err(e) => Err(e),
                            Ok(rest) => Ok(here + rest),
                        },
                    }
                }
            },
        }
    }
}

/// The file offset of every sample, from the chunk offsets, the `stsc` rows and the
/// sample sizes.
pub open spec fn spec_sample_offsets(chunks: Seq<u64>, rows: Seq<StscEntry>, sizes: Seq<usize>) -> Result<Seq<usize>, ErrorView> {
    spec_offsets_from(chunks, rows, sizes, 1, 0)
}

fn stsc_lookup(rows: &Vec<StscEntry>, chunk: u32) -> (r: Option<StscEntry>)
    ensures
        r == spec_stsc_lookup(rows@, chunk as int),
{
    let mut j = rows.len();
    assert(rows@.take(j as int) =~= rows@);
    while j > 0
        invariant
            j <= rows@.len(),
            spec_stsc_lookup(rows@, chunk as int) == spec_stsc_lookup(rows@.take(j as int), chunk as int),
        decreases j,
    {
        assert(rows@.take(j as int).drop_last() =~= rows@.take(j - 1));
        if rows[j - 1].first_chunk <= chunk {
            return Some(rows[j - 1]);
        }
        j = j - 1;
    }
    None
}

fn build_sample_offsets(chunks: &Vec<u64>, rows: &Vec<StscEntry>, sizes: &Vec<usize>) -> (r: Result<Vec<usize>, RtlError>)
    requires
        chunks@.len() <= u32::MAX,
    ensures
        result_is(r, spec_sample_offsets(chunks@, rows@, sizes@), |v: Vec<usize>, w: Seq<usize>| v@ == w),
{
    let mut result: Vec<usize> = Vec::new();
    let mut sample_index: usize = 0;
    let mut chunk: u64 = 1;
    while chunk <= chunks.len() as u64
        invariant
            chunks@.len() <= u32::MAX,
            1 <= chunk <= chunks@.len() + 1,
            sample_index <= sizes@.len(),
            match spec_offsets_from(chunks@, rows@, sizes@, chunk as int, sample_index as int) {
                Ok(rest) => spec_sample_offsets(chunks@, rows@, sizes@) == Ok::<Seq<usize>, ErrorView>(result@ + rest),
                Err(e) => spec_sample_offsets(chunks@, rows@, sizes@) == Err::<Seq<usize>, ErrorView>(e),
            },
        decreases chunks@.len() + 1 - chunk,
    {
        let row = match stsc_lookup(rows, chunk as u32) {
            Some(row) => row,
            None => return Err(format_error("stsc table does not cover all chunks")),
        };
        let start = chunks[(chunk - 1) as usize];
        if start > usize::MAX as u64 {
            return Err(format_error("chunk offset is too large"));
        }
        let count = row.samples_per_chunk as usize;
        if count > sizes.len() - sample_index {
            return Err(format_error("stsc table references more samples than stsz"));
        }
        let chunk_end = sample_index + count;
        let ghost here = sizes@.subrange(sample_index as int, chunk_end as int);
        let ghost before = result@;
        let mut offset = start as usize;
        let mut k = sample_index;
        assert(here.take(0) =~= Seq::<usize>::empty());
        #[verifier::loop_isolation(false)]
        while k < chunk_end
            invariant
                sample_index <= k <= chunk_end <= sizes@.len(),
                here == sizes@.subrange(sample_index as int, chunk_end as int),
                offset == start + seq_sum(here.take(k - sample_index)),
                result@ =~= before + Seq::new((k - sample_index) as nat, |t: int| (start + seq_sum(here.take(t))) as usize),
            decreases chunk_end - k,
        {
            let ghost t = k - sample_index;
            assert(here.take(t + 1).drop_last() =~= here.take(t));
            assert(here[t] == sizes@[k as int]);
            result.push(offset);
            if sizes[k] > usize::MAX - offset {
                proof {
                    lemma_prefix_sum_le(here, t + 1);
                    assert(here.take(t + 1).last() == here[t]);
                    assert(seq_sum(here.take(t + 1)) == seq_sum(here.take(t)) + here[t]);
                    assert(spec_chunk_samples(start as int, here) is None);
                }
                return Err(format_error("sample offset overflow"));
            }
            offset = offset + sizes[k];
            k = k + 1;
        }
        proof {
            assert(here.take(here.len() as int) =~= here);
            let rest = spec_offsets_from(chunks@, rows@, sizes@, chunk + 1, chunk_end as int);
            if let Ok(r) = rest {
                assert(before + (Seq::new(here.len(), |t: int| (start + seq_sum(here.take(t))) as usize) + r) =~= result@ + r);
            }
        }
        sample_index = chunk_end;
        chunk = chunk + 1;
    }
    if sample_index != sizes.len() {
        return Err(format_error("stsc table does not describe every sample"));
    }
    proof {
        assert(result@ + Seq::<usize>::empty() =~= result@);
    }
    Ok(result)
}

/// The bytes of samples `k..` of the file: sample `i` starts at `offsets[i]` and is
/// `sizes[i]` bytes long; samples go as far as both tables go.
pub open spec fn spec_sample_data(s: Seq<u8>, offsets: Seq<usize>, sizes: Seq<usize>, k: int) -> Result<Seq<Seq<u8>>, ErrorView>
    decreases offsets.len() - k,
{
    if k < 0 || k >= offsets.len() || k >= sizes.len() {
        Ok(Seq::empty())
    } else {
        let end = offsets[k] + sizes[k];
        if end > usize::MAX {
            Err(ErrorView::Format("sample offset overflow"@))
        } else if end > s.len() {
            Err(ErrorView::Format("sample points outside the input file"@))
        } else {
            match spec_sample_data(s, offsets, sizes, k + 1) {
                Err(e) => Err(e),
                Ok(rest) => Ok(seq![s.subrange(offsets[k] as int, end)] + rest),
            }
        }
    }
}

/// Whether the handler box whose payload starts at `p` names a video track.
pub open spec fn is_video_handler(s: Seq<u8>, p: int) -> bool {
    p + 12 <= s.len() && be_u32(s, p + 8) == VIDE
}

/// A handler names a video track exactly when its handler type, the four bytes at 8
/// into its payload, reads `vide`.
pub proof fn lemma_video_handler_bytes(s: Seq<u8>, p: int)
    requires
        0 <= p,
    ensures
        is_video_handler(s, p) <==> p + 12 <= s.len() && s[p + 8] == 0x76 && s[p + 9] == 0x69 && s[p + 10] == 0x64
            && s[p + 11] == 0x65,
{
    if p + 12 <= s.len() {
        let (a, b, c, d) = (s[p + 8], s[p + 9], s[p + 10], s[p + 11]);
        assert(a as int * 0x100_0000 + b as int * 0x1_0000 + c as int * 0x100 + d as int == 0x7669_6465 <==> (a
            == 0x76 && b == 0x69 && c == 0x64 && d == 0x65)) by (nonlinear_arith);
    }
}

/// The samples of a `trak` box: `None` when it is not a video track, or the bytes
/// of each of its samples in file order.
pub open spec fn spec_track_samples(s: Seq<u8>, track: BoxInfo) -> Result<Option<Seq<Seq<u8>>>, ErrorView> {
    match spec_boxes(s, track.payload_start as int, track.end as int) {
        Err(e) => Err(e),
        Ok(children) => match spec_find(children, MDIA) {
            None => Ok(None),
            Some(mdia) => match spec_boxes(s, mdia.payload_start as int, mdia.end as int) {
                Err(e) => Err(e),
                Ok(media) => match spec_find(media, HDLR) {
                    None => Ok(None),
                    Some(handler) => if !is_video_handler(s, handler.payload_start as int) {
                        Ok(None)
                    } else {
                        match spec_find(media, MINF) {
                            None => Err(ErrorView::Format("video track has no minf box"@)),
                            Some(minf) => match spec_boxes(s, minf.payload_start as int, minf.end as int) {
                                Err(e) => Err(e),
                                Ok(info) => match spec_find(info, STBL) {
                                    None => Err(ErrorView::Format("video track has no stbl box"@)),
                                    Some(stbl) => spec_table_samples(s, stbl),
                                },
                            },
                        }
                    },
                },
            },
        },
    }
}

/// The samples described by the sample tables inside the `stbl` box `stbl`.
pub open spec fn spec_table_samples(s: Seq<u8>, stbl: BoxInfo) -> Result<Option<Seq<Seq<u8>>>, ErrorView> {
    match spec_boxes(s, stbl.payload_start as int, stbl.end as int) {
        Err(e) => Err(e),
        Ok(tables) => match spec_find(tables, STSZ) {
            None => Err(ErrorView::Format("video track has no stsz sample table"@)),
            Some(stsz) => {
                let offsets_box = match spec_find(tables, STCO) {
                    Some(b) => Some(b),
                    None => spec_find(tables, CO64),
                };
                match offsets_box {
                    None => Err(ErrorView::Format("video track has no chunk offset table"@)),
                    Some(co) => match spec_find(tables, STSC) {
                        None => Err(ErrorView::Format("video track has no stsc sample table"@)),
                        Some(stsc) => match spec_sample_sizes(s, stsz.payload_start as int) {
                            Err(e) => Err(e),
                            Ok(sizes) => match spec_chunk_offsets(s, co) {
                                Err(e) => Err(e),
                                Ok(chunks) => match spec_stsc(s, stsc.payload_start as int) {
                                    Err(e) => Err(e),
                                    Ok(rows) => match spec_sample_offsets(chunks, rows, sizes) {
                                        Err(e) => Err(e),
                                        Ok(offsets) => match spec_sample_data(s, offsets, sizes, 0) {
                                            Err(e) => Err(e),
                                            Ok(data) => Ok(Some(data)),
                                        },
                                    },
                                },
                            },
                        },
                    },
                }
            },
        },
    }
}

/// The samples of the first video track among `boxes[k..]` (boxes that are not
/// `trak` are passed over).
pub open spec fn spec_first_video_track(s: Seq<u8>, boxes: Seq<BoxInfo>, k: int) -> Result<Seq<Seq<u8>>, ErrorView>
    decreases boxes.len() - k,
{
    if k < 0 || k >= boxes.len() {
        Err(ErrorView::Format("video has no supported vide track"@))
    } else if boxes[k].kind != TRAK {
        spec_first_video_track(s, boxes, k + 1)
    } else {
        match spec_track_samples(s, boxes[k]) {
            Err(e) => Err(e),
            Ok(Some(samples)) => Ok(samples),
            Ok(None) => spec_first_video_track(s, boxes, k + 1),
        }
    }
}

/// The bytes of every sample of the first video track of the file `s`, in file order.
pub open spec fn spec_video_samples(s: Seq<u8>) -> Result<Seq<Seq<u8>>, ErrorView> {
    match spec_boxes(s, 0, s.len() as int) {
        Err(e) => Err(e),
        Ok(top) => if spec_find(top, FTYP) is None {
            Err(ErrorView::Format("input is not an ISO-BMFF MP4/MOV file"@))
        } else {
            match spec_find(top, MOOV) {
                None => Err(ErrorView::Format("video has no moov box"@)),
                Some(moov) => match spec_boxes(s, moov.payload_start as int, moov.end as int) {
                    Err(e) => Err(e),
                    Ok(tracks) => spec_first_video_track(s, tracks, 0),
                },
            }
        },
    }
}

proof fn lemma_found_inside(s: Seq<u8>, start: int, end: int, kind: u32)
    requires
        0 <= start,
        spec_boxes(s, start, end) is Ok,
    ensures
        spec_find(spec_boxes(s, start, end)->Ok_0, kind) matches Some(b) ==> start <= b.payload_start <= b.end <= end,
{
    lemma_boxes_inside(s, start, end);
    lemma_find_member(spec_boxes(s, start, end)->Ok_0, kind);
}

fn sample_frames(bytes: &[u8], offsets: &Vec<usize>, sizes: &Vec<usize>) -> (r: Result<FrameList, RtlError>)
    ensures
        result_is(r, spec_sample_data(bytes@, offsets@, sizes@, 0), |v: FrameList, w: Seq<Seq<u8>>| frame_bytes(v@) == w),
{
    let mut frames = FrameList::new();
    let mut k: usize = 0;
    while k < offsets.len() && k < sizes.len()
        invariant
            k <= offsets@.len(),
            frames@.len() == k,
            match spec_sample_data(bytes@, offsets@, sizes@, k as int) {
                Ok(rest) => spec_sample_data(bytes@, offsets@, sizes@, 0) == Ok::<Seq<Seq<u8>>, ErrorView>(frame_bytes(frames@) + rest),
                Err(e) => spec_sample_data(bytes@, offsets@, sizes@, 0) == Err::<Seq<Seq<u8>>, ErrorView>(e),
            },
        decreases offsets@.len() - k,
    {
        let offset = offsets[k];
        let size = sizes[k];
        if size > usize::MAX - offset {
            return Err(format_error("sample offset overflow"));
        }
        let end = offset + size;
        if end > bytes.len() {
            return Err(format_error("sample points outside the input file"));
        }
        let data = vstd::slice::slice_to_vec(&bytes[offset..end]);
        let ghost before = frames@;
        let frame = EncodedFrame { data };
        frames.push(frame);
        proof {
            assert(frame_bytes(frames@) =~= frame_bytes(before).push(frame.data@));
            if let Ok(r) = spec_sample_data(bytes@, offsets@, sizes@, k + 1) {
                assert(frame_bytes(before) + (seq![frame.data@] + r) =~= frame_bytes(frames@) + r);
            }
        }
        k = k + 1;
    }
    proof {
        assert(frame_bytes(frames@) + Seq::<Seq<u8>>::empty() =~= frame_bytes(frames@));
    }
    Ok(frames)
}

fn table_samples(bytes: &[u8], stbl: BoxInfo) -> (r: Result<Option<FrameList>, RtlError>)
    requires
        stbl.end <= bytes@.len(),
        stbl.payload_start <= stbl.end,
    ensures
        result_is(r, spec_table_samples(bytes@, stbl), |v: Option<FrameList>, w: Option<Seq<Seq<u8>>>| match (v, w) {
            (Some(l), Some(d)) => frame_bytes(l@) == d,
            (None, None) => true,
            _ => false,
        }),
{
    let tables = boxes_in(bytes, stbl.payload_start, stbl.end)?;
    proof {
        lemma_found_inside(bytes@, stbl.payload_start as int, stbl.end as int, STSZ);
        lemma_found_inside(bytes@, stbl.payload_start as int, stbl.end as int, STCO);
        lemma_found_inside(bytes@, stbl.payload_start as int, stbl.end as int, CO64);
        lemma_found_inside(bytes@, stbl.payload_start as int, stbl.end as int, STSC);
    }
    let sizes_box = match find_box(&tables, STSZ) {
        Some(b) => b,
        None => return Err(format_error("video track has no stsz sample table")),
    };
    let offsets_box = match find_box(&tables, STCO) {
        Some(b) => b,
        None => match find_box(&tables, CO64) {
            Some(b) => b,
            None => return Err(format_error("video track has no chunk offset table")),
        },
    };
    let stsc_box = match find_box(&tables, STSC) {
        Some(b) => b,
        None => return Err(format_error("video track has no stsc sample table")),
    };
    let sizes = parse_sample_sizes(bytes, sizes_box)?;
    let chunks = parse_chunk_offsets(bytes, offsets_box)?;
    let rows = parse_stsc(bytes, stsc_box)?;
    let offsets = build_sample_offsets(&chunks, &rows, &sizes)?;
    let frames = sample_frames(bytes, &offsets, &sizes)?;
    Ok(Some(frames))
}

fn samples_for_track(bytes: &[u8], track: BoxInfo) -> (r: Result<Option<FrameList>, RtlError>)
    requires
        track.end <= bytes@.len(),
        track.payload_start <= track.end,
    ensures
        result_is(r, spec_track_samples(bytes@, track), |v: Option<FrameList>, w: Option<Seq<Seq<u8>>>| match (v, w) {
            (Some(l), Some(d)) => frame_bytes(l@) == d,
            (None, None) => true,
            _ => false,
        }),
{
    let children = boxes_in(bytes, track.payload_start, track.end)?;
    proof {
        lemma_found_inside(bytes@, track.payload_start as int, track.end as int, MDIA);
    }
    let mdia = match find_box(&children, MDIA) {
        Some(value) => value,
        None => return Ok(None),
    };
    let media = boxes_in(bytes, mdia.payload_start, mdia.end)?;
    proof {
        lemma_found_inside(bytes@, mdia.payload_start as int, mdia.end as int, HDLR);
        lemma_found_inside(bytes@, mdia.payload_start as int, mdia.end as int, MINF);
    }
    let handler = match find_box(&media, HDLR) {
        Some(value) => value,
        None => return Ok(None),
    };
    let hp = handler.payload_start;
    if bytes.len() - hp < 12 || be_u32_at(bytes, hp + 8) != VIDE {
        return Ok(None);
    }
    let minf = match find_box(&media, MINF) {
        Some(value) => value,
        None => return Err(format_error("video track has no minf box")),
    };
    let info = boxes_in(bytes, minf.payload_start, minf.end)?;
    proof {
        lemma_found_inside(bytes@, minf.payload_start as int, minf.end as int, STBL);
    }
    let stbl = match find_box(&info, STBL) {
        Some(value) => value,
        None => return Err(format_error("video track has no stbl box")),
    };
    table_samples(bytes, stbl)
}

/// Reads the samples of the first video track of an MP4/MOV file held in `bytes`.
/// The returned list holds them in file order, so `pop` yields the last sample first.
pub fn extract_video_samples(bytes: &[u8]) -> (r: Result<FrameList, RtlError>)
    ensures
        result_is(r, spec_video_samples(bytes@), |v: FrameList, w: Seq<Seq<u8>>| frame_bytes(v@) == w),
{
    let top_level = boxes_in(bytes, 0, bytes.len())?;
    proof {
        lemma_found_inside(bytes@, 0, bytes@.len() as int, MOOV);
    }
    if find_box(&top_level, FTYP).is_none() {
        return Err(format_error("input is not an ISO-BMFF MP4/MOV file"));
    }
    let moov = match find_box(&top_level, MOOV) {
        Some(value) => value,
        None => return Err(format_error("video has no moov box")),
    };
    let tracks = boxes_in(bytes, moov.payload_start, moov.end)?;
    proof {
        lemma_boxes_inside(bytes@, moov.payload_start as int, moov.end as int);
    }
    let mut k: usize = 0;
    while k < tracks.len()
        invariant
            k <= tracks@.len(),
            forall|i: int| 0 <= i < tracks@.len() ==> moov.payload_start <= #[trigger] tracks@[i].payload_start
                <= tracks@[i].end <= moov.end,
            moov.end <= bytes@.len(),
            spec_video_samples(bytes@) == spec_first_video_track(bytes@, tracks@, k as int),
        decreases tracks@.len() - k,
    {
        let track = tracks[k];
        if track.kind == TRAK {
            if let Some(samples) = samples_for_track(bytes, track)? {
                return Ok(samples);
            }
        }
        k = k + 1;
    }
    Err(format_error("video has no supported vide track"))
}

/// The sample offsets have one entry per sample: a successful walk of chunks
/// `chunk..` that starts at sample `first_sample` places every sample from there on.
pub proof fn lemma_offsets_cover_samples(
    chunks: Seq<u64>,
    rows: Seq<StscEntry>,
    sizes: Seq<usize>,
    chunk: int,
    first_sample: int,
)
    ensures
        spec_offsets_from(chunks, rows, sizes, chunk, first_sample) matches Ok(offsets) ==> offsets.len()
            == sizes.len() - first_sample,
    decreases chunks.len() + 1 - chunk,
{
    if !(chunk > chunks.len() || chunk < 1 || first_sample < 0) {
        if let Some(row) = spec_stsc_lookup(rows, chunk) {
            let last = first_sample + row.samples_per_chunk;
            lemma_offsets_cover_samples(chunks, rows, sizes, chunk + 1, last);
        }
    }
}

/// Every sample offset table that is built has exactly as many entries as the `stsz`
/// table has sizes.
pub proof fn lemma_sample_offsets_count(chunks: Seq<u64>, rows: Seq<StscEntry>, sizes: Seq<usize>)
    ensures
        spec_sample_offsets(chunks, rows, sizes) matches Ok(offsets) ==> offsets.len() == sizes.len(),
{
    lemma_offsets_cover_samples(chunks, rows, sizes, 1, 0);
}

/// Each extracted sample is the stretch of the file that its offset and size name:
/// `sizes[i]` bytes from `offsets[i]`, for every sample that both tables describe.
pub proof fn lemma_sample_data_exact(s: Seq<u8>, offsets: Seq<usize>, sizes: Seq<usize>, k: int)
    requires
        0 <= k,
    ensures
        spec_sample_data(s, offsets, sizes, k) matches Ok(data) ==> {
            &&& k <= offsets.len() && k <= sizes.len() ==> data.len() == (if offsets.len() < sizes.len() {
                offsets.len()
            } else {
                sizes.len()
            }) - k
            &&& forall|i: int| 0 <= i < data.len() ==> #[trigger] data[i] == s.subrange(
                offsets[k + i] as int,
                offsets[k + i] + sizes[k + i],
            ) && data[i].len() == sizes[k + i]
        },
    decreases offsets.len() - k,
{
    if k < offsets.len() && k < sizes.len() {
        lemma_sample_data_exact(s, offsets, sizes, k + 1);
        if let Ok(data) = spec_sample_data(s, offsets, sizes, k) {
            let rest = spec_sample_data(s, offsets, sizes, k + 1)->Ok_0;
            assert forall|i: int| 0 <= i < data.len() implies #[trigger] data[i] == s.subrange(
                offsets[k + i] as int,
                offsets[k + i] + sizes[k + i],
            ) && data[i].len() == sizes[k + i] by {
                if i > 0 {
                    assert(data[i] == rest[i - 1]);
                    assert(k + 1 + (i - 1) == k + i);
                }
            }
        }
    }
}

/// The walk over the boxes of a `moov` gives the samples of the first video track:
/// the `trak` box it returns is preceded only by `trak` boxes that are not video
/// tracks.
pub proof fn lemma_first_video_track(s: Seq<u8>, boxes: Seq<BoxInfo>, k: int)
    requires
        0 <= k,
    ensures
        spec_first_video_track(s, boxes, k) matches Ok(samples) ==> exists|j: int|
            k <= j < boxes.len() && boxes[j].kind == TRAK && spec_track_samples(s, boxes[j])
                == Ok::<Option<Seq<Seq<u8>>>, ErrorView>(Some(samples)) && forall|i: int|
                k <= i < j && #[trigger] boxes[i].kind == TRAK ==> spec_track_samples(s, boxes[i])
                    == Ok::<Option<Seq<Seq<u8>>>, ErrorView>(None),
    decreases boxes.len() - k,
{
    if k < boxes.len() {
        lemma_first_video_track(s, boxes, k + 1);
        if let Ok(samples) = spec_first_video_track(s, boxes, k) {
            if boxes[k].kind == TRAK && spec_track_samples(s, boxes[k]) == Ok::<Option<Seq<Seq<u8>>>, ErrorView>(Some(samples)) {
                assert(k <= k < boxes.len());
            } else {
                let j = choose|j: int|
                    k + 1 <= j < boxes.len() && boxes[j].kind == TRAK && spec_track_samples(s, boxes[j])
                        == Ok::<Option<Seq<Seq<u8>>>, ErrorView>(Some(samples)) && forall|i: int|
                        k + 1 <= i < j && #[trigger] boxes[i].kind == TRAK ==> spec_track_samples(s, boxes[i])
                            == Ok::<Option<Seq<Seq<u8>>>, ErrorView>(None);
                assert(forall|i: int|
                    k <= i < j && #[trigger] boxes[i].kind == TRAK ==> spec_track_samples(s, boxes[i])
                        == Ok::<Option<Seq<Seq<u8>>>, ErrorView>(None));
            }
        }
    }
}

/// `extract_video_samples` returns the samples of the first video track of the first
/// `moov` box: every `trak` before it is not a video track.
pub proof fn lemma_extracts_first_video_track(s: Seq<u8>)
    ensures
        spec_video_samples(s) matches Ok(samples) ==> {
            let moov = spec_find(spec_boxes(s, 0, s.len() as int)->Ok_0, MOOV)->Some_0;
            let tracks = spec_boxes(s, moov.payload_start as int, moov.end as int)->Ok_0;
            exists|j: int|
                0 <= j < tracks.len() && tracks[j].kind == TRAK && spec_track_samples(s, tracks[j])
                    == Ok::<Option<Seq<Seq<u8>>>, ErrorView>(Some(samples)) && forall|i: int|
                    0 <= i < j && #[trigger] tracks[i].kind == TRAK ==> spec_track_samples(s, tracks[i])
                        == Ok::<Option<Seq<Seq<u8>>>, ErrorView>(None)
        },
{
    if let Ok(samples) = spec_video_samples(s) {
        let moov = spec_find(spec_boxes(s, 0, s.len() as int)->Ok_0, MOOV)->Some_0;
        let tracks = spec_boxes(s, moov.payload_start as int, moov.end as int)->Ok_0;
        lemma_first_video_track(s, tracks, 0);
    }
}


/// The sample sizes of an `stsz` box are its entries: the table holds as many sizes as
/// the count at 8 into the payload says; when the fixed size at 4 is not zero every
/// sample has that size, and otherwise size `k` is the big-endian number in the four
/// bytes at `12 + 4k`.
pub proof fn lemma_sample_size_entries(s: Seq<u8>, p: int)
    requires
        0 <= p,
    ensures
        spec_sample_sizes(s, p) matches Ok(sizes) ==> {
            let fixed = s[p + 4] * 0x100_0000 + s[p + 5] * 0x1_0000 + s[p + 6] * 0x100 + s[p + 7];
            &&& sizes.len() == s[p + 8] * 0x100_0000 + s[p + 9] * 0x1_0000 + s[p + 10] * 0x100 + s[p + 11]
            &&& fixed != 0 ==> forall|k: int| 0 <= k < sizes.len() ==> #[trigger] sizes[k] == fixed
            &&& fixed == 0 ==> forall|k: int|
                0 <= k < sizes.len() ==> #[trigger] sizes[k] == s[p + 12 + 4 * k] * 0x100_0000 + s[p + 13 + 4 * k]
                    * 0x1_0000 + s[p + 14 + 4 * k] * 0x100 + s[p + 15 + 4 * k]
        },
{
    if let Ok(sizes) = spec_sample_sizes(s, p) {
        assert(0 <= be_u32(s, p + 4) < 0x1_0000_0000);
        assert forall|k: int| 0 <= k < sizes.len() && be_u32(s, p + 4) == 0 implies #[trigger] sizes[k] == s[p + 12
            + 4 * k] * 0x100_0000 + s[p + 13 + 4 * k] * 0x1_0000 + s[p + 14 + 4 * k] * 0x100 + s[p + 15 + 4 * k] by {
            assert(0 <= be_u32(s, p + 12 + 4 * k) < 0x1_0000_0000);
        }
    }
}

/// The rows of an `stsc` box are its twelve-byte entries from 8 into the payload, as
/// many as the count at 4 says: row `k` starts at chunk number `be32(8 + 12k)` and gives
/// each chunk `be32(12 + 12k)` samples.
pub proof fn lemma_stsc_row_entries(s: Seq<u8>, p: int)
    requires
        0 <= p,
    ensures
        spec_stsc(s, p) matches Ok(rows) ==> {
            &&& rows.len() == s[p + 4] * 0x100_0000 + s[p + 5] * 0x1_0000 + s[p + 6] * 0x100 + s[p + 7]
            &&& forall|k: int|
                0 <= k < rows.len() ==> (#[trigger] rows[k]).first_chunk == s[p + 8 + 12 * k] * 0x100_0000 + s[p + 9
                    + 12 * k] * 0x1_0000 + s[p + 10 + 12 * k] * 0x100 + s[p + 11 + 12 * k] && rows[k].samples_per_chunk
                    == s[p + 12 + 12 * k] * 0x100_0000 + s[p + 13 + 12 * k] * 0x1_0000 + s[p + 14 + 12 * k] * 0x100
                    + s[p + 15 + 12 * k]
        },
{
    if let Ok(rows) = spec_stsc(s, p) {
        assert forall|k: int| 0 <= k < rows.len() implies (#[trigger] rows[k]).first_chunk == s[p + 8 + 12 * k]
            * 0x100_0000 + s[p + 9 + 12 * k] * 0x1_0000 + s[p + 10 + 12 * k] * 0x100 + s[p + 11 + 12 * k]
            && rows[k].samples_per_chunk == s[p + 12 + 12 * k] * 0x100_0000 + s[p + 13 + 12 * k] * 0x1_0000 + s[p
            + 14 + 12 * k] * 0x100 + s[p + 15 + 12 * k] by {
            assert(0 <= be_u32(s, p + 8 + 12 * k) < 0x1_0000_0000);
            assert(0 <= be_u32(s, p + 12 + 12 * k) < 0x1_0000_0000);
        }
    }
}

/// The row of the `stsc` table that applies to a chunk is the last row whose first
/// chunk is at or before it; there is one exactly when some row starts at or before
/// the chunk.
pub proof fn lemma_stsc_lookup_last_row(rows: Seq<StscEntry>, chunk: int)
    ensures
        spec_stsc_lookup(rows, chunk) is Some <==> exists|i: int| 0 <= i < rows.len() && #[trigger] rows[i].first_chunk <= chunk,
        spec_stsc_lookup(rows, chunk) matches Some(row) ==> exists|i: int|
            0 <= i < rows.len() && rows[i] == row && row.first_chunk <= chunk && forall|j: int|
                i < j < rows.len() ==> #[trigger] rows[j].first_chunk > chunk,
    decreases rows.len(),
{
    if rows.len() > 0 {
        let init = rows.drop_last();
        lemma_stsc_lookup_last_row(init, chunk);
        let n = rows.len() - 1;
        if rows.last().first_chunk <= chunk {
            assert(rows[n].first_chunk <= chunk);
        } else {
            assert forall|i: int| 0 <= i < init.len() implies init[i] == rows[i] by {}
            if exists|i: int| 0 <= i < rows.len() && #[trigger] rows[i].first_chunk <= chunk {
                let i = choose|i: int| 0 <= i < rows.len() && #[trigger] rows[i].first_chunk <= chunk;
                assert(i < n);
                assert(init[i].first_chunk <= chunk);
            }
            if let Some(row) = spec_stsc_lookup(init, chunk) {
                let i = choose|i: int|
                    0 <= i < init.len() && init[i] == row && row.first_chunk <= chunk && forall|j: int|
                        i < j < init.len() ==> #[trigger] init[j].first_chunk > chunk;
                assert(rows[i] == row);
                assert forall|j: int| i < j < rows.len() implies #[trigger] rows[j].first_chunk > chunk by {
                    if j < n {
                        assert(init[j] == rows[j]);
                    }
                }
            }
        }
    }
}

/// The samples of one chunk lie back to back from the chunk's offset: the first at
/// the chunk offset, and each next one where the one before it ends.
pub proof fn lemma_chunk_samples_back_to_back(start: int, sizes: Seq<usize>)
    requires
        0 <= start,
    ensures
        spec_chunk_samples(start, sizes) matches Some(offsets) ==> {
            &&& offsets.len() == sizes.len()
            &&& offsets.len() > 0 ==> offsets[0] == start
            &&& forall|k: int| 0 <= k < offsets.len() - 1 ==> #[trigger] offsets[k + 1] == offsets[k] + sizes[k]
        },
{
    if let Some(offsets) = spec_chunk_samples(start, sizes) {
        assert(sizes.take(0) =~= Seq::<usize>::empty());
        assert forall|k: int| 0 <= k < offsets.len() - 1 implies #[trigger] offsets[k + 1] == offsets[k] + sizes[k] by {
            let next = sizes.take(k + 1);
            assert(next.drop_last() =~= sizes.take(k));
            assert(next.last() == sizes[k]);
            assert(seq_sum(next) == seq_sum(sizes.take(k)) + sizes[k]);
            lemma_prefix_sum_le(sizes, k + 1);
            lemma_prefix_sum_le(sizes, k);
            assert(offsets[k + 1] == start + seq_sum(next));
            assert(offsets[k] == start + seq_sum(sizes.take(k)));
        }
        if offsets.len() > 0 {
            lemma_sum_nonnegative(sizes);
        }
    }
}


proof fn lemma_uniform_chunks_from(chunks: Seq<u64>, n: u32, sizes: Seq<usize>, chunk: int, first: int)
    requires
        chunk >= 1,
        first >= 0,
    ensures
        spec_offsets_from(chunks, seq![StscEntry { first_chunk: 1, samples_per_chunk: n }], sizes, chunk, first)
            matches Ok(offsets) ==> forall|d: int, j: int|
            0 <= d && 0 <= j < n && d * n + j < offsets.len() ==> #[trigger] offsets[d * n + j] == chunks[chunk
                - 1 + d] + seq_sum(sizes.subrange(first + d * n, first + d * n + j)),
    decreases chunks.len() + 1 - chunk,
{
    let rows = seq![StscEntry { first_chunk: 1, samples_per_chunk: n }];
    if let Ok(offsets) = spec_offsets_from(chunks, rows, sizes, chunk, first) {
        if chunk <= chunks.len() {
            assert(rows.drop_last() =~= Seq::<StscEntry>::empty());
            assert(spec_stsc_lookup(rows, chunk) == Some(rows[0]));
            let last = first + n;
            let start = chunks[chunk - 1] as int;
            let run = sizes.subrange(first, last);
            let here = spec_chunk_samples(start, run)->Some_0;
            lemma_uniform_chunks_from(chunks, n, sizes, chunk + 1, last);
            let rest = spec_offsets_from(chunks, rows, sizes, chunk + 1, last)->Ok_0;
            assert(offsets == here + rest);
            assert forall|d: int, j: int|
                0 <= d && 0 <= j < n && d * n + j < offsets.len() implies #[trigger] offsets[d * n + j]
                    == chunks[chunk - 1 + d] + seq_sum(sizes.subrange(first + d * n, first + d * n + j)) by {
                if d == 0 {
                    assert(run.take(j) =~= sizes.subrange(first, first + j));
                    lemma_prefix_sum_le(run, j);
                    assert(offsets[j] == here[j]);
                } else {
                    let e = d - 1;
                    assert(d * n == e * n + n) by (nonlinear_arith)
                        requires
                            e == d - 1,
                    ;
                    assert(0 <= e * n) by (nonlinear_arith)
                        requires
                            e >= 0,
                            n >= 0,
                    ;
                    assert(offsets[d * n + j] == rest[e * n + j]);
                    assert(last + e * n == first + d * n);
                    assert(chunk + 1 - 1 + e == chunk - 1 + d);
                }
            }
        }
    }
}

/// With a single `stsc` row that gives every chunk `n` samples, the samples go to the
/// chunks `n` at a time and in order: sample `d * n + j` (for `j < n`) lies in chunk
/// `d`, `j` samples into it, so at that chunk's offset plus the sizes of the `j`
/// samples before it in the chunk.
pub proof fn lemma_uniform_chunks(chunks: Seq<u64>, n: u32, sizes: Seq<usize>)
    ensures
        spec_sample_offsets(chunks, seq![StscEntry { first_chunk: 1, samples_per_chunk: n }], sizes) matches Ok(
            offsets,
        ) ==> forall|d: int, j: int|
            0 <= d && 0 <= j < n && d * n + j < offsets.len() ==> #[trigger] offsets[d * n + j] == chunks[d]
                + seq_sum(sizes.subrange(d * n, d * n + j)),
{
    lemma_uniform_chunks_from(chunks, n, sizes, 1, 0);
}

} // verus!
