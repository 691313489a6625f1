use rtl::bmff::extract_video_samples;
use rtl::error::RtlError;

fn boxed(kind: &[u8; 4], payload: &[u8]) -> Vec<u8> {
    let mut out = ((payload.len() + 8) as u32).to_be_bytes().to_vec();
    out.extend_from_slice(kind);
    out.extend_from_slice(payload);
    out
}

fn full_box(kind: &[u8; 4], fields: &[u32]) -> Vec<u8> {
    let mut payload = vec![0, 0, 0, 0];
    for field in fields {
        payload.extend_from_slice(&field.to_be_bytes());
    }
    boxed(kind, &payload)
}

fn handler(kind: &[u8; 4]) -> Vec<u8> {
    let mut payload = vec![0; 8];
    payload.extend_from_slice(kind);
    payload.extend_from_slice(&[0; 13]);
    boxed(b"hdlr", &payload)
}

fn movie(handler_kind: &[u8; 4], samples: &[&[u8]], chunk_offset: u32) -> Vec<u8> {
    let mut sizes = vec![0, samples.len() as u32];
    for sample in samples {
        sizes.push(sample.len() as u32);
    }
    let stbl = [
        full_box(b"stsz", &sizes),
        full_box(b"stco", &[1, chunk_offset]),
        full_box(b"stsc", &[1, 1, samples.len() as u32, 1]),
    ]
    .concat();
    let minf = boxed(b"stbl", &stbl);
    let mdia = [handler(handler_kind), boxed(b"minf", &minf)].concat();
    let trak = boxed(b"mdia", &mdia);
    boxed(b"moov", &boxed(b"trak", &trak))
}

fn file(handler_kind: &[u8; 4], samples: &[&[u8]]) -> Vec<u8> {
    let ftyp = boxed(b"ftyp", b"isom\0\0\0\0");
    let moov_len = movie(handler_kind, samples, 0).len();
    let offset = (ftyp.len() + moov_len + 8) as u32;
    let data: Vec<u8> = samples.concat();
    [ftyp, movie(handler_kind, samples, offset), boxed(b"mdat", &data)].concat()
}

fn format_message(error: RtlError) -> String {
    match error {
        RtlError::Format(message) => message,
        _ => panic!("expected a format error"),
    }
}

#[test]
fn extracts_samples_in_file_order() {
    let bytes = file(b"vide", &[&[1, 2, 3], &[4, 5], &[6]]);
    let mut frames = extract_video_samples(&bytes).unwrap();
    assert_eq!(frames.len(), 3);
    assert_eq!(frames.pop().unwrap().data, vec![6]);
    assert_eq!(frames.pop().unwrap().data, vec![4, 5]);
    assert_eq!(frames.pop().unwrap().data, vec![1, 2, 3]);
    assert!(frames.pop().is_none());
}

#[test]
fn refuses_a_file_without_ftyp() {
    let bytes = boxed(b"moov", &[]);
    let message = format_message(extract_video_samples(&bytes).err().unwrap());
    assert_eq!(message, "input is not an ISO-BMFF MP4/MOV file");
}

#[test]
fn refuses_a_file_without_moov() {
    let bytes = boxed(b"ftyp", b"isom\0\0\0\0");
    let message = format_message(extract_video_samples(&bytes).err().unwrap());
    assert_eq!(message, "video has no moov box");
}

#[test]
fn refuses_a_truncated_box_header() {
    let mut bytes = boxed(b"ftyp", b"isom\0\0\0\0");
    bytes.extend_from_slice(&[0, 0, 0]);
    let message = format_message(extract_video_samples(&bytes).err().unwrap());
    assert_eq!(message, "truncated box header");
}

#[test]
fn refuses_a_box_that_outgrows_its_parent() {
    let mut bytes = boxed(b"ftyp", b"isom\0\0\0\0");
    bytes.extend_from_slice(&[0, 0, 0, 40, b'm', b'o', b'o', b'v']);
    let message = format_message(extract_video_samples(&bytes).err().unwrap());
    assert_eq!(message, "box extends outside its parent");
}

#[test]
fn refuses_a_movie_without_video_track() {
    let bytes = file(b"soun", &[&[1, 2]]);
    let message = format_message(extract_video_samples(&bytes).err().unwrap());
    assert_eq!(message, "video has no supported vide track");
}

#[test]
fn refuses_samples_outside_the_file() {
    let ftyp = boxed(b"ftyp", b"isom\0\0\0\0");
    let bytes = [ftyp, movie(b"vide", &[&[1, 2, 3]], 1000)].concat();
    let message = format_message(extract_video_samples(&bytes).err().unwrap());
    assert_eq!(message, "sample points outside the input file");
}

fn table_file(stsz: Vec<u8>, chunks: Vec<u8>, stsc: Vec<u8>, data: &[u8]) -> Vec<u8> {
    let ftyp = boxed(b"ftyp", b"isom\0\0\0\0");
    let stbl = [stsz, chunks, stsc].concat();
    let mdia = [handler(b"vide"), boxed(b"minf", &boxed(b"stbl", &stbl))].concat();
    let moov = boxed(b"moov", &boxed(b"trak", &boxed(b"mdia", &mdia)));
    [ftyp, moov, boxed(b"mdat", data)].concat()
}

#[test]
fn follows_stsc_rows_across_chunks() {
    let data: Vec<u8> = (0..20).collect();
    let stsz = full_box(b"stsz", &[0, 5, 1, 2, 1, 3, 1]);
    let mut co64 = vec![0, 0, 0, 0, 0, 0, 0, 3];
    for offset in [100u64, 110, 120] {
        co64.extend_from_slice(&offset.to_be_bytes());
    }
    let co64 = boxed(b"co64", &co64);
    let stsc = full_box(b"stsc", &[2, 1, 2, 1, 3, 1, 1]);
    let probe = table_file(stsz.clone(), co64.clone(), stsc.clone(), &data);
    let base = (probe.len() - data.len()) as u64;
    let mut co64 = vec![0, 0, 0, 0, 0, 0, 0, 3];
    for offset in [base, base + 10, base + 15] {
        co64.extend_from_slice(&offset.to_be_bytes());
    }
    let bytes = table_file(stsz, boxed(b"co64", &co64), stsc, &data);
    let mut frames = extract_video_samples(&bytes).unwrap();
    assert_eq!(frames.len(), 5);
    assert_eq!(frames.pop().unwrap().data, vec![15]);
    assert_eq!(frames.pop().unwrap().data, vec![11, 12, 13]);
    assert_eq!(frames.pop().unwrap().data, vec![10]);
    assert_eq!(frames.pop().unwrap().data, vec![1, 2]);
    assert_eq!(frames.pop().unwrap().data, vec![0]);
}

#[test]
fn refuses_an_stsc_that_misses_samples() {
    let stsz = full_box(b"stsz", &[0, 3, 1, 1, 1]);
    let stco = full_box(b"stco", &[1, 0]);
    let stsc = full_box(b"stsc", &[1, 1, 2, 1]);
    let bytes = table_file(stsz, stco, stsc, &[0, 0, 0]);
    let message = format_message(extract_video_samples(&bytes).err().unwrap());
    assert_eq!(message, "stsc table does not describe every sample");
}

#[test]
fn refuses_an_stsc_beyond_the_samples() {
    let stsz = full_box(b"stsz", &[0, 1, 1]);
    let stco = full_box(b"stco", &[1, 0]);
    let stsc = full_box(b"stsc", &[1, 1, 2, 1]);
    let bytes = table_file(stsz, stco, stsc, &[0]);
    let message = format_message(extract_video_samples(&bytes).err().unwrap());
    assert_eq!(message, "stsc table references more samples than stsz");
}

#[test]
fn refuses_chunks_before_the_first_stsc_row() {
    let stsz = full_box(b"stsz", &[0, 1, 1]);
    let stco = full_box(b"stco", &[1, 0]);
    let stsc = full_box(b"stsc", &[1, 2, 1, 1]);
    let bytes = table_file(stsz, stco, stsc, &[0]);
    let message = format_message(extract_video_samples(&bytes).err().unwrap());
    assert_eq!(message, "stsc table does not cover all chunks");
}

#[test]
fn uses_a_fixed_sample_size() {
    let stsz = full_box(b"stsz", &[4, 2]);
    let stsc = full_box(b"stsc", &[1, 1, 2, 1]);
    let data = [1, 2, 3, 4, 5, 6, 7, 8];
    let probe = table_file(stsz.clone(), full_box(b"stco", &[1, 0]), stsc.clone(), &data);
    let base = (probe.len() - data.len()) as u32;
    let bytes = table_file(stsz, full_box(b"stco", &[1, base]), stsc, &data);
    let mut frames = extract_video_samples(&bytes).unwrap();
    assert_eq!(frames.pop().unwrap().data, vec![5, 6, 7, 8]);
    assert_eq!(frames.pop().unwrap().data, vec![1, 2, 3, 4]);
}

#[test]
fn refuses_a_truncated_size_table() {
    let stsz = full_box(b"stsz", &[0, 0x1000_0000, 1]);
    let stsc = full_box(b"stsc", &[1, 1, 1, 1]);
    let bytes = table_file(stsz, full_box(b"stco", &[1, 0]), stsc, &[]);
    let message = format_message(extract_video_samples(&bytes).err().unwrap());
    assert_eq!(message, "truncated integer");
}

#[test]
fn reads_a_large_size_box() {
    let mut bytes = vec![0, 0, 0, 1, b'f', b't', b'y', b'p', 0, 0, 0, 0, 0, 0, 0, 20, 1, 2, 3, 4];
    bytes.extend_from_slice(&boxed(b"free", &[]));
    let message = format_message(extract_video_samples(&bytes).err().unwrap());
    assert_eq!(message, "video has no moov box");
}

#[test]
fn returns_the_first_video_track() {
    let ftyp = boxed(b"ftyp", b"isom\0\0\0\0");
    let build = |offset: u32| {
        let track = |kind: &[u8; 4], size: u32| {
            let stbl = [
                full_box(b"stsz", &[0, 1, size]),
                full_box(b"stco", &[1, offset]),
                full_box(b"stsc", &[1, 1, 1, 1]),
            ]
            .concat();
            let mdia = [handler(kind), boxed(b"minf", &boxed(b"stbl", &stbl))].concat();
            boxed(b"trak", &boxed(b"mdia", &mdia))
        };
        let moov = [track(b"soun", 1), track(b"vide", 2), track(b"vide", 3)].concat();
        boxed(b"moov", &moov)
    };
    let offset = (ftyp.len() + build(0).len() + 8) as u32;
    let bytes = [ftyp, build(offset), boxed(b"mdat", &[5, 6, 7])].concat();
    let mut frames = extract_video_samples(&bytes).unwrap();
    assert_eq!(frames.len(), 1);
    assert_eq!(frames.pop().unwrap().data, vec![5, 6]);
}
