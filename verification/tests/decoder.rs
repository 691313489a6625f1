use rtl::decoder::yuv420_to_rgb;

#[test]
fn converts_neutral_yuv_to_rgb() {
    let frame = yuv420_to_rgb(2, 2, &[100, 100, 100, 100], &[128], &[128]).unwrap();
    assert_eq!(frame.pixels, vec![100, 100, 100, 100, 100, 100, 100, 100, 100, 100, 100, 100]);
}

use rtl::decoded::RgbFrame;
use rtl::decoder::{classify_raw_frame, decode_mp4, RawFrameRead};
use rtl::error::RtlError;

fn message(error: RtlError) -> String {
    match error {
        RtlError::Format(message) | RtlError::Unsupported(message) | RtlError::Usage(message) => message,
        RtlError::Io(_) => panic!("unexpected I/O error"),
    }
}

#[test]
fn converts_a_coloured_pixel() {
    let frame: RgbFrame = yuv420_to_rgb(1, 1, &[100], &[200], &[50]).unwrap();
    assert_eq!(frame.pixels, vec![0, 132, 227]);
    assert_eq!((frame.width, frame.height), (1, 1));
}

#[test]
fn shares_chroma_across_two_by_two_blocks() {
    let frame = yuv420_to_rgb(3, 1, &[10, 20, 30], &[128, 128], &[128, 255]).unwrap();
    assert_eq!(frame.pixels.len(), 9);
    assert_eq!(&frame.pixels[0..6], &[10, 10, 10, 20, 20, 20]);
    assert_eq!(frame.pixels[6], 208);
}

#[test]
fn refuses_planes_of_the_wrong_size() {
    let error = yuv420_to_rgb(2, 2, &[0, 0, 0], &[128], &[128]).err().unwrap();
    assert_eq!(message(error), "YUV 4:2:0 planes have invalid sizes");
}

fn boxed(kind: &[u8; 4], payload: &[u8]) -> Vec<u8> {
    let mut out = ((payload.len() + 8) as u32).to_be_bytes().to_vec();
    out.extend_from_slice(kind);
    out.extend_from_slice(payload);
    out
}

fn full_box(kind: &[u8; 4], fields: &[u32]) -> Vec<u8> {
    let mut payload = vec![0, 0, 0, 0];
    for field in fields {
        payload.extend_from_slice(&field.to_be_bytes());
    }
    boxed(kind, &payload)
}

fn avcc(profile: u8) -> Vec<u8> {
    let sps = [0x67, profile, 0xc0, 0x1e, 0xf4, 0x0e, 0x83, 0x4c, 0x80];
    let mut config = vec![1, profile, 0xc0, 0x1e, 0xff, 0xe1, 0, sps.len() as u8];
    config.extend_from_slice(&sps);
    config.extend_from_slice(&[1, 0, 4, 0x68, 0xce, 0x38, 0x80]);
    boxed(b"avcC", &config)
}

fn video_file(profile: u8, samples: &[&[u8]]) -> Vec<u8> {
    let build = |offset: u32| {
        let mut sizes = vec![0, samples.len() as u32];
        for sample in samples {
            sizes.push(sample.len() as u32);
        }
        let stbl = [
            avcc(profile),
            full_box(b"stsz", &sizes),
            full_box(b"stco", &[1, offset]),
            full_box(b"stsc", &[1, 1, samples.len() as u32, 1]),
        ]
        .concat();
        let mut hdlr = vec![0; 8];
        hdlr.extend_from_slice(b"vide");
        hdlr.extend_from_slice(&[0; 13]);
        let mdia = [boxed(b"hdlr", &hdlr), boxed(b"minf", &boxed(b"stbl", &stbl))].concat();
        boxed(b"moov", &boxed(b"trak", &boxed(b"mdia", &mdia)))
    };
    let ftyp = boxed(b"ftyp", b"isom\0\0\0\0");
    let offset = (ftyp.len() + build(0).len() + 8) as u32;
    [ftyp, build(offset), boxed(b"mdat", &samples.concat())].concat()
}

#[test]
fn decoding_refuses_coded_slices() {
    let sample: &[u8] = &[0, 0, 0, 2, 0x09, 0xf0, 0, 0, 0, 3, 0x65, 0x88, 0x80];
    let error = decode_mp4(&video_file(0x42, &[sample])).err().unwrap();
    assert!(matches!(error, RtlError::Unsupported(_)));
    assert_eq!(
        message(error),
        "H.264 coded-slice reconstruction (CAVLC, prediction, and reference pictures) is not implemented"
    );
}

#[test]
fn decoding_names_unhandled_nal_kinds() {
    let sample: &[u8] = &[0, 0, 0, 1, 0x0a, 0, 0, 0, 2, 0x1e, 0x00];
    let error = decode_mp4(&video_file(0x42, &[sample])).err().unwrap();
    assert_eq!(message(error), "H.264 NAL type EndOfSequence is unsupported");
    let sample: &[u8] = &[0, 0, 0, 2, 0x1e, 0x00];
    let error = decode_mp4(&video_file(0x42, &[sample])).err().unwrap();
    assert_eq!(message(error), "H.264 NAL type Other(30) is unsupported");
}

#[test]
fn decoding_refuses_access_units_without_slices() {
    let sample: &[u8] = &[0, 0, 0, 2, 0x09, 0xf0];
    let error = decode_mp4(&video_file(0x42, &[sample])).err().unwrap();
    assert_eq!(message(error), "H.264 access unit contains no decodable slice");
}

#[test]
fn decoding_starts_from_the_last_sample() {
    let first: &[u8] = &[0, 0, 0, 2, 0x1e, 0x00];
    let last: &[u8] = &[0, 0, 0, 2, 0x09, 0xf0];
    let error = decode_mp4(&video_file(0x42, &[first, last])).err().unwrap();
    assert_eq!(message(error), "H.264 access unit contains no decodable slice");
}

#[test]
fn decoding_refuses_other_profiles() {
    let sample: &[u8] = &[0, 0, 0, 2, 0x09, 0xf0];
    let error = decode_mp4(&video_file(0x4d, &[sample])).err().unwrap();
    assert_eq!(message(error), "H.264 profile 0x4d is unsupported; only Baseline profile 0x42 is implemented");
}

#[test]
fn decoding_an_empty_track_yields_no_frame() {
    let (info, frames) = decode_mp4(&video_file(0x42, &[])).unwrap();
    assert_eq!(frames.len(), 0);
    assert_eq!((info.dimensions.width, info.dimensions.height), (464, 832));
}

#[test]
fn neutral_chroma_gives_grey_pictures() {
    let y = [0, 17, 34, 51, 68, 85, 102, 119, 255];
    let frame = yuv420_to_rgb(3, 3, &y, &[128; 4], &[128; 4]).unwrap();
    for (k, byte) in frame.pixels.iter().enumerate() {
        assert_eq!(*byte, y[k / 3]);
    }
}

#[test]
fn classifies_raw_frame_reads() {
    assert_eq!(classify_raw_frame(0, 12), RawFrameRead::EndOfStream);
    assert_eq!(classify_raw_frame(5, 12), RawFrameRead::Truncated);
    assert_eq!(classify_raw_frame(12, 12), RawFrameRead::Complete);
}
