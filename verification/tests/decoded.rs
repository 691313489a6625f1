use rtl::decoded::RgbFrame;

#[test]
fn validates_rgb_buffer_size() {
    assert!(RgbFrame::new(2, 2, vec![0; 12]).is_ok());
    assert!(RgbFrame::new(2, 2, vec![0; 11]).is_err());
}

use rtl::decoded::{frame_file_name, manifest_entry, ppm_header, DecodedFrameList, ImageFrameList, ImageFrameRecord};
use rtl::error::RtlError;
use rtl::frames::{EncodedFrame, FrameList};

#[test]
fn names_the_buffer_size_mismatch() {
    match RgbFrame::new(2, 2, vec![0; 11]).err().unwrap() {
        RtlError::Format(message) => assert_eq!(message, "decoded RGB frame has 11 bytes, expected 12"),
        _ => panic!("expected a format error"),
    }
}

#[test]
fn refuses_dimensions_that_overflow() {
    if usize::MAX as u64 == u64::MAX {
        return;
    }
    assert!(RgbFrame::new(u32::MAX, u32::MAX, Vec::new()).is_err());
}

#[test]
fn keeps_a_valid_frame() {
    let frame = RgbFrame::new(1, 2, vec![1, 2, 3, 4, 5, 6]).unwrap();
    assert_eq!((frame.width, frame.height), (1, 2));
    assert_eq!(frame.pixels, vec![1, 2, 3, 4, 5, 6]);
}

#[test]
fn decoded_list_pops_last_pushed_first() {
    let mut list = DecodedFrameList::new();
    assert_eq!(list.len(), 0);
    list.push(RgbFrame::new(1, 1, vec![1, 1, 1]).unwrap());
    list.push(RgbFrame::new(1, 1, vec![2, 2, 2]).unwrap());
    assert_eq!(list.len(), 2);
    assert_eq!(list.pop().unwrap().pixels, vec![2, 2, 2]);
    assert_eq!(list.len(), 1);
    assert_eq!(list.pop().unwrap().pixels, vec![1, 1, 1]);
    assert!(list.pop().is_none());
    assert_eq!(list.len(), 0);
}

#[test]
fn image_list_pops_last_pushed_first() {
    let mut list = ImageFrameList::new();
    for index in 0..3 {
        list.push(ImageFrameRecord { index, path: format!("frame_{index}.png"), width: 4, height: 2 });
    }
    assert_eq!(list.len(), 3);
    let record = list.pop().unwrap();
    assert_eq!(record.index, 2);
    assert_eq!(record.path, "frame_2.png");
    assert_eq!(list.len(), 2);
}

#[test]
fn encoded_list_undoes_a_push_with_a_pop() {
    let mut list = FrameList::new();
    list.push(EncodedFrame { data: vec![9] });
    list.push(EncodedFrame { data: vec![7, 7] });
    assert_eq!(list.pop().unwrap().data, vec![7, 7]);
    assert_eq!(list.len(), 1);
    assert_eq!(list.pop().unwrap().data, vec![9]);
    assert!(list.pop().is_none());
}

#[test]
fn writes_ppm_headers() {
    assert_eq!(ppm_header(464, 832), "P6\n464 832\n255\n");
    assert_eq!(ppm_header(0, 7), "P6\n0 7\n255\n");
}

#[test]
fn names_frame_files() {
    assert_eq!(frame_file_name(0, "ppm"), "frame_000000.ppm");
    assert_eq!(frame_file_name(42, "bin"), "frame_000042.bin");
    assert_eq!(frame_file_name(1234567, "ppm"), "frame_1234567.ppm");
}

#[test]
fn writes_manifest_entries() {
    assert_eq!(manifest_entry(3, "frame_000003.ppm", 464, 832), "3 frame_000003.ppm 464x832");
}

#[test]
fn names_output_directories_and_manifests() {
    assert_eq!(rtl::decoded::ai_frames_directory_name("test"), "test_ai_frames");
    assert_eq!(rtl::decoded::encoded_frames_directory_name("clip"), "clip_frames");
    assert_eq!(
        rtl::decoded::ppm_manifest_header("a.mp4"),
        "source=a.mp4\nformat=RGB PPM (P6), 8-bit, 3 channels\nframes=streamed\n"
    );
    assert_eq!(
        rtl::decoded::png_manifest_header("a.mp4", 464, 832, 12),
        "source=a.mp4\nformat=PNG, decoded RGB video frames\ndimensions=464x832\nframes=12\n"
    );
    assert_eq!(
        rtl::decoded::encoded_manifest_header("a.mp4", 3),
        "source=a.mp4\nformat=encoded ISO-BMFF video samples\nframes=3\n"
    );
}
