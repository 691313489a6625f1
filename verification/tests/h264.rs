use rtl::h264::{split_annex_b, NalKind};

#[test]
fn splits_annex_b_nals() {
    let stream = [0, 0, 0, 1, 0x09, 0xf0, 0, 0, 1, 0x67, 0x42];
    let units = split_annex_b(&stream).unwrap();
    assert_eq!(units.len(), 2);
    assert_eq!(units[0].kind, NalKind::AccessUnitDelimiter);
    assert_eq!(units[1].kind, NalKind::SequenceParameterSet);
}

use rtl::error::RtlError;
use rtl::h264::{dimensions_from_sps, parameter_sets_from_avcc, probe_mp4_avcc, split_avcc_sample, NalUnit, VideoDimensions};

const SPS_464X832: [u8; 9] = [0x67, 0x42, 0xc0, 0x1e, 0xf4, 0x0e, 0x83, 0x4c, 0x80];
const SPS_CROPPED: [u8; 10] = [0x67, 0x42, 0xc0, 0x1e, 0xf4, 0x0e, 0x83, 0x4f, 0x2c, 0xa8];
const PPS: [u8; 4] = [0x68, 0xce, 0x38, 0x80];

fn avcc_file(sps: &[u8], pps: &[u8]) -> Vec<u8> {
    let mut bytes = b"junk".to_vec();
    bytes.extend_from_slice(b"avcC");
    bytes.extend_from_slice(&[1, 0x42, 0xc0, 0x1e, 0xff, 0xe1]);
    bytes.extend_from_slice(&(sps.len() as u16).to_be_bytes());
    bytes.extend_from_slice(sps);
    bytes.push(1);
    bytes.extend_from_slice(&(pps.len() as u16).to_be_bytes());
    bytes.extend_from_slice(pps);
    bytes
}

fn message(error: RtlError) -> String {
    match error {
        RtlError::Format(message) | RtlError::Unsupported(message) | RtlError::Usage(message) => message,
        RtlError::Io(_) => panic!("unexpected I/O error"),
    }
}

#[test]
fn reads_sps_dimensions() {
    let nal = NalUnit { kind: NalKind::SequenceParameterSet, reference_idc: 3, payload: SPS_464X832.to_vec() };
    assert_eq!(dimensions_from_sps(&nal).unwrap(), VideoDimensions { width: 464, height: 832 });
}

#[test]
fn applies_sps_cropping() {
    let nal = NalUnit { kind: NalKind::SequenceParameterSet, reference_idc: 3, payload: SPS_CROPPED.to_vec() };
    assert_eq!(dimensions_from_sps(&nal).unwrap(), VideoDimensions { width: 460, height: 824 });
}

#[test]
fn refuses_dimensions_of_a_non_sps() {
    let nal = NalUnit { kind: NalKind::PictureParameterSet, reference_idc: 3, payload: PPS.to_vec() };
    assert_eq!(message(dimensions_from_sps(&nal).err().unwrap()), "H.264 dimensions require an SPS NAL");
}

#[test]
fn refuses_a_truncated_sps() {
    let nal = NalUnit { kind: NalKind::SequenceParameterSet, reference_idc: 3, payload: SPS_464X832[..5].to_vec() };
    assert_eq!(message(dimensions_from_sps(&nal).err().unwrap()), "truncated H.264 SPS");
}

#[test]
fn probes_an_avcc_record() {
    let info = probe_mp4_avcc(&avcc_file(&SPS_464X832, &PPS)).unwrap();
    assert_eq!(info.dimensions, VideoDimensions { width: 464, height: 832 });
    assert_eq!(info.length_size, 4);
}

#[test]
fn refuses_a_file_without_avcc() {
    assert_eq!(message(probe_mp4_avcc(b"no config here").err().unwrap()), "MP4 has no H.264 avcC configuration");
}

#[test]
fn reads_parameter_sets() {
    let (sps, pps) = parameter_sets_from_avcc(&avcc_file(&SPS_464X832, &PPS)).unwrap();
    assert_eq!(sps.kind, NalKind::SequenceParameterSet);
    assert_eq!(sps.payload, SPS_464X832.to_vec());
    assert_eq!(pps.kind, NalKind::PictureParameterSet);
    assert_eq!(pps.reference_idc, 3);
    assert_eq!(pps.payload, PPS.to_vec());
}

#[test]
fn refuses_swapped_parameter_sets() {
    let bytes = avcc_file(&PPS, &SPS_464X832);
    assert_eq!(message(parameter_sets_from_avcc(&bytes).err().unwrap()), "H.264 avcC parameter-set types are invalid");
}

#[test]
fn splits_avcc_samples() {
    let sample = [0, 0, 0, 2, 0x09, 0xf0, 0, 0, 0, 0, 0, 0, 0, 3, 0x65, 0x88, 0x80];
    let units = split_avcc_sample(&sample, 4).unwrap();
    assert_eq!(units.len(), 2);
    assert_eq!(units[0].kind, NalKind::AccessUnitDelimiter);
    assert_eq!(units[1].kind, NalKind::IdrSlice);
    assert_eq!(units[1].reference_idc, 3);
    assert_eq!(units[1].payload, vec![0x65, 0x88, 0x80]);
}

#[test]
fn refuses_a_bad_length_size() {
    assert_eq!(message(split_avcc_sample(&[1, 2], 5).err().unwrap()), "H.264 AVCC length size must be 1 to 4");
}

#[test]
fn refuses_a_nal_past_the_sample() {
    assert_eq!(message(split_avcc_sample(&[0, 9, 0x65], 2).err().unwrap()), "H.264 NAL extends past sample");
}

#[test]
fn refuses_a_forbidden_bit() {
    assert_eq!(message(split_annex_b(&[0, 0, 1, 0x80, 1]).err().unwrap()), "invalid H.264 NAL header");
}

#[test]
fn annex_b_keeps_other_kinds() {
    let units = split_annex_b(&[7, 0, 0, 1, 0x1c, 5, 0, 0, 0, 1, 0x0b]).unwrap();
    assert_eq!(units.len(), 2);
    assert_eq!(units[0].kind, NalKind::Other(28));
    assert_eq!(units[0].payload, vec![0x1c, 5]);
    assert_eq!(units[1].kind, NalKind::EndOfStream);
}

#[test]
fn reads_sps_dimensions_through_emulation_prevention() {
    let payload = vec![0x67, 0x42, 0x00, 0x00, 0x03, 0xf4, 0x0e, 0x83, 0x4c, 0x80];
    let nal = NalUnit { kind: NalKind::SequenceParameterSet, reference_idc: 3, payload };
    assert_eq!(dimensions_from_sps(&nal).unwrap(), VideoDimensions { width: 464, height: 832 });
}

#[test]
fn annex_b_returns_a_framed_unit() {
    let units = split_annex_b(&[0, 0, 1, 0x41, 0x9a, 0x02]).unwrap();
    assert_eq!(units.len(), 1);
    assert_eq!(units[0].kind, NalKind::CodedSlice);
    assert_eq!(units[0].reference_idc, 2);
    assert_eq!(units[0].payload, vec![0x41, 0x9a, 0x02]);
}

#[test]
fn avcc_returns_a_length_prefixed_unit() {
    let units = split_avcc_sample(&[3, 0x41, 0x9a, 0x02], 1).unwrap();
    assert_eq!(units.len(), 1);
    assert_eq!(units[0].payload, vec![0x41, 0x9a, 0x02]);
}

#[test]
fn avcc_skips_empty_units() {
    let units = split_avcc_sample(&[0, 0, 0, 1, 0x09], 2).unwrap();
    assert_eq!(units.len(), 1);
    assert_eq!(units[0].kind, NalKind::AccessUnitDelimiter);
}

#[test]
fn annex_b_without_start_code_is_empty() {
    assert_eq!(split_annex_b(&[1, 2, 3, 4]).unwrap().len(), 0);
}

#[test]
fn refuses_a_width_that_overflows() {
    let payload = vec![0x67, 0x42, 0xc0, 0x1e, 0xf4, 0, 0, 3, 0, 8, 0, 0, 3, 0, 3, 0x4c, 0x80];
    let nal = NalUnit { kind: NalKind::SequenceParameterSet, reference_idc: 3, payload };
    assert_eq!(message(dimensions_from_sps(&nal).err().unwrap()), "H.264 SPS dimensions overflow");
}

#[test]
fn refuses_an_interlaced_height_that_overflows() {
    let payload = vec![0x67, 0x42, 0xc0, 0x1e, 0xf4, 0x0e, 0x80, 0, 0, 8, 0, 0, 3, 0, 0x24];
    let nal = NalUnit { kind: NalKind::SequenceParameterSet, reference_idc: 3, payload };
    assert_eq!(message(dimensions_from_sps(&nal).err().unwrap()), "H.264 SPS dimensions overflow");
}

#[test]
fn doubles_the_height_of_interlaced_video() {
    let payload = vec![0x67, 0x42, 0xc0, 0x1e, 0xf4, 0x0e, 0x80, 0, 0, 0x1f, 0xff, 0xff, 0xfc, 0x90];
    let nal = NalUnit { kind: NalKind::SequenceParameterSet, reference_idc: 3, payload };
    assert_eq!(dimensions_from_sps(&nal).unwrap(), VideoDimensions { width: 464, height: 4_294_967_264 });
}

#[test]
fn refuses_an_empty_sps() {
    let nal = NalUnit { kind: NalKind::SequenceParameterSet, reference_idc: 0, payload: Vec::new() };
    assert_eq!(message(dimensions_from_sps(&nal).err().unwrap()), "empty H.264 NAL");
}

#[test]
fn refuses_a_truncated_length_prefix() {
    assert_eq!(message(split_avcc_sample(&[0, 0], 4).err().unwrap()), "truncated H.264 NAL length");
    assert_eq!(message(split_avcc_sample(&[0, 0, 0, 1, 0x09, 0, 0], 4).err().unwrap()), "truncated H.264 NAL length");
}

#[test]
fn annex_b_returns_every_unit_in_order() {
    let stream = [0, 0, 1, 0x67, 0x42, 0, 0, 0, 1, 0x68, 0xce, 0, 0, 1, 0x65, 0x88];
    let units = split_annex_b(&stream).unwrap();
    assert_eq!(units.len(), 3);
    assert_eq!(units[0].payload, vec![0x67, 0x42]);
    assert_eq!(units[1].payload, vec![0x68, 0xce]);
    assert_eq!(units[2].payload, vec![0x65, 0x88]);
    assert_eq!(units[2].reference_idc, 3);
}

#[test]
fn avcc_returns_every_unit_in_order() {
    let sample = [0, 2, 0x09, 0xf0, 0, 0, 0, 3, 0x65, 0x88, 0x80, 0, 0];
    let units = split_avcc_sample(&sample, 2).unwrap();
    assert_eq!(units.len(), 2);
    assert_eq!(units[0].payload, vec![0x09, 0xf0]);
    assert_eq!(units[1].payload, vec![0x65, 0x88, 0x80]);
}
