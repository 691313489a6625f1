use rtl::bits::BitReader;

#[test]
fn reads_bits_most_significant_first() {
    let bytes = [0b1010_0000, 0xff];
    let mut bits = BitReader::new(&bytes);
    assert_eq!(bits.read_bits(3).unwrap(), 0b101);
    assert_eq!(bits.position, 3);
    assert_eq!(bits.read_bits(9).unwrap(), 0b0_0000_1111);
    assert_eq!(bits.position, 12);
}

#[test]
fn a_too_wide_read_leaves_the_position() {
    let bytes = [0u8; 8];
    let mut bits = BitReader::new(&bytes);
    assert!(bits.read_bits(33).is_err());
    assert_eq!(bits.position, 0);
}

#[test]
fn a_truncated_read_stops_at_the_end() {
    let bytes = [0xffu8];
    let mut bits = BitReader::new(&bytes);
    bits.skip_bits(3).unwrap();
    assert!(bits.read_bits(16).is_err());
    assert_eq!(bits.position, 8);
}

#[test]
fn reads_exp_golomb_codes() {
    let bytes = [0b1010_0110, 0b0111_0000];
    let mut bits = BitReader::new(&bytes);
    assert_eq!(bits.read_ue().unwrap(), 0);
    assert_eq!(bits.read_ue().unwrap(), 1);
    assert_eq!(bits.read_ue().unwrap(), 2);
    assert_eq!(bits.read_se().unwrap(), -3);
}

#[test]
fn an_overlong_exp_golomb_prefix_is_refused() {
    let bytes = [0u8; 5];
    let mut bits = BitReader::new(&bytes);
    assert!(bits.read_ue().is_err());
    assert_eq!(bits.position, 32);
}
