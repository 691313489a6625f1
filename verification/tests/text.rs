use rtl::error::RtlError;
use rtl::text::{push_decimal, push_decimal_padded, push_hex2};

#[test]
fn writes_decimal_numbers() {
    let mut text = String::from("n=");
    push_decimal(&mut text, 0);
    text.push(',');
    push_decimal(&mut text, 1907);
    text.push(',');
    push_decimal(&mut text, u64::MAX);
    assert_eq!(text, "n=0,1907,18446744073709551615");
}

#[test]
fn pads_decimal_numbers() {
    let mut text = String::new();
    push_decimal_padded(&mut text, 7, 3);
    text.push(' ');
    push_decimal_padded(&mut text, 12345, 3);
    assert_eq!(text, "007 12345");
}

#[test]
fn writes_hex_bytes() {
    let mut text = String::new();
    push_hex2(&mut text, 0x0a);
    push_hex2(&mut text, 0xff);
    assert_eq!(text, "0aff");
}

#[test]
fn wraps_io_errors() {
    let error: RtlError = std::io::Error::new(std::io::ErrorKind::NotFound, "missing").into();
    assert!(matches!(error, RtlError::Io(_)));
}
