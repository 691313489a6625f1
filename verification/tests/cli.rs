use rtl::cli::{parse_input, usage};
use rtl::error::RtlError;

#[test]
fn reads_the_input_path() {
    let arguments = vec!["--gc".to_string(), "localfile.mp4".to_string()];
    assert_eq!(parse_input(&arguments).unwrap(), "localfile.mp4");
}

#[test]
fn refuses_other_command_lines() {
    for arguments in [
        vec![],
        vec!["--gc".to_string()],
        vec!["--xx".to_string(), "a.mp4".to_string()],
        vec!["--gc".to_string(), "a.mp4".to_string(), "extra".to_string()],
    ] {
        match parse_input(&arguments).err().unwrap() {
            RtlError::Usage(message) => assert_eq!(message, usage()),
            _ => panic!("expected a usage error"),
        }
    }
    assert_eq!(usage(), "usage: RTL --gc <localfile.mp4|localfile.mov>");
}
