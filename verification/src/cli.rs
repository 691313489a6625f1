//! The command line of the extractor: `RTL --gc <video>`.

use vstd::prelude::*;
use crate::error::{result_is, ErrorView, RtlError};

verus! {

/// The usage text shown when the command line is not understood.
pub open spec fn usage_text() -> Seq<char> {
    "usage: RTL --gc <localfile.mp4|localfile.mov>"@
}

/// The usage text shown when the command line is not understood.
pub fn usage() -> (text: &'static str)
    ensures
        text@ == usage_text(),
{
    "usage: RTL --gc <localfile.mp4|localfile.mov>"
}

/// The input path named by the arguments that follow the program name: exactly
/// `--gc` and the path.
pub open spec fn spec_parse_input(arguments: Seq<Seq<char>>) -> Result<Seq<char>, ErrorView> {
    if arguments.len() == 2 && arguments[0] == "--gc"@ {
        Ok(arguments[1])
    } else {
        Err(ErrorView::Usage(usage_text()))
    }
}

/// The text of each argument.
pub open spec fn argument_texts(arguments: Seq<String>) -> Seq<Seq<char>> {
    arguments.map_values(|a: String| a@)
}

/// Reads the input path from the arguments that follow the program name.
pub fn parse_input(arguments: &Vec<String>) -> (r: Result<String, RtlError>)
    ensures
        result_is(r, spec_parse_input(argument_texts(arguments@)), |v: String, w: Seq<char>| v@ == w),
{
    let command = "--gc".to_owned();
    if arguments.len() != 2 || arguments[0] != command {
        return Err(RtlError::Usage(usage().to_owned()));
    }
    Ok(arguments[1].clone())
}

} // verus!
