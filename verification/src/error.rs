//! The errors of the extractor and what contracts see of them.

use vstd::prelude::*;

verus! {

/// The standard library's I/O error, declared so that `RtlError::Io` can carry it;
/// nothing is assumed of its contents.
#[verifier::external_type_specification]
#[verifier::external_body]
pub struct ExIoError(std::io::Error);

/// Errors of the extractor.
#[derive(Debug)]
pub enum RtlError {
    /// The command line was not understood; the message is the usage text.
    Usage(String),
    /// An operating-system I/O operation failed.
    Io(std::io::Error),
    /// The input is not a well-formed container or bitstream.
    Format(String),
    /// The input is well formed but uses a feature that is not implemented.
    Unsupported(String),
}

/// What a contract sees of an error: its kind and its message.
pub enum ErrorView {
    Usage(Seq<char>),
    Io,
    Format(Seq<char>),
    Unsupported(Seq<char>),
}

impl View for RtlError {
    type V = ErrorView;

    open spec fn view(&self) -> ErrorView {
        match self {
            RtlError::Usage(m) => ErrorView::Usage(m@),
            RtlError::Io(_) => ErrorView::Io,
            RtlError::Format(m) => ErrorView::Format(m@),
            RtlError::Unsupported(m) => ErrorView::Unsupported(m@),
        }
    }
}

/// A format error carrying `message`.
pub fn format_error(message: &str) -> (e: RtlError)
    ensures
        e@ == ErrorView::Format(message@),
{
    RtlError::Format(message.to_owned())
}

/// An unsupported-feature error carrying `message`.
pub fn unsupported_error(message: &str) -> (e: RtlError)
    ensures
        e@ == ErrorView::Unsupported(message@),
{
    RtlError::Unsupported(message.to_owned())
}

impl From<std::io::Error> for RtlError {
    fn from(error: std::io::Error) -> (e: RtlError) {
        RtlError::Io(error)
    }
}

impl vstd::std_specs::convert::FromSpecImpl<std::io::Error> for RtlError {
    open spec fn obeys_from_spec() -> bool {
        true
    }

    open spec fn from_spec(error: std::io::Error) -> RtlError {
        RtlError::Io(error)
    }
}

/// Whether `r` is the exact counterpart of the specification result `s`:
/// the same value (compared by `same`) or the same error.
pub open spec fn result_is<T, U>(r: Result<T, RtlError>, s: Result<U, ErrorView>, same: spec_fn(T, U) -> bool) -> bool {
    match (r, s) {
        (Ok(v), Ok(w)) => same(v, w),
        (Err(e), Err(f)) => e@ == f,
        _ => false,
    }
}

} // verus!
