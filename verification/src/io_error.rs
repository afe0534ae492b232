//! Failures of reading and writing byte sequences.
use vstd::prelude::*;

verus! {

/// What kind of failure it is.
#[derive(Clone, Copy, Debug, PartialEq, Eq, Structural)]
pub enum IoErrorKind {
    /// The bytes end before all that is asked for has been read.
    UnexpectedEof,
    /// The bytes are not of the expected form.
    InvalidData,
    /// What is to be written does not fit the form.
    InvalidInput,
    /// Any other failure.
    Other,
}

/// A failure with its kind and a text for the user.
#[derive(Clone, Debug)]
pub struct IoError {
    pub kind: IoErrorKind,
    pub message: String,
}

/// The text of an early end.
pub open spec fn eof_text() -> Seq<char> {
    "failed to fill whole buffer"@
}

impl IoError {
    /// What kind of failure it is.
    pub fn kind(&self) -> (k: IoErrorKind)
        ensures
            k == self.kind,
    {
        self.kind
    }

    /// The failure of reading past the end.
    pub fn unexpected_eof() -> (e: IoError)
        ensures
            e.kind == IoErrorKind::UnexpectedEof,
            e.message@ == eof_text(),
    {
        IoError { kind: IoErrorKind::UnexpectedEof, message: "failed to fill whole buffer".to_owned() }
    }
}

/// A failure as the standard library tells it.
#[verifier::external_type_specification]
#[verifier::external_body]
pub struct ExStdIoError(std::io::Error);

/// What kind of failure it is.
///
/// This is `std::io::Error::kind`. Nothing is stated of which kind it gives.
#[verifier::external_body]
fn kind_of(e: &std::io::Error) -> (k: IoErrorKind)
{
    match e.kind() {
        std::io::ErrorKind::UnexpectedEof => IoErrorKind::UnexpectedEof,
        std::io::ErrorKind::InvalidData => IoErrorKind::InvalidData,
        std::io::ErrorKind::InvalidInput => IoErrorKind::InvalidInput,
        _ => IoErrorKind::Other,
    }
}

/// A failure in words.
///
/// This is `to_string` of `std::io::Error`. Nothing is stated of the words.
#[verifier::external_body]
fn words_of(e: &std::io::Error) -> (s: String)
{
    e.to_string()
}

/// Whether a failure is the one that the standard library tells of: its kind is one that
/// is given for it, and its text is one that it is told in.
pub closed spec fn tells(r: IoError, e: std::io::Error) -> bool {
    call_ensures(kind_of, (&e,), r.kind) && call_ensures(words_of, (&e,), r.message)
}

/// The failure that the standard library tells of.
pub(crate) fn from_std(e: std::io::Error) -> (r: IoError)
    ensures
        tells(r, e),
{
    IoError { kind: kind_of(&e), message: words_of(&e) }
}

} // verus!
