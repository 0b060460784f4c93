//! The errors of the library.

use vstd::prelude::*;

verus! {

/// What went wrong at the edge, where bytes are read and written.
#[derive(Debug, Clone, PartialEq, Eq)]
pub enum IoFailure {
    /// The input ended before the bytes that were asked for.
    UnexpectedEof,
    /// The operating system refused the access.
    PermissionDenied(String),
    /// The bytes that were handed over are no valid archive.
    InvalidData(String),
    /// Any other failure, with its text.
    Other(String),
}

/// Why an archive could not be read or written.
#[derive(Debug, Clone, PartialEq, Eq)]
pub enum CoZipError {
    /// The bytes are no valid archive.
    InvalidZip(&'static str),
    /// The archive uses a feature that is not supported.
    Unsupported(&'static str),
    /// An entry name that may not stand in an archive.
    InvalidEntryName(&'static str),
    /// The DEFLATE engine failed.
    Deflate(String),
    /// The PDeflate engine failed.
    PDeflate(String),
    /// Reading or writing failed.
    Io(IoFailure),
    /// A name is not valid UTF-8.
    NonUtf8Name,
    /// A size does not fit the field that holds it.
    DataTooLarge,
    /// A background task did not run to its end.
    Join(String),
}

/// The error type under its older name.
pub type CozipZipError = CoZipError;

impl IoFailure {
    /// The text of the failure.
    pub open spec fn text(self) -> Seq<char> {
        match self {
            IoFailure::UnexpectedEof => "failed to fill whole buffer"@,
            IoFailure::PermissionDenied(text) => text@,
            IoFailure::InvalidData(text) => text@,
            IoFailure::Other(text) => text@,
        }
    }

    /// Returns the text of the failure.
    pub fn message(&self) -> (out: String)
        ensures
            out@ == self.text(),
    {
        match self {
            IoFailure::UnexpectedEof => "failed to fill whole buffer".to_string(),
            IoFailure::PermissionDenied(text) => text.clone(),
            IoFailure::InvalidData(text) => text.clone(),
            IoFailure::Other(text) => text.clone(),
        }
    }
}

impl CoZipError {
    /// The text that is shown for the error.
    pub open spec fn text(self) -> Seq<char> {
        match self {
            CoZipError::InvalidZip(text) => "invalid zip: "@ + text@,
            CoZipError::Unsupported(text) => "unsupported zip: "@ + text@,
            CoZipError::InvalidEntryName(text) => "invalid entry name: "@ + text@,
            CoZipError::Deflate(text) => "deflate error: "@ + text@,
            CoZipError::PDeflate(text) => "pdeflate error: "@ + text@,
            CoZipError::Io(failure) => "I/O error: "@ + failure.text(),
            CoZipError::NonUtf8Name => "path contains non-utf8 bytes"@,
            CoZipError::DataTooLarge => "data too large for zip32"@,
            CoZipError::Join(text) => "async task join error: "@ + text@,
        }
    }

    /// Returns the text that is shown for the error.
    pub fn message(&self) -> (out: String)
        ensures
            out@ == self.text(),
    {
        match self {
            CoZipError::InvalidZip(text) => "invalid zip: ".to_string().concat(text),
            CoZipError::Unsupported(text) => "unsupported zip: ".to_string().concat(text),
            CoZipError::InvalidEntryName(text) => "invalid entry name: ".to_string().concat(text),
            CoZipError::Deflate(text) => "deflate error: ".to_string().concat(text.as_str()),
            CoZipError::PDeflate(text) => "pdeflate error: ".to_string().concat(text.as_str()),
            CoZipError::Io(failure) => {
                let text = failure.message();
                "I/O error: ".to_string().concat(text.as_str())
            },
            CoZipError::NonUtf8Name => "path contains non-utf8 bytes".to_string(),
            CoZipError::DataTooLarge => "data too large for zip32".to_string(),
            CoZipError::Join(text) => "async task join error: ".to_string().concat(text.as_str()),
        }
    }
}

/// The text that is shown for an error tells its kind first and ends with what is known
/// of it.
pub proof fn law_errors_tell_their_kind(error: &CoZipError, shown: String)
    requires
        call_ensures(CoZipError::message, (error,), shown),
    ensures
        match *error {
            CoZipError::InvalidZip(text) => "invalid zip: "@.is_prefix_of(shown@)
                && text@.is_suffix_of(shown@),
            CoZipError::Unsupported(text) => "unsupported zip: "@.is_prefix_of(shown@)
                && text@.is_suffix_of(shown@),
            CoZipError::InvalidEntryName(text) => "invalid entry name: "@.is_prefix_of(shown@)
                && text@.is_suffix_of(shown@),
            CoZipError::Deflate(text) => "deflate error: "@.is_prefix_of(shown@)
                && text@.is_suffix_of(shown@),
            CoZipError::PDeflate(text) => "pdeflate error: "@.is_prefix_of(shown@)
                && text@.is_suffix_of(shown@),
            CoZipError::Io(failure) => "I/O error: "@.is_prefix_of(shown@)
                && failure.text().is_suffix_of(shown@),
            CoZipError::NonUtf8Name => shown@ == "path contains non-utf8 bytes"@,
            CoZipError::DataTooLarge => shown@ == "data too large for zip32"@,
            CoZipError::Join(text) => "async task join error: "@.is_prefix_of(shown@)
                && text@.is_suffix_of(shown@),
        },
{
    match *error {
        CoZipError::InvalidZip(text) => lemma_two_parts("invalid zip: "@, text@),
        CoZipError::Unsupported(text) => lemma_two_parts("unsupported zip: "@, text@),
        CoZipError::InvalidEntryName(text) => lemma_two_parts("invalid entry name: "@, text@),
        CoZipError::Deflate(text) => lemma_two_parts("deflate error: "@, text@),
        CoZipError::PDeflate(text) => lemma_two_parts("pdeflate error: "@, text@),
        CoZipError::Io(failure) => lemma_two_parts("I/O error: "@, failure.text()),
        CoZipError::NonUtf8Name => {},
        CoZipError::DataTooLarge => {},
        CoZipError::Join(text) => lemma_two_parts("async task join error: "@, text@),
    }
}

/// A failure that has a text shows it.
pub proof fn law_failures_show_their_text(failure: &IoFailure, shown: String)
    requires
        call_ensures(IoFailure::message, (failure,), shown),
    ensures
        match *failure {
            IoFailure::UnexpectedEof => shown@ == "failed to fill whole buffer"@,
            IoFailure::PermissionDenied(text) => shown@ == text@,
            IoFailure::InvalidData(text) => shown@ == text@,
            IoFailure::Other(text) => shown@ == text@,
        },
{
}

proof fn lemma_two_parts(a: Seq<char>, b: Seq<char>)
    ensures
        a.is_prefix_of(a + b),
        b.is_suffix_of(a + b),
{
    let both = a + b;
    assert(both.subrange(0, a.len() as int) =~= a);
    assert(both.subrange(both.len() - b.len(), both.len() as int) =~= b);
}

} // verus!
