//! The error taxonomy shared by file resolution and package management.

use vstd::prelude::*;

verus! {

/// Everything that can go wrong while resolving a file or managing packages.
///
/// - `NotFound`: a missing file or package.
/// - `AccessDenied`: a path escapes its root, or a namespace does not support
///   fetching.
/// - `Encoding`: the bytes are not valid UTF-8.
/// - `Fetch`: the network request for an archive failed.
/// - `Extraction`: decompression or archive parsing failed.
/// - `Parse`: a package coordinate was malformed.
/// - `Other`: anything else.
#[derive(Clone, Copy, Debug, PartialEq, Eq, Structural)]
pub enum FileError {
    NotFound,
    AccessDenied,
    Encoding,
    Fetch,
    Extraction,
    Parse,
    Other,
}

impl FileError {
    /// A short human-readable description of the error.
    pub fn describe(&self) -> (r: &'static str)
        ensures
            r@ == self.spec_describe(),
    {
        match self {
            FileError::NotFound => "file or package not found",
            FileError::AccessDenied => "access denied",
            FileError::Encoding => "invalid utf-8",
            FileError::Fetch => "network fetch failed",
            FileError::Extraction => "archive extraction failed",
            FileError::Parse => "malformed package coordinate",
            FileError::Other => "unknown error",
        }
    }

    /// The description promised by [`FileError::describe`].
    pub open spec fn spec_describe(self) -> Seq<char> {
        match self {
            FileError::NotFound => "file or package not found"@,
            FileError::AccessDenied => "access denied"@,
            FileError::Encoding => "invalid utf-8"@,
            FileError::Fetch => "network fetch failed"@,
            FileError::Extraction => "archive extraction failed"@,
            FileError::Parse => "malformed package coordinate"@,
            FileError::Other => "unknown error"@,
        }
    }
}

} // verus!
