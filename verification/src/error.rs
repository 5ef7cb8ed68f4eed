//! The error kinds of the archive pipelines.

use vstd::prelude::*;

verus! {

/// What can go wrong while an archive is written or read.
#[derive(Clone, Copy, Debug, PartialEq, Eq, Structural)]
pub enum ArchiveError {
    /// A read, write or metadata query failed outside the library.
    IoError,
    /// A header or an entry is inconsistent: a declared length exceeds what
    /// is left of the stream, the fields contradict each other, a name
    /// holds a NUL or does not fit, or a payload does not decode.
    MalformedArchive,
    /// The compression tag of an entry is not one this format defines.
    UnsupportedCompressionTag,
    /// The name of an entry is not UTF-8.
    InvalidNameEncoding,
    /// The destination of an entry is already there; the entry is skipped.
    DestinationExists,
    /// Packing was asked for without any path.
    NoInputPaths,
}

impl ArchiveError {
    /// Whether the error ends the whole run. Only an existing destination
    /// does not: that entry is skipped and the run goes on.
    pub open spec fn spec_is_fatal(self) -> bool {
        self != ArchiveError::DestinationExists
    }

    /// What to tell the user.
    pub open spec fn spec_message(self) -> Seq<char> {
        match self {
            ArchiveError::IoError => "a file or a stream could not be read or written"@,
            ArchiveError::MalformedArchive => "the archive is malformed"@,
            ArchiveError::UnsupportedCompressionTag => "an entry is compressed in a way that is not supported"@,
            ArchiveError::InvalidNameEncoding => "the name of an entry is not UTF-8"@,
            ArchiveError::DestinationExists => "the destination exists and is not overwritten"@,
            ArchiveError::NoInputPaths => "expected one or more files or directories to archive"@,
        }
    }

    /// The text that says what went wrong.
    pub fn message(self) -> (text: &'static str)
        ensures
            text@ == self.spec_message(),
    {
        match self {
            ArchiveError::IoError => "a file or a stream could not be read or written",
            ArchiveError::MalformedArchive => "the archive is malformed",
            ArchiveError::UnsupportedCompressionTag => "an entry is compressed in a way that is not supported",
            ArchiveError::InvalidNameEncoding => "the name of an entry is not UTF-8",
            ArchiveError::DestinationExists => "the destination exists and is not overwritten",
            ArchiveError::NoInputPaths => "expected one or more files or directories to archive",
        }
    }

    #[verifier::when_used_as_spec(spec_is_fatal)]
    pub fn is_fatal(self) -> (fatal: bool)
        ensures
            fatal == self.spec_is_fatal(),
    {
        match self {
            ArchiveError::DestinationExists => false,
            _ => true,
        }
    }
}

} // verus!
