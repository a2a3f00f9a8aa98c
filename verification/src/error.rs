//! The ways an operation of the store can fail.

use vstd::prelude::*;

verus! {

/// Why an operation failed.
#[derive(Debug, Clone, Copy, PartialEq, Eq, Structural)]
pub enum Error {
    /// An object name that is not 4 to 40 hexadecimal characters.
    InvalidObjectName,
    /// No stored object has the given name or abbreviation.
    NotFound,
    /// More than one stored object matches the given abbreviation.
    Ambiguous,
    /// A stored object whose framing, mode or tree entry breaks the format.
    MalformedObject,
    /// A directory entry that is neither a file, a directory nor a symlink.
    UnsupportedFileType,
    /// The configuration holds no `user.name`.
    MissingAuthorName,
    /// The configuration holds no `user.email`.
    MissingAuthorEmail,
    /// A compressed stream that is truncated or corrupt.
    CorruptStream,
    /// `cat-file` was asked for without its `-p` flag.
    MissingFlag,
    /// `ls-tree` was given an object that is not a tree.
    NotATree,
    /// `write-tree` found nothing to record.
    EmptyDirectory,
}

/// The description of each failure.
pub open spec fn description(e: Error) -> Seq<char> {
    match e {
        Error::InvalidObjectName => "Not a valid object name"@,
        Error::NotFound => "Not found"@,
        Error::Ambiguous => "Ambiguous object name"@,
        Error::MalformedObject => "Malformed object"@,
        Error::UnsupportedFileType => "Unknown file type"@,
        Error::MissingAuthorName => "No author name found in config"@,
        Error::MissingAuthorEmail => "No author email found in config"@,
        Error::CorruptStream => "Corrupt compressed stream"@,
        Error::MissingFlag => "Missing flag: -p"@,
        Error::NotATree => "not a tree object"@,
        Error::EmptyDirectory => "Empty dir"@,
    }
}

impl Error {
    /// A short description of the failure.
    pub fn message(&self) -> (text: &'static str)
        ensures
            text@ == description(*self),
    {
        match self {
            Error::InvalidObjectName => "Not a valid object name",
            Error::NotFound => "Not found",
            Error::Ambiguous => "Ambiguous object name",
            Error::MalformedObject => "Malformed object",
            Error::UnsupportedFileType => "Unknown file type",
            Error::MissingAuthorName => "No author name found in config",
            Error::MissingAuthorEmail => "No author email found in config",
            Error::CorruptStream => "Corrupt compressed stream",
            Error::MissingFlag => "Missing flag: -p",
            Error::NotATree => "not a tree object",
            Error::EmptyDirectory => "Empty dir",
        }
    }
}

/// What a command hands back, as a mathematical value: the bytes it prints,
/// or why it failed.
pub open spec fn outcome(res: Result<Vec<u8>, Error>) -> Result<Seq<u8>, Error> {
    match res {
        Ok(out) => Ok(out@),
        Err(e) => Err(e),
    }
}

} // verus!
