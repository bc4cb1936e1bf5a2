//! The errors of the store.
use vstd::prelude::*;

verus! {

/// Relies on `std::io::Error` only as an opaque value carried from the file system to the caller.
#[verifier::external_type_specification]
#[verifier::external_body]
pub struct ExIoError(std::io::Error);

/// What can go wrong.
#[derive(Debug)]
pub enum BitcaskError {
    /// A file system operation failed.
    Io(std::io::Error),
    /// A data or hint file, or a segment id, is not what the format allows.
    InvalidFileFormat,
    /// The key is not in the key directory.
    KeyNotFound,
    /// The data directory cannot be created or read.
    DirNotFound,
    /// The key is empty, or a record would not fit in a segment.
    InvalidArgument,
}

impl From<std::io::Error> for BitcaskError {
    fn from(error: std::io::Error) -> (r: BitcaskError)
        ensures
            r == BitcaskError::Io(error),
    {
        BitcaskError::Io(error)
    }
}

impl vstd::std_specs::convert::FromSpecImpl<std::io::Error> for BitcaskError {
    open spec fn obeys_from_spec() -> bool {
        true
    }

    open spec fn from_spec(v: std::io::Error) -> BitcaskError {
        BitcaskError::Io(v)
    }
}

} // verus!
