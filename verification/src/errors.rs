use vstd::prelude::*;

verus! {

/// The I/O error type of std, carried through unchanged when a file
/// operation around the store fails.
#[verifier::external_type_specification]
#[verifier::external_body]
pub struct ExIoError(std::io::Error);

/// Why opening a pile from its stored bytes failed.
#[derive(Debug)]
pub enum LoadError {
    /// An underlying file operation failed.
    IoError(std::io::Error),
    /// A record boundary does not carry the magic marker.
    MagicMarkerError,
    /// A header field failed a structural check.
    HeaderError,
    /// A declared payload (plus padding) runs past the end of the bytes.
    UnexpectedEndOfFile,
    /// The byte length is not a multiple of 64.
    FileLengthError,
    /// The stored bytes exceed the configured maximum size.
    PileTooLarge,
}

/// Why an insertion failed.
#[derive(Debug)]
pub enum InsertError {
    /// An underlying file operation failed.
    IoError(std::io::Error),
    /// A lock was left inconsistent by a panicking holder.
    PoisonError,
    /// The framed record would push the pile past its maximum size.
    PileTooLarge,
}

impl From<std::io::Error> for LoadError {
    fn from(err: std::io::Error) -> (r: LoadError) {
        LoadError::IoError(err)
    }
}

impl vstd::std_specs::convert::FromSpecImpl<std::io::Error> for LoadError {
    open spec fn obeys_from_spec() -> bool {
        true
    }

    open spec fn from_spec(err: std::io::Error) -> LoadError {
        LoadError::IoError(err)
    }
}

impl From<std::io::Error> for InsertError {
    fn from(err: std::io::Error) -> (r: InsertError) {
        InsertError::IoError(err)
    }
}

impl vstd::std_specs::convert::FromSpecImpl<std::io::Error> for InsertError {
    open spec fn obeys_from_spec() -> bool {
        true
    }

    open spec fn from_spec(err: std::io::Error) -> InsertError {
        InsertError::IoError(err)
    }
}

/// Why a lookup failed.
#[derive(Debug)]
pub enum GetError {
    /// A lock was left inconsistent by a panicking holder.
    PoisonError,
    /// The entry's payload does not hash to its digest; the offending
    /// bytes are surfaced for inspection.
    ValidationError(Vec<u8>),
}

/// Why a durability flush failed.
#[derive(Debug)]
pub enum FlushError {
    /// An underlying file operation failed.
    IoError(std::io::Error),
    /// A lock was left inconsistent by a panicking holder.
    PoisonError,
}

impl From<std::io::Error> for FlushError {
    fn from(err: std::io::Error) -> (r: FlushError) {
        FlushError::IoError(err)
    }
}

impl vstd::std_specs::convert::FromSpecImpl<std::io::Error> for FlushError {
    open spec fn obeys_from_spec() -> bool {
        true
    }

    open spec fn from_spec(err: std::io::Error) -> FlushError {
        FlushError::IoError(err)
    }
}

} // verus!
