use vstd::prelude::*;

verus! {

/// std's I/O error, carried opaquely by `KvsError::Io`.
#[verifier::external_type_specification]
#[verifier::external_body]
pub struct ExIoError(std::io::Error);

/// serde_json's error, carried opaquely by `KvsError::Serde`.
#[verifier::external_type_specification]
#[verifier::external_body]
pub struct ExJsonError(serde_json::Error);

/// The errors that the store reports.
#[derive(Debug)]
pub enum KvsError {
    /// A file-system or stream operation failed.
    Io(std::io::Error),
    /// A key or value could not be encoded.
    Serde(serde_json::Error),
    /// A record read from a segment does not decode.
    Codec,
    /// `remove` was asked for a key that the store does not hold.
    KeyNotFound,
    /// The record at an indexed position is not a `Set` record:
    /// the log is damaged, or the index is wrong.
    UnexpectedCommandType,
}

impl From<std::io::Error> for KvsError {
    fn from(err: std::io::Error) -> (r: KvsError)
        ensures
            r == KvsError::Io(err),
    {
        KvsError::Io(err)
    }
}

impl vstd::std_specs::convert::FromSpecImpl<std::io::Error> for KvsError {
    open spec fn obeys_from_spec() -> bool {
        false
    }

    open spec fn from_spec(err: std::io::Error) -> KvsError {
        KvsError::Io(err)
    }
}

impl From<serde_json::Error> for KvsError {
    fn from(err: serde_json::Error) -> (r: KvsError)
        ensures
            r == KvsError::Serde(err),
    {
        KvsError::Serde(err)
    }
}

impl vstd::std_specs::convert::FromSpecImpl<serde_json::Error> for KvsError {
    open spec fn obeys_from_spec() -> bool {
        false
    }

    open spec fn from_spec(err: serde_json::Error) -> KvsError {
        KvsError::Serde(err)
    }
}

/// Result type of the store's fallible operations.
pub type Result<T> = core::result::Result<T, KvsError>;

} // verus!
