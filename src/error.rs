//! The library's error type.
use vstd::prelude::*;

verus! {

/// Errors of keyrings, packs, sources and placement.
#[derive(Clone, Debug, PartialEq, Eq)]
pub enum Error {
    /// Malformed or semantically invalid configuration.
    Config { description: String },
    /// Signature verification or authenticated decryption failed.
    Crypto { description: String },
    /// Malformed, mistyped, unknown or duplicate key.
    InvalidKey { description: String },
    /// An underlying I/O failure.
    Io { description: String },
    /// Malformed pack data.
    Parse { description: String },
    /// A value could not be serialized (it is too large).
    Serialization { description: String },
    /// A hook exited with an error or was killed.
    Hook { description: String },
    /// A fetcher broke the source protocol.
    Source { description: String },
}

/// The kind of an error, without its description.
#[derive(Clone, Copy, Debug, PartialEq, Eq, Structural)]
pub enum ErrorKind {
    Config,
    Crypto,
    InvalidKey,
    Io,
    Parse,
    Serialization,
    Hook,
    Source,
}

impl Error {
    /// The kind of this error.
    pub open spec fn kind(&self) -> ErrorKind {
        match self {
            Error::Config { .. } => ErrorKind::Config,
            Error::Crypto { .. } => ErrorKind::Crypto,
            Error::InvalidKey { .. } => ErrorKind::InvalidKey,
            Error::Io { .. } => ErrorKind::Io,
            Error::Parse { .. } => ErrorKind::Parse,
            Error::Serialization { .. } => ErrorKind::Serialization,
            Error::Hook { .. } => ErrorKind::Hook,
            Error::Source { .. } => ErrorKind::Source,
        }
    }

    /// The description carried by the error.
    pub fn description(&self) -> (r: &String)
        ensures
            r == match self {
                Error::Config { description } => description,
                Error::Crypto { description } => description,
                Error::InvalidKey { description } => description,
                Error::Io { description } => description,
                Error::Parse { description } => description,
                Error::Serialization { description } => description,
                Error::Hook { description } => description,
                Error::Source { description } => description,
            },
    {
        match self {
            Error::Config { description } => description,
            Error::Crypto { description } => description,
            Error::InvalidKey { description } => description,
            Error::Io { description } => description,
            Error::Parse { description } => description,
            Error::Serialization { description } => description,
            Error::Hook { description } => description,
            Error::Source { description } => description,
        }
    }
}

} // verus!
