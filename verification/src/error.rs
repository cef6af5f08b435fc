//! Why a file could not be shown.

use vstd::prelude::*;
use vstd::std_specs::convert::FromSpecImpl;

verus! {

/// What went wrong when the storage was read.
#[derive(Debug)]
pub enum IoFailure {
    /// There is no such file.
    NotFound,
    /// Anything else, with what the system said of it.
    Other(String),
}

/// What went wrong when a file was decoded.
#[derive(Debug)]
pub enum DecodeFailure {
    /// The decoder does not know the format.
    Unsupported,
    /// The file could not be read.
    Io(IoFailure),
    /// Anything else, with what the decoder said of it.
    Other(String),
}

/// Why a file cannot be shown.
#[derive(Debug)]
pub enum Error {
    /// The file is gone.
    FileNotFound,
    /// The format of the file is not supported.
    Unsupported,
    /// The graphics device refused the bitmap, with the code it gave.
    HResult(i32),
    /// Anything else, with a description.
    Other(String),
}

impl From<IoFailure> for Error {
    /// A missing file is reported as such; every other failure keeps its
    /// description.
    fn from(src: IoFailure) -> (e: Error) {
        match src {
            IoFailure::NotFound => Error::FileNotFound,
            IoFailure::Other(message) => Error::Other(message),
        }
    }
}

impl FromSpecImpl<IoFailure> for Error {
    open spec fn obeys_from_spec() -> bool {
        true
    }

    open spec fn from_spec(src: IoFailure) -> Error {
        match src {
            IoFailure::NotFound => Error::FileNotFound,
            IoFailure::Other(message) => Error::Other(message),
        }
    }
}

impl From<DecodeFailure> for Error {
    /// An unknown format is reported as such, a failure to read as the
    /// storage reported it; every other failure keeps its description.
    fn from(src: DecodeFailure) -> (e: Error) {
        match src {
            DecodeFailure::Unsupported => Error::Unsupported,
            DecodeFailure::Io(io) => Error::from(io),
            DecodeFailure::Other(message) => Error::Other(message),
        }
    }
}

impl FromSpecImpl<DecodeFailure> for Error {
    open spec fn obeys_from_spec() -> bool {
        true
    }

    open spec fn from_spec(src: DecodeFailure) -> Error {
        match src {
            DecodeFailure::Unsupported => Error::Unsupported,
            DecodeFailure::Io(IoFailure::NotFound) => Error::FileNotFound,
            DecodeFailure::Io(IoFailure::Other(message)) => Error::Other(message),
            DecodeFailure::Other(message) => Error::Other(message),
        }
    }
}

impl Error {
    /// The error for a bitmap that the graphics device refused with `code`.
    pub fn from_hresult(code: i32) -> (e: Error)
        ensures
            e == Error::HResult(code),
    {
        Error::HResult(code)
    }
}

} // verus!
