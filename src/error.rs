//! The failures that encoding and decoding report.
use vstd::prelude::*;

verus! {

/// `std::io::Error`, carried through unchanged from a byte sink.
#[verifier::external_type_specification]
#[verifier::external_body]
pub struct ExIoError(std::io::Error);

pub type Result<T, E = Error> = core::result::Result<T, E>;

#[derive(Debug)]
pub enum Error {
    /// A message from the layer that describes the shape of values.
    Custom(String),
    /// A failure of the underlying byte sink.
    Io(std::io::Error),
    /// An operation that a format without type tags cannot offer.
    Unsupported { name: &'static str, reason: &'static str },
    /// The input ended before a read was satisfied.
    EOF,
    /// A decoded value failed its validity check.
    InvalidValue { value: u32, reason: &'static str },
    /// The stream header names a version other than 0.
    UnsupportedVersion,
    /// Bytes that should hold text are not UTF-8.
    InvalidUTF8,
}

impl From<std::io::Error> for Error {
    fn from(value: std::io::Error) -> (r: Self)
        ensures
            r == Error::Io(value),
    {
        Error::Io(value)
    }
}

impl vstd::std_specs::convert::FromSpecImpl<std::io::Error> for Error {
    open spec fn obeys_from_spec() -> bool {
        true
    }

    open spec fn from_spec(v: std::io::Error) -> Error {
        Error::Io(v)
    }
}

} // verus!
