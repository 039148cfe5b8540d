//! Failures reported while decoding.
use vstd::prelude::*;

use crate::wire::WireType;

verus! {

/// A failure of the wire reader.
#[derive(Debug, Clone, Copy, PartialEq, Eq, Structural)]
pub enum StreamError {
    /// The data ended inside a value.
    Truncated,
    /// A varint ran over ten bytes.
    IncorrectVarint,
    /// A tag held an unknown wire type or the field number zero.
    IncorrectTag(u32),
    /// A length prefix reached past the end of the enclosing message.
    LimitOverrun,
    /// A string field held bytes that are not UTF-8.
    Utf8,
}

/// An error that may occur when dealing with Protobuf.
#[derive(Debug, Clone, PartialEq, Eq)]
pub enum Error {
    /// The wire reader failed.
    Stream(StreamError),
    /// The end of stream was reached.
    EndOfStream,
    /// An unknown enum type was encountered.
    UnknownEnum {
        /// The name of the enum.
        name: String,
    },
    /// An unknown enum value was encountered.
    UnknownEnumValue {
        /// The number of the enum value.
        value: i32,
    },
    /// An unknown message type was encountered.
    UnknownMessage {
        /// The name of the message.
        name: String,
    },
    /// An unexpected wire type was received.
    BadWireType {
        /// The encountered wire type.
        wire_type: WireType,
    },
    /// A default value that can't be parsed was received.
    BadDefaultValue {
        /// The default value that couldn't be parsed.
        default_value: String,
    },
    /// The group encoding was met; it is not implemented.
    Unimplemented,
    /// Some user-defined error occurred.
    Custom {
        /// The user-defined error message.
        message: String,
    },
}

/// A result whose error type is `Error`.
pub type Result<A> = core::result::Result<A, Error>;

/// A wrapper of `Error` for interfaces that expect an error type of their own.
#[derive(Debug)]
pub struct CompatError(pub Error);

/// A result whose error type is `CompatError`.
pub type CompatResult<A> = core::result::Result<A, CompatError>;

impl CompatError {
    /// Converts this compatibility error into the underlying error.
    pub fn into_error(self) -> (r: Error)
        ensures
            r == self.0,
    {
        self.0
    }

    /// Wraps an error of this crate.
    pub fn from_error(e: Error) -> (r: CompatError)
        ensures
            r.0 == e,
    {
        CompatError(e)
    }

    /// Makes a custom error that carries `message`.
    pub fn custom(message: String) -> (r: CompatError)
        ensures
            r.0 == (Error::Custom { message }),
    {
        CompatError(Error::Custom { message })
    }
}

} // verus!
