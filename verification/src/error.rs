//! The one error type of the library.

use vstd::prelude::*;

verus! {

/// Why an operation of the library failed.
#[derive(Debug, Clone, Copy, PartialEq, Eq, Structural)]
pub enum Error {
    /// The bytes seen so far are the beginning of a message, not all of
    /// it. The framer keeps buffering; nothing is wrong with the stream.
    NeedMoreData,
    /// A tag, a length, a string's bytes or a value's range breaks the
    /// wire format. The offsets of the stream can no longer be trusted.
    Malformed,
    /// A value that the writer cannot represent: an integer of 2^24 or
    /// more, or contents longer than one length byte can declare.
    Unsupported,
    /// The transport was closed or failed.
    ConnectionClosed,
    /// A message, complete or not, needs more room than the receive
    /// buffer has.
    TooLarge,
    /// A message of a kind that cannot be handled where it arrived,
    /// response data of an unexpected shape, or a number that stands
    /// for no value of an enumeration.
    InvalidData,
}

impl Error {
    /// A short description, for logs.
    pub fn message(&self) -> (text: &'static str)
        ensures
            text@ == self.spec_message()@,
    {
        match self {
            Error::NeedMoreData => "need more data",
            Error::Malformed => "malformed data",
            Error::Unsupported => "unsupported value",
            Error::ConnectionClosed => "connection closed",
            Error::TooLarge => "message too large",
            Error::InvalidData => "invalid data",
        }
    }

    /// The description of each error.
    pub open spec fn spec_message(&self) -> &'static str {
        match self {
            Error::NeedMoreData => "need more data",
            Error::Malformed => "malformed data",
            Error::Unsupported => "unsupported value",
            Error::ConnectionClosed => "connection closed",
            Error::TooLarge => "message too large",
            Error::InvalidData => "invalid data",
        }
    }
}

} // verus!
