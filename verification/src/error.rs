//! The errors of the transport.

use vstd::prelude::*;
use vstd::string::*;

verus! {

/// `std::io::Error`, carried through as the source of an error and never looked into.
#[verifier::external_type_specification]
#[verifier::external_body]
pub struct ExIoError(std::io::Error);

/// A quirk error.
#[derive(Debug)]
pub enum Error {
    /// Binding the UDP socket failed.
    Bind(std::io::Error),
    /// Sending or receiving on the socket failed.
    Io(std::io::Error),
    /// The peer sent a frame that does not belong at this point in the handshake.
    Handshake,
    /// The endpoint has shut down.
    Closed,
}

impl Error {
    /// The line an operator reads.
    pub open spec fn message(&self) -> Seq<char> {
        match *self {
            Error::Bind(_) => "bind udp socket"@,
            Error::Io(_) => "socket io"@,
            Error::Handshake => "unexpected handshake frame"@,
            Error::Closed => "endpoint closed"@,
        }
    }

    /// The error as a line of text.
    pub fn to_string(&self) -> (message: String)
        ensures
            message@ == self.message(),
    {
        match self {
            Error::Bind(_) => String::from_str("bind udp socket"),
            Error::Io(_) => String::from_str("socket io"),
            Error::Handshake => String::from_str("unexpected handshake frame"),
            Error::Closed => String::from_str("endpoint closed"),
        }
    }
}

/// Each error reads as its own line.
pub proof fn law_errors_read_as_their_lines(source: std::io::Error)
    ensures
        Error::Bind(source).message() == "bind udp socket"@,
        Error::Io(source).message() == "socket io"@,
        Error::Handshake.message() == "unexpected handshake frame"@,
        Error::Closed.message() == "endpoint closed"@,
{
}

} // verus!
