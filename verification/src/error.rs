//! The failures that the protocol engine reports.

use vstd::prelude::*;

verus! {

/// Why an operation of the engine did not produce its result.
#[derive(Clone, Copy, Debug, PartialEq, Eq, Structural)]
pub enum Error {
    /// A datagram is too short to hold the fixed header of a frame.
    Format,
    /// The handshake ran out of attempts without a valid answer.
    ConnectionAborted,
    /// The peer reset the connection; it must not be used again.
    ConnectionReset,
    /// No further data can arrive on this connection.
    EndOfStream,
    /// The endpoint was stopped and no accepted connection is left.
    NotConnected,
}

impl Error {
    /// A short description for messages.
    pub fn describe(&self) -> (text: &'static str)
        ensures
            text@ == match *self {
                Error::Format => "frame shorter than its header"@,
                Error::ConnectionAborted => "failed to connect"@,
                Error::ConnectionReset => "connection reset by peer"@,
                Error::EndOfStream => "end of stream"@,
                Error::NotConnected => "endpoint stopped"@,
            },
    {
        match self {
            Error::Format => "frame shorter than its header",
            Error::ConnectionAborted => "failed to connect",
            Error::ConnectionReset => "connection reset by peer",
            Error::EndOfStream => "end of stream",
            Error::NotConnected => "endpoint stopped",
        }
    }
}

} // verus!
