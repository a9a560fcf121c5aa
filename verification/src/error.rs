//! The ways in which a connection as a whole can fail.

use vstd::prelude::*;

verus! {

/// A failure of the connection itself. Every one of them ends the session:
/// nothing more can be trusted to arrive in order on any channel.
#[derive(Debug, PartialEq, Eq, Clone, Copy, Structural)]
pub enum ConnectionError {
    /// The header of a frame is cut short or names a length beyond the
    /// limit.
    MalformedFrame,
    /// The bytes of a message are not the encoding of any valid message.
    MalformedMessage,
    /// A response names an id for which no call is waiting.
    UnknownResponseId,
    /// A request names an id under which a call is still being served.
    RequestIdInUse,
    /// The peer went away or the connection broke.
    Closed,
}

} // verus!
