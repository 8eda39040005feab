//! The library's errors.
use vstd::prelude::*;

verus! {

/// What the peer did against the protocol.
#[derive(Debug, Clone, PartialEq, Eq)]
pub enum ProtocolError {
    /// A `GETINFO` reply named another key than the one asked for.
    KeyMismatch { expected: Vec<u8>, received: Vec<u8> },
    /// A `GETINFO` reply held no `key=value` pair.
    NoKeyValue(Vec<u8>),
    /// The lines of one reply carried different status codes.
    CodeMismatch { first: u16, other: u16 },
    /// The daemon's SAFECOOKIE hash is not the one computed here.
    ServerHashMismatch { computed: Vec<u8>, received: Vec<u8> },
    /// The handshake was handed an event it does not wait for.
    UnexpectedEvent,
}

/// Errors of the control protocol.
#[derive(Debug, Clone, PartialEq, Eq)]
pub enum Error {
    /// The command was answered with another status code than success.
    ServerResponse(u16, Vec<u8>),
    /// The peer broke the protocol.
    Protocol(ProtocolError),
    /// A reply's text does not follow the grammar; holds that text.
    Parsing(Vec<u8>),
    /// None of the authentication methods offered is supported here.
    Unsupported,
    /// The session failed before and takes no more commands.
    Closed,
    /// Only the handshake's commands may be sent before it succeeds.
    Unauthenticated,
}

/// `e` reports a reply with status `code` and payload `data`.
pub open spec fn is_server_response(e: Error, code: u16, data: Seq<u8>) -> bool {
    match e {
        Error::ServerResponse(c, d) => c == code && d@ == data,
        _ => false,
    }
}

} // verus!
