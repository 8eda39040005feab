//! Client-side engine for the control channel of an onion-routing daemon:
//! reply framing, the typed grammar of the daemon's records, the SAFECOOKIE
//! handshake decisions and the command surface, all on plain bytes.
use vstd::prelude::*;

pub mod auth;
pub mod circuit;
pub mod common;
pub mod conn;
pub mod controller;
pub mod encoding;
pub mod error;
pub mod ns;
pub mod protocol;
pub mod stream;
pub mod text;

verus! {

} // verus!
