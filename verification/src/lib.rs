//! Peer-to-peer transport core: connection-management state machine,
//! wire-message framing, bootstrap cache and bootstrap-group racing.
//!
//! The library holds the pure logic: every state transition is an ordinary
//! function from the current state and an input to the next state together
//! with the actions (writes, connection attempts) and events that the host
//! must perform or observe. All I/O — the QUIC endpoint, sessions and
//! streams — lives with the host, which drives these transitions.

pub mod cache;
pub mod conn;
pub mod ctx;
pub mod event;
pub mod types;
pub mod wire;

use vstd::prelude::*;

verus! {

/// Role of this process: a Node accepts inbound sessions, a Client only
/// initiates them.
#[derive(Clone, Copy, PartialEq, Eq, Structural, Debug)]
pub enum OurType {
    Node,
    Client,
}

impl OurType {
    /// True exactly when this participant accepts inbound sessions.
    pub fn accepts_inbound(self) -> (r: bool)
        ensures
            r == (self == OurType::Node),
    {
        matches!(self, OurType::Node)
    }
}

} // verus!
