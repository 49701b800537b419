//! Per-remote-address connection record: the two half-state machines, the
//! direction flag, and the bootstrap-group handle.

use vstd::prelude::*;
use crate::event::msg_views;
use crate::types::PeerAddr;
use crate::wire::{WireMsg, WireMsgView};

verus! {

/// Outbound half of a record.
pub enum ToPeer {
    /// Initial.
    NoConnection,
    /// Permanent terminal: the remote is a Client and will never accept
    /// our outbound.
    NotNeeded,
    /// Outbound QUIC handshake in flight; user sends are buffered in
    /// submission order, and the remote is authenticated to exactly this
    /// certificate.
    Initiated { peer_cert_der: Vec<u8>, pending_sends: Vec<WireMsg> },
    /// Session open and application handshake sent.
    Established { peer_cert_der: Vec<u8> },
}

impl ToPeer {
    /// Still in its initial state.
    pub open spec fn spec_is_no_connection(self) -> bool {
        self is NoConnection
    }

    /// This half no longer blocks the record from being ready.
    pub open spec fn ready(self) -> bool {
        self is Established || self is NotNeeded
    }

    /// The certificate the outbound half is bound to.
    pub open spec fn cert_view(self) -> Seq<u8> {
        match self {
            ToPeer::Initiated { peer_cert_der, .. } => peer_cert_der@,
            ToPeer::Established { peer_cert_der } => peer_cert_der@,
            _ => Seq::empty(),
        }
    }

    /// The buffered sends, in submission order.
    pub open spec fn pending_sends_view(self) -> Seq<WireMsgView> {
        match self {
            ToPeer::Initiated { pending_sends, .. } => msg_views(pending_sends@),
            _ => Seq::empty(),
        }
    }

    /// Executable test for the initial state.
    pub fn is_no_connection(&self) -> (r: bool)
        ensures
            r == self.spec_is_no_connection(),
    {
        matches!(self, ToPeer::NoConnection)
    }
}

/// Inbound half of a record.
pub enum FromPeer {
    /// Initial.
    NoConnection,
    /// We are a Client: no inbound is ever expected.
    NotNeeded,
    /// Inbound session open; messages that arrived before the outbound
    /// half was ready are buffered in arrival order.
    Established { pending_reads: Vec<WireMsg> },
}

impl FromPeer {
    /// Still in its initial state.
    pub open spec fn spec_is_no_connection(self) -> bool {
        self is NoConnection
    }

    /// This half no longer blocks the record from being ready.
    pub open spec fn ready(self) -> bool {
        self is Established || self is NotNeeded
    }

    /// The buffered reads, in arrival order.
    pub open spec fn pending_reads_view(self) -> Seq<WireMsgView> {
        match self {
            FromPeer::Established { pending_reads } => msg_views(pending_reads@),
            _ => Seq::empty(),
        }
    }

    /// Executable test for the initial state.
    pub fn is_no_connection(&self) -> (r: bool)
        ensures
            r == self.spec_is_no_connection(),
    {
        matches!(self, FromPeer::NoConnection)
    }
}

/// The per-address composite state.
pub struct Connection {
    pub peer_addr: PeerAddr,
    pub to_peer: ToPeer,
    pub from_peer: FromPeer,
    /// Index of the bootstrap group this attempt belongs to, if any.
    pub bootstrap_group_id: Option<usize>,
    /// True exactly when the record was created by the connect path.
    pub we_contacted_peer: bool,
}

impl Connection {
    /// Fresh record for `peer_addr`; `we_contacted_peer` says which path
    /// created it.
    pub fn new(peer_addr: PeerAddr, we_contacted_peer: bool) -> (r: Connection)
        ensures
            r.peer_addr == peer_addr,
            r.to_peer is NoConnection,
            r.from_peer is NoConnection,
            r.bootstrap_group_id is None,
            r.we_contacted_peer == we_contacted_peer,
    {
        Connection {
            peer_addr,
            to_peer: ToPeer::NoConnection,
            from_peer: FromPeer::NoConnection,
            bootstrap_group_id: None,
            we_contacted_peer,
        }
    }

    /// Both halves are ready: the one-shot success event fires exactly on
    /// the transition into this state.
    pub open spec fn ready(self) -> bool {
        self.to_peer.ready() && self.from_peer.ready()
    }
}

/// One-shot coordination object racing a candidate set of outbound
/// attempts: the first success terminates all other members.
pub struct BootstrapGroup {
    /// Addresses of the attempts registered with this group.
    pub members: Vec<PeerAddr>,
    /// Set at first success (or exhaustion); late entrants must observe it.
    pub finished: bool,
}

impl BootstrapGroup {
    /// Fresh, unfinished group with no members.
    pub fn new() -> (r: BootstrapGroup)
        ensures
            r.members@ == Seq::<PeerAddr>::empty(),
            !r.finished,
    {
        BootstrapGroup { members: Vec::new(), finished: false }
    }
}

} // verus!
