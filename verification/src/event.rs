//! Lifecycle events delivered to the host, the error kinds, and the I/O
//! actions the host must perform on the library's behalf.

use vstd::prelude::*;
use crate::types::{NodeInfo, NodeInfoView, Peer, PeerAddr, PeerView};
use crate::wire::{WireMsg, WireMsgView};

verus! {

/// Every failure the core can report.
#[derive(Clone, Copy, PartialEq, Eq, Structural, Debug)]
pub enum QuicP2pError {
    /// The attempt's terminator fired before the handshake completed.
    ConnectionCancelled,
    /// A record for this address already has a live outbound half.
    DuplicateConnectionToPeer { peer_addr: PeerAddr },
    /// The externally-visible address has not been learned yet.
    NoEndpointEchoServerFound,
    /// The remote certificate could not be turned into a client config.
    CertificateParseError,
    /// The QUIC handshake to the remote failed.
    QuicConnectError,
    /// The remote violated the application protocol.
    QuicProtocolError,
    /// A wire message could not be serialised or deserialised.
    Serialisation,
    /// An I/O failure on an established session.
    Io,
}

/// Outbound notification of connection lifecycle to the host.
#[derive(Clone, Debug)]
pub enum Event {
    ConnectedTo { peer: Peer },
    BootstrappedTo { node: NodeInfo },
    NewMessage { peer_addr: PeerAddr, msg: Vec<u8> },
    ConnectionFailure { peer_addr: PeerAddr, error: QuicP2pError },
    SentUserMessage { peer_addr: PeerAddr, msg: Vec<u8> },
    UnsentUserMessage { peer_addr: PeerAddr, msg: Vec<u8> },
    Finish,
}

/// Mathematical model of an event.
pub enum EventView {
    ConnectedTo { peer: PeerView },
    BootstrappedTo { node: NodeInfoView },
    NewMessage { peer_addr: PeerAddr, msg: Seq<u8> },
    ConnectionFailure { peer_addr: PeerAddr, error: QuicP2pError },
    SentUserMessage { peer_addr: PeerAddr, msg: Seq<u8> },
    UnsentUserMessage { peer_addr: PeerAddr, msg: Seq<u8> },
    Finish,
}

impl View for Event {
    type V = EventView;

    open spec fn view(&self) -> EventView {
        match *self {
            Event::ConnectedTo { ref peer } => EventView::ConnectedTo { peer: peer@ },
            Event::BootstrappedTo { ref node } => EventView::BootstrappedTo { node: node@ },
            Event::NewMessage { peer_addr, ref msg } =>
                EventView::NewMessage { peer_addr, msg: msg@ },
            Event::ConnectionFailure { peer_addr, error } =>
                EventView::ConnectionFailure { peer_addr, error },
            Event::SentUserMessage { peer_addr, ref msg } =>
                EventView::SentUserMessage { peer_addr, msg: msg@ },
            Event::UnsentUserMessage { peer_addr, ref msg } =>
                EventView::UnsentUserMessage { peer_addr, msg: msg@ },
            Event::Finish => EventView::Finish,
        }
    }
}

impl EventView {
    /// A one-shot successful-connection event for `addr`: either kind.
    pub open spec fn is_success_for(self, addr: PeerAddr) -> bool {
        match self {
            EventView::ConnectedTo { peer } => peer.addr() == addr,
            EventView::BootstrappedTo { node } => node.peer_addr == addr,
            _ => false,
        }
    }
}

/// What the host must perform on the library's behalf: each action names
/// the record it belongs to.
#[derive(Clone, Debug)]
pub enum Action {
    /// Open a QUIC session to the address, authenticated to the record's
    /// expected certificate.
    StartConnect { peer_addr: PeerAddr },
    /// Write one framed message on the established session.
    SendMsg { peer_addr: PeerAddr, msg: WireMsg },
    /// Begin reading inbound streams of the session.
    AcceptIncoming { peer_addr: PeerAddr },
    /// Close and drop every session to the address.
    SeverConnection { peer_addr: PeerAddr },
}

/// Mathematical model of an action.
pub enum ActionView {
    StartConnect { peer_addr: PeerAddr },
    SendMsg { peer_addr: PeerAddr, msg: WireMsgView },
    AcceptIncoming { peer_addr: PeerAddr },
    SeverConnection { peer_addr: PeerAddr },
}

impl View for Action {
    type V = ActionView;

    open spec fn view(&self) -> ActionView {
        match *self {
            Action::StartConnect { peer_addr } => ActionView::StartConnect { peer_addr },
            Action::SendMsg { peer_addr, ref msg } => ActionView::SendMsg { peer_addr, msg: msg@ },
            Action::AcceptIncoming { peer_addr } => ActionView::AcceptIncoming { peer_addr },
            Action::SeverConnection { peer_addr } => ActionView::SeverConnection { peer_addr },
        }
    }
}

/// Views of a sequence of events.
pub open spec fn event_views(s: Seq<Event>) -> Seq<EventView> {
    Seq::new(s.len(), |i: int| s[i]@)
}

/// Views of a sequence of actions.
pub open spec fn action_views(s: Seq<Action>) -> Seq<ActionView> {
    Seq::new(s.len(), |i: int| s[i]@)
}

/// Views of a sequence of wire messages.
pub open spec fn msg_views(s: Seq<WireMsg>) -> Seq<WireMsgView> {
    Seq::new(s.len(), |i: int| s[i]@)
}

/// The number of successful-connection events for `addr` in `s`.
pub open spec fn count_success_for(s: Seq<EventView>, addr: PeerAddr) -> nat
    decreases s.len(),
{
    if s.len() == 0 {
        0
    } else {
        count_success_for(s.drop_last(), addr) + if s.last().is_success_for(addr) {
            1nat
        } else {
            0nat
        }
    }
}

/// Appending an event appends its view.
pub proof fn lemma_event_views_push(s: Seq<Event>, e: Event)
    ensures
        event_views(s.push(e)) == event_views(s).push(e@),
{
    assert(event_views(s.push(e)) =~= event_views(s).push(e@));
}

/// Appending an action appends its view.
pub proof fn lemma_action_views_push(s: Seq<Action>, a: Action)
    ensures
        action_views(s.push(a)) == action_views(s).push(a@),
{
    assert(action_views(s.push(a)) =~= action_views(s).push(a@));
}

/// Counting successful-connection events distributes over concatenation.
pub proof fn lemma_count_success_add(s: Seq<EventView>, t: Seq<EventView>, addr: PeerAddr)
    ensures
        count_success_for(s + t, addr) == count_success_for(s, addr) + count_success_for(t, addr),
    decreases t.len(),
{
    if t.len() == 0 {
        assert(s + t =~= s);
    } else {
        assert((s + t).drop_last() =~= s + t.drop_last());
        assert((s + t).last() == t.last());
        lemma_count_success_add(s, t.drop_last(), addr);
    }
}

} // verus!
