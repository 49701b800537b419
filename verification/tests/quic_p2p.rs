use quic_p2p::ctx::Context;
use quic_p2p::event::{Action, Event, QuicP2pError};
use quic_p2p::types::{IpBytes, NodeInfo, Peer, PeerAddr};
use quic_p2p::wire::{Handshake, WireMsg};
use quic_p2p::OurType;

fn addr(last_octet: u8, port: u16) -> PeerAddr {
    PeerAddr { ip: IpBytes::V4 { o0: 127, o1: 0, o2: 0, o3: last_octet }, port }
}

fn node(last_octet: u8, port: u16, cert: &[u8]) -> Context {
    Context::new(OurType::Node, cert.to_vec(), Some(addr(last_octet, port)), 64)
}

fn client(last_octet: u8, port: u16, cert: &[u8]) -> Context {
    Context::new(OurType::Client, cert.to_vec(), Some(addr(last_octet, port)), 64)
}

/// The last handshake (or any) message queued for writing to `to`.
fn last_send_to(ctx: &Context, to: PeerAddr) -> WireMsg {
    ctx.actions
        .iter()
        .rev()
        .find_map(|a| match a {
            Action::SendMsg { peer_addr, msg } if *peer_addr == to => Some(msg.clone()),
            _ => None,
        })
        .expect("no message was queued for that peer")
}

/// Every `ConnectedTo` peer observed so far.
fn connected_peers(ctx: &Context) -> Vec<Peer> {
    ctx.events
        .iter()
        .filter_map(|e| match e {
            Event::ConnectedTo { peer } => Some(peer.clone()),
            _ => None,
        })
        .collect()
}

fn bootstrapped_nodes(ctx: &Context) -> Vec<NodeInfo> {
    ctx.events
        .iter()
        .filter_map(|e| match e {
            Event::BootstrappedTo { node } => Some(node.clone()),
            _ => None,
        })
        .collect()
}

/// Drive the full node-to-node dance: `a` dials `b`, both QUIC handshakes
/// succeed, the application handshake crosses, and both sides observe
/// their success event.
fn connect_pair(a: &mut Context, a_addr: PeerAddr, b: &mut Context, b_addr: PeerAddr) {
    let b_info = NodeInfo { peer_addr: b_addr, peer_cert_der: b.our_cert_der.clone() };
    a.connect_to(b_info, None, None).expect("dial failed");
    a.handle_new_connection_res(b_addr, Ok(()));
    let hs = last_send_to(a, b_addr);
    assert!(b.listen(a_addr));
    b.handle_incoming_msg(a_addr, hs);
    b.handle_new_connection_res(a_addr, Ok(()));
    assert!(a.listen(b_addr));
}

#[test]
fn successfull_connection_stores_peer_in_bootstrap_cache() {
    let mut peer1 = node(1, 5001, b"cert-one");
    let peer1_conn_info = peer1.our_connection_info().unwrap();

    let mut peer2 = node(2, 5002, b"cert-two");
    let a1 = peer1_conn_info.peer_addr;
    let a2 = peer2.our_connection_info().unwrap().peer_addr;
    connect_pair(&mut peer2, a2, &mut peer1, a1);

    let connected = connected_peers(&peer2);
    assert_eq!(connected.len(), 1);
    match &connected[0] {
        Peer::Node { node_info } => {
            assert_eq!(node_info.peer_addr, peer1_conn_info.peer_addr);
            assert_eq!(node_info.peer_cert_der, peer1_conn_info.peer_cert_der);
        }
        Peer::Client { .. } => panic!("expected a Node peer"),
    }

    let cache = peer2.bootstrap_cache();
    assert_eq!(cache.len(), 1);
    assert_eq!(cache[0].peer_addr, peer1_conn_info.peer_addr);
    assert_eq!(cache[0].peer_cert_der, peer1_conn_info.peer_cert_der);
}

#[test]
fn incoming_connections_yield_connected_to_event() {
    let mut peer1 = node(1, 5001, b"cert-one");
    let info1 = peer1.our_connection_info().unwrap();

    let mut peer2 = node(2, 5002, b"cert-two");
    let info2 = peer2.our_connection_info().unwrap();
    connect_pair(&mut peer2, info2.peer_addr, &mut peer1, info1.peer_addr);

    let connected = connected_peers(&peer1);
    assert_eq!(connected.len(), 1);
    assert_eq!(
        connected[0].peer_cert_der().expect("expected a Node peer"),
        &info2.peer_cert_der
    );
}

#[test]
fn incoming_connections_are_not_put_into_bootstrap_cache_upon_connected_to_event() {
    let mut peer1 = node(1, 5001, b"cert-one");
    let info1 = peer1.our_connection_info().unwrap();

    let mut peer2 = node(2, 5002, b"cert-two");
    let info2 = peer2.our_connection_info().unwrap();
    connect_pair(&mut peer2, info2.peer_addr, &mut peer1, info1.peer_addr);

    assert_eq!(connected_peers(&peer1).len(), 1);
    let cache = peer1.bootstrap_cache();
    assert!(cache.is_empty());
}

#[test]
fn duplicate_connect_is_rejected_without_teardown() {
    let mut peer1 = node(1, 5001, b"cert-one");
    let info1 = peer1.our_connection_info().unwrap();
    let mut peer2 = node(2, 5002, b"cert-two");
    let info2 = peer2.our_connection_info().unwrap();
    connect_pair(&mut peer2, info2.peer_addr, &mut peer1, info1.peer_addr);

    let res = peer2.connect_to(info1.clone(), None, None);
    match res {
        Err(QuicP2pError::DuplicateConnectionToPeer { peer_addr }) => {
            assert_eq!(peer_addr, info1.peer_addr);
        }
        other => panic!("expected a duplicate-connection error, got {:?}", other),
    }

    // the existing session still delivers messages
    peer2.handle_incoming_msg(info1.peer_addr, WireMsg::UserMsg(b"hello".to_vec()));
    let got: Vec<_> = peer2
        .events
        .iter()
        .filter_map(|e| match e {
            Event::NewMessage { peer_addr, msg } => Some((*peer_addr, msg.clone())),
            _ => None,
        })
        .collect();
    assert_eq!(got, vec![(info1.peer_addr, b"hello".to_vec())]);
}

#[test]
fn bootstrap_group_cancels_losers() {
    let mut p0 = node(9, 5009, b"cert-zero");
    let a0 = p0.our_connection_info().unwrap().peer_addr;
    let mut n1 = node(1, 5001, b"cert-one");
    let info1 = n1.our_connection_info().unwrap();
    let mut n2 = node(2, 5002, b"cert-two");
    let info2 = n2.our_connection_info().unwrap();

    // seed the cache through two ordinary outbound successes
    connect_pair(&mut p0, a0, &mut n1, info1.peer_addr);
    connect_pair(&mut p0, a0, &mut n2, info2.peer_addr);
    p0.disconnect_from(info1.peer_addr);
    p0.disconnect_from(info2.peer_addr);
    // severing takes both ends down
    n1.disconnect_from(a0);
    n2.disconnect_from(a0);
    assert_eq!(p0.bootstrap_cache().len(), 2);
    let events_before = p0.events.len();

    p0.bootstrap();
    // both attempts are in flight; the one to n1 wins the race
    p0.handle_new_connection_res(info1.peer_addr, Ok(()));
    let hs = last_send_to(&p0, info1.peer_addr);
    assert!(n1.listen(a0));
    n1.handle_incoming_msg(a0, hs);
    n1.handle_new_connection_res(a0, Ok(()));
    assert!(p0.listen(info1.peer_addr));

    // the loser's QUIC handshake resolves after its terminator fired
    p0.handle_new_connection_res(info2.peer_addr, Ok(()));

    let boots = bootstrapped_nodes(&p0);
    assert_eq!(boots.len(), 1);
    assert_eq!(boots[0].peer_addr, info1.peer_addr);
    assert_eq!(boots[0].peer_cert_der, info1.peer_cert_der);
    // the losing attempt produced no event at all
    for e in &p0.events[events_before..] {
        match e {
            Event::BootstrappedTo { node } => assert_ne!(node.peer_addr, info2.peer_addr),
            Event::ConnectedTo { peer } => assert_ne!(peer_addr_of(peer), info2.peer_addr),
            Event::ConnectionFailure { peer_addr, .. } => assert_ne!(*peer_addr, info2.peer_addr),
            _ => {}
        }
    }
    // the group is finished, the loser's terminator fired: its sessions
    // were severed and its record is gone, so a fresh dial is accepted
    assert!(p0.groups.last().unwrap().finished);
    assert!(p0.actions.iter().any(|a| matches!(
        a,
        Action::SeverConnection { peer_addr } if *peer_addr == info2.peer_addr
    )));
    assert!(p0.connect_to(info2, None, None).is_ok());
}

#[test]
fn client_role_never_accepts_inbound() {
    let mut pn = node(1, 5001, b"cert-node");
    let pn_info = pn.our_connection_info().unwrap();
    let mut pc = client(3, 5003, b"cert-client");
    let pc_addr = addr(3, 5003);

    // the client connects out and both sides observe the session
    pc.connect_to(pn_info.clone(), None, None).unwrap();
    pc.handle_new_connection_res(pn_info.peer_addr, Ok(()));
    let hs = last_send_to(&pc, pn_info.peer_addr);
    assert!(matches!(hs, WireMsg::Handshake(Handshake::Client)));
    assert!(pn.listen(pc_addr));
    pn.handle_incoming_msg(pc_addr, hs);
    let connected = connected_peers(&pn);
    assert_eq!(connected.len(), 1);
    assert!(matches!(connected[0], Peer::Client { peer_addr } if peer_addr == pc_addr));
    // the client observed its own ConnectedTo at completion
    assert_eq!(connected_peers(&pc).len(), 1);

    // dialing the client back is refused outright while its record lives
    let pc_info = NodeInfo { peer_addr: pc_addr, peer_cert_der: b"cert-client".to_vec() };
    assert!(matches!(
        pn.connect_to(pc_info.clone(), None, None),
        Err(QuicP2pError::DuplicateConnectionToPeer { .. })
    ));
    // even with the record gone, the QUIC handshake cannot succeed
    pn.disconnect_from(pc_addr);
    pn.connect_to(pc_info, None, None).unwrap();
    pn.handle_new_connection_res(pc_addr, Err(QuicP2pError::QuicConnectError));
    assert!(pn.events.iter().any(|e| matches!(
        e,
        Event::ConnectionFailure { peer_addr, error: QuicP2pError::QuicConnectError }
            if *peer_addr == pc_addr
    )));
    // the client never accepts the inbound session
    assert!(!pc.listen(pn_info.peer_addr));
    assert_eq!(connected_peers(&pc).len(), 1);
}

#[test]
fn sends_before_established_are_flushed_in_submission_order() {
    let mut peer1 = node(1, 5001, b"cert-one");
    let info1 = peer1.our_connection_info().unwrap();
    let mut peer2 = node(2, 5002, b"cert-two");

    peer2.connect_to(info1.clone(), None, None).unwrap();
    peer2.send(Peer::Node { node_info: info1.clone() }, b"first".to_vec());
    peer2.send(Peer::Node { node_info: info1.clone() }, b"second".to_vec());
    // nothing is written while the handshake is in flight
    assert!(!peer2.actions.iter().any(|a| matches!(a, Action::SendMsg { .. })));

    peer2.handle_new_connection_res(info1.peer_addr, Ok(()));
    let writes: Vec<_> = peer2
        .actions
        .iter()
        .filter_map(|a| match a {
            Action::SendMsg { msg: WireMsg::UserMsg(m), .. } => Some(m.clone()),
            _ => None,
        })
        .collect();
    assert_eq!(writes, vec![b"first".to_vec(), b"second".to_vec()]);
    let sent: Vec<_> = peer2
        .events
        .iter()
        .filter_map(|e| match e {
            Event::SentUserMessage { msg, .. } => Some(msg.clone()),
            _ => None,
        })
        .collect();
    assert_eq!(sent, vec![b"first".to_vec(), b"second".to_vec()]);
}

#[test]
fn failed_attempt_reports_unsent_messages_then_failure() {
    let mut peer2 = node(2, 5002, b"cert-two");
    let info1 = NodeInfo { peer_addr: addr(1, 5001), peer_cert_der: b"cert-one".to_vec() };

    peer2.connect_to(info1.clone(), None, None).unwrap();
    peer2.send(Peer::Node { node_info: info1.clone() }, b"lost".to_vec());
    peer2.handle_new_connection_res(info1.peer_addr, Err(QuicP2pError::QuicConnectError));

    let tail: Vec<&Event> = peer2.events.iter().collect();
    assert_eq!(tail.len(), 2);
    assert!(matches!(
        tail[0],
        Event::UnsentUserMessage { peer_addr, msg } if *peer_addr == info1.peer_addr && msg == b"lost"
    ));
    assert!(matches!(
        tail[1],
        Event::ConnectionFailure { peer_addr, error: QuicP2pError::QuicConnectError }
            if *peer_addr == info1.peer_addr
    ));
    // the record is gone: a fresh dial is not a duplicate
    assert!(peer2.connect_to(info1, None, None).is_ok());
}

#[test]
fn second_handshake_is_a_protocol_violation() {
    let mut peer1 = node(1, 5001, b"cert-one");
    let info1 = peer1.our_connection_info().unwrap();
    let mut peer2 = node(2, 5002, b"cert-two");
    let info2 = peer2.our_connection_info().unwrap();
    connect_pair(&mut peer2, info2.peer_addr, &mut peer1, info1.peer_addr);

    peer1.handle_incoming_msg(
        info2.peer_addr,
        WireMsg::Handshake(Handshake::Node { cert_der: b"cert-two".to_vec() }),
    );
    assert!(peer1.events.iter().any(|e| matches!(
        e,
        Event::ConnectionFailure { peer_addr, error: QuicP2pError::QuicProtocolError }
            if *peer_addr == info2.peer_addr
    )));
}

#[test]
fn endpoint_echo_fills_the_external_address_slot_once() {
    let mut peer1 = node(1, 5001, b"cert-one");
    let info1 = peer1.our_connection_info().unwrap();
    // peer2 does not know its external address yet
    let mut peer2 = Context::new(OurType::Node, b"cert-two".to_vec(), None, 64);
    assert!(matches!(
        peer2.our_connection_info(),
        Err(QuicP2pError::NoEndpointEchoServerFound)
    ));

    let a2 = addr(2, 5002);
    connect_pair(&mut peer2, a2, &mut peer1, info1.peer_addr);

    // peer1 answers an echo request with the address it observes
    peer1.handle_incoming_msg(a2, WireMsg::EndpointEchoReq);
    let reply = last_send_to(&peer1, a2);
    assert!(matches!(reply, WireMsg::EndpointEchoResp(echoed) if echoed == a2));

    // the first answer fills the slot; a second is ignored
    peer2.handle_incoming_msg(info1.peer_addr, reply);
    assert_eq!(peer2.our_connection_info().unwrap().peer_addr, a2);
    peer2.handle_incoming_msg(info1.peer_addr, WireMsg::EndpointEchoResp(addr(7, 7)));
    assert_eq!(peer2.our_connection_info().unwrap().peer_addr, a2);
}

#[test]
fn every_error_kind_surfaces_as_a_connection_failure() {
    let kinds = vec![
        QuicP2pError::CertificateParseError,
        QuicP2pError::QuicConnectError,
        QuicP2pError::QuicProtocolError,
        QuicP2pError::Serialisation,
        QuicP2pError::Io,
    ];
    let mut o = 10u8;
    for kind in kinds {
        let mut ctx = node(2, 5002, b"cert");
        let a = addr(o, 6000);
        ctx.handle_connect_err(a, kind);
        assert!(matches!(
            ctx.events.last(),
            Some(Event::ConnectionFailure { peer_addr, error }) if *peer_addr == a && *error == kind
        ));
        o += 1;
    }
    // a fired terminator and a duplicate report nothing
    let mut ctx = node(2, 5002, b"cert");
    ctx.handle_connect_err(addr(1, 1), QuicP2pError::ConnectionCancelled);
    ctx.handle_connect_err(addr(1, 1), QuicP2pError::DuplicateConnectionToPeer {
        peer_addr: addr(1, 1),
    });
    assert!(ctx.events.is_empty());
}

#[test]
fn send_to_an_unreachable_client_is_reported_unsent() {
    let mut ctx = node(2, 5002, b"cert-two");
    let target = addr(5, 5005);
    ctx.send(Peer::Client { peer_addr: target }, b"nope".to_vec());
    assert_eq!(ctx.events.len(), 1);
    assert!(matches!(
        &ctx.events[0],
        Event::UnsentUserMessage { peer_addr, msg } if *peer_addr == target && msg == b"nope"
    ));
    // a Client cannot be dialled, so no attempt was started
    assert!(ctx.actions.is_empty());
}

fn peer_addr_of(p: &Peer) -> PeerAddr {
    match p {
        Peer::Node { node_info } => node_info.peer_addr,
        Peer::Client { peer_addr } => *peer_addr,
    }
}
