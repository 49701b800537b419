use quic_p2p::cache::BootstrapCache;
use quic_p2p::types::{IpBytes, NodeInfo, PeerAddr};
use quic_p2p::wire::{deserialise_wire_msg, serialise_wire_msg, Handshake, WireMsg};

fn v4(o3: u8, port: u16) -> PeerAddr {
    PeerAddr { ip: IpBytes::V4 { o0: 10, o1: 0, o2: 0, o3 }, port }
}

fn v6(port: u16) -> PeerAddr {
    PeerAddr {
        ip: IpBytes::V6 {
            s0: 0x2001,
            s1: 0x0db8,
            s2: 0,
            s3: 0,
            s4: 0,
            s5: 0,
            s6: 0xabcd,
            s7: 0x1234,
        },
        port,
    }
}

fn round_trips(m: &WireMsg) {
    let bytes = serialise_wire_msg(m);
    let back = deserialise_wire_msg(&bytes).expect("frame did not parse");
    // byte-identical re-serialisation means the value came back unchanged
    assert_eq!(serialise_wire_msg(&back), bytes);
}

#[test]
fn wire_msg_round_trips_for_every_variant() {
    round_trips(&WireMsg::Handshake(Handshake::Node { cert_der: b"some-der-bytes".to_vec() }));
    round_trips(&WireMsg::Handshake(Handshake::Node { cert_der: Vec::new() }));
    round_trips(&WireMsg::Handshake(Handshake::Client));
    round_trips(&WireMsg::EndpointEcho(v4(7, 443)));
    round_trips(&WireMsg::EndpointEcho(v6(65535)));
    round_trips(&WireMsg::EndpointEchoReq);
    round_trips(&WireMsg::EndpointEchoResp(v4(1, 0)));
    round_trips(&WireMsg::EndpointEchoResp(v6(1)));
    round_trips(&WireMsg::UserMsg(b"payload".to_vec()));
    round_trips(&WireMsg::UserMsg(Vec::new()));
}

#[test]
fn wire_layout_is_length_prefixed_and_tagged() {
    // Handshake(Client): payload is the single tag byte 1
    let bytes = serialise_wire_msg(&WireMsg::Handshake(Handshake::Client));
    assert_eq!(bytes, vec![0, 0, 0, 1, 1]);

    // EndpointEchoResp of 10.0.0.7:0x1234: tag 4, family 0, octets, port
    let bytes = serialise_wire_msg(&WireMsg::EndpointEchoResp(v4(7, 0x1234)));
    assert_eq!(bytes, vec![0, 0, 0, 8, 4, 0, 10, 0, 0, 7, 0x12, 0x34]);

    // UserMsg: tag 5 then the raw payload
    let bytes = serialise_wire_msg(&WireMsg::UserMsg(vec![0xaa, 0xbb]));
    assert_eq!(bytes, vec![0, 0, 0, 3, 5, 0xaa, 0xbb]);
}

#[test]
fn malformed_frames_are_rejected() {
    assert!(deserialise_wire_msg(&vec![]).is_none());
    assert!(deserialise_wire_msg(&vec![0, 0, 0, 1]).is_none()); // length without payload
    assert!(deserialise_wire_msg(&vec![0, 0, 0, 2, 1]).is_none()); // wrong length
    assert!(deserialise_wire_msg(&vec![0, 0, 0, 1, 9]).is_none()); // unknown tag
    assert!(deserialise_wire_msg(&vec![0, 0, 0, 2, 1, 0]).is_none()); // client handshake with body
    assert!(deserialise_wire_msg(&vec![0, 0, 0, 2, 4, 0]).is_none()); // truncated address
}

fn info(o3: u8) -> NodeInfo {
    NodeInfo { peer_addr: v4(o3, 1000), peer_cert_der: vec![o3] }
}

#[test]
fn cache_moves_reinserted_entries_to_the_back() {
    let mut cache = BootstrapCache::new(64);
    cache.add_peer(info(1));
    cache.add_peer(info(2));
    cache.add_peer(info(3));
    cache.add_peer(info(1));
    let snap = cache.snapshot();
    let addrs: Vec<u8> = snap
        .iter()
        .map(|i| match i.peer_addr.ip {
            IpBytes::V4 { o3, .. } => o3,
            IpBytes::V6 { .. } => 0,
        })
        .collect();
    assert_eq!(addrs, vec![2, 3, 1]);
}

#[test]
fn cache_evicts_from_the_front_on_overflow() {
    let mut cache = BootstrapCache::new(64);
    for o in 0..65u16 {
        cache.add_peer(NodeInfo {
            peer_addr: v4((o % 256) as u8, o),
            peer_cert_der: vec![1],
        });
    }
    assert_eq!(cache.len(), 64);
    let snap = cache.snapshot();
    // the very first entry (port 0) was evicted
    assert_eq!(snap[0].peer_addr.port, 1);
    assert_eq!(snap[63].peer_addr.port, 64);
}
