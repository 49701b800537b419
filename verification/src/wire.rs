//! Wire framing: every unit transmitted on a stream is a length-prefixed,
//! tagged message. The layout (big-endian length width, tag bytes, address
//! encoding) is fixed at library scope and byte-identical across peers.

use vstd::prelude::*;
use crate::types::{IpBytes, PeerAddr};
use vstd::arithmetic::div_mod::lemma_fundamental_div_mod;

verus! {

/// The first message exchanged after the QUIC handshake, classifying the
/// initiator.
#[derive(Clone, Debug)]
pub enum Handshake {
    /// The initiator is a full Node; it presents its certificate so the
    /// receiver can dial back.
    Node { cert_der: Vec<u8> },
    /// The initiator is a Client: no inbound to it is ever expected.
    Client,
}

/// Tagged envelope for everything that crosses a stream.
#[derive(Clone, Debug)]
pub enum WireMsg {
    Handshake(Handshake),
    /// Server-originated report of the external address it observed.
    EndpointEcho(PeerAddr),
    EndpointEchoReq,
    EndpointEchoResp(PeerAddr),
    /// Opaque application payload.
    UserMsg(Vec<u8>),
}

/// Mathematical model of a wire message: certificate and payload bytes as
/// sequences.
pub enum WireMsgView {
    HandshakeNode { cert_der: Seq<u8> },
    HandshakeClient,
    EndpointEcho { addr: PeerAddr },
    EndpointEchoReq,
    EndpointEchoResp { addr: PeerAddr },
    UserMsg { msg: Seq<u8> },
}

impl View for WireMsg {
    type V = WireMsgView;

    open spec fn view(&self) -> WireMsgView {
        match *self {
            WireMsg::Handshake(Handshake::Node { cert_der }) =>
                WireMsgView::HandshakeNode { cert_der: cert_der@ },
            WireMsg::Handshake(Handshake::Client) => WireMsgView::HandshakeClient,
            WireMsg::EndpointEcho(addr) => WireMsgView::EndpointEcho { addr },
            WireMsg::EndpointEchoReq => WireMsgView::EndpointEchoReq,
            WireMsg::EndpointEchoResp(addr) => WireMsgView::EndpointEchoResp { addr },
            WireMsg::UserMsg(msg) => WireMsgView::UserMsg { msg: msg@ },
        }
    }
}

impl WireMsg {
    /// A user payload, as submitted through `send`.
    pub open spec fn is_user_msg(self) -> bool {
        self is UserMsg
    }
}

/// Big-endian bytes of a sixteen-bit value.
pub open spec fn spec_u16_bytes(x: u16) -> Seq<u8> {
    seq![(x / 256) as u8, (x % 256) as u8]
}

/// Value of two big-endian bytes.
pub open spec fn spec_u16_val(b0: u8, b1: u8) -> u16 {
    ((b0 as int) * 256 + (b1 as int)) as u16
}

/// Big-endian bytes of a thirty-two-bit value: the two sixteen-bit halves.
pub open spec fn spec_u32_bytes(x: u32) -> Seq<u8> {
    spec_u16_bytes((x / 65536) as u16) + spec_u16_bytes((x % 65536) as u16)
}

/// Value of four big-endian bytes.
pub open spec fn spec_u32_val(b0: u8, b1: u8, b2: u8, b3: u8) -> int {
    (spec_u16_val(b0, b1) as int) * 65536 + (spec_u16_val(b2, b3) as int)
}

/// Encoding of an address: a family tag, the raw IP bytes, then the port.
pub open spec fn spec_addr_bytes(a: PeerAddr) -> Seq<u8> {
    match a.ip {
        IpBytes::V4 { o0, o1, o2, o3 } => seq![
            0u8, o0, o1, o2, o3, (a.port / 256) as u8, (a.port % 256) as u8,
        ],
        IpBytes::V6 { s0, s1, s2, s3, s4, s5, s6, s7 } => seq![
            1u8,
            (s0 / 256) as u8, (s0 % 256) as u8,
            (s1 / 256) as u8, (s1 % 256) as u8,
            (s2 / 256) as u8, (s2 % 256) as u8,
            (s3 / 256) as u8, (s3 % 256) as u8,
            (s4 / 256) as u8, (s4 % 256) as u8,
            (s5 / 256) as u8, (s5 % 256) as u8,
            (s6 / 256) as u8, (s6 % 256) as u8,
            (s7 / 256) as u8, (s7 % 256) as u8,
            (a.port / 256) as u8, (a.port % 256) as u8,
        ],
    }
}

/// Parse of an encoded address; `None` on any malformed input.
pub open spec fn spec_parse_addr(s: Seq<u8>) -> Option<PeerAddr> {
    if s.len() == 7 && s[0] == 0u8 {
        Some(PeerAddr {
            ip: IpBytes::V4 { o0: s[1], o1: s[2], o2: s[3], o3: s[4] },
            port: spec_u16_val(s[5], s[6]),
        })
    } else if s.len() == 19 && s[0] == 1u8 {
        Some(PeerAddr {
            ip: IpBytes::V6 {
                s0: spec_u16_val(s[1], s[2]),
                s1: spec_u16_val(s[3], s[4]),
                s2: spec_u16_val(s[5], s[6]),
                s3: spec_u16_val(s[7], s[8]),
                s4: spec_u16_val(s[9], s[10]),
                s5: spec_u16_val(s[11], s[12]),
                s6: spec_u16_val(s[13], s[14]),
                s7: spec_u16_val(s[15], s[16]),
            },
            port: spec_u16_val(s[17], s[18]),
        })
    } else {
        None
    }
}

/// Payload of a message: one tag byte, then the variant's body.
pub open spec fn spec_serialise(v: WireMsgView) -> Seq<u8> {
    match v {
        WireMsgView::HandshakeNode { cert_der } => seq![0u8] + cert_der,
        WireMsgView::HandshakeClient => seq![1u8],
        WireMsgView::EndpointEcho { addr } => seq![2u8] + spec_addr_bytes(addr),
        WireMsgView::EndpointEchoReq => seq![3u8],
        WireMsgView::EndpointEchoResp { addr } => seq![4u8] + spec_addr_bytes(addr),
        WireMsgView::UserMsg { msg } => seq![5u8] + msg,
    }
}

/// Parse of a payload; `None` on an unknown tag or malformed body.
pub open spec fn spec_deserialise(s: Seq<u8>) -> Option<WireMsgView> {
    if s.len() < 1 {
        None
    } else {
        let body = s.subrange(1, s.len() as int);
        if s[0] == 0u8 {
            Some(WireMsgView::HandshakeNode { cert_der: body })
        } else if s[0] == 1u8 {
            if body.len() == 0 { Some(WireMsgView::HandshakeClient) } else { None }
        } else if s[0] == 2u8 {
            match spec_parse_addr(body) {
                Some(addr) => Some(WireMsgView::EndpointEcho { addr }),
                None => None,
            }
        } else if s[0] == 3u8 {
            if body.len() == 0 { Some(WireMsgView::EndpointEchoReq) } else { None }
        } else if s[0] == 4u8 {
            match spec_parse_addr(body) {
                Some(addr) => Some(WireMsgView::EndpointEchoResp { addr }),
                None => None,
            }
        } else if s[0] == 5u8 {
            Some(WireMsgView::UserMsg { msg: body })
        } else {
            None
        }
    }
}

/// A full frame: four length bytes, then exactly that many payload bytes.
pub open spec fn spec_frame(v: WireMsgView) -> Seq<u8> {
    spec_u32_bytes(spec_serialise(v).len() as u32) + spec_serialise(v)
}

/// Parse of a full frame; the input must be exactly one frame.
pub open spec fn spec_parse_frame(s: Seq<u8>) -> Option<WireMsgView> {
    if s.len() < 4 {
        None
    } else if spec_u32_val(s[0], s[1], s[2], s[3]) == s.len() - 4 {
        spec_deserialise(s.subrange(4, s.len() as int))
    } else {
        None
    }
}

/// Recomposing the two bytes of a sixteen-bit value gives the value back.
pub proof fn lemma_u16_round(x: u16)
    ensures
        spec_u16_val((x / 256) as u8, (x % 256) as u8) == x,
{
    lemma_fundamental_div_mod(x as int, 256);
}

/// Recomposing the four bytes of a thirty-two-bit value gives the value back.
pub proof fn lemma_u32_round(x: u32)
    ensures
        spec_u32_val(
            spec_u32_bytes(x)[0], spec_u32_bytes(x)[1],
            spec_u32_bytes(x)[2], spec_u32_bytes(x)[3],
        ) == x,
{
    let hi = (x / 65536) as u16;
    let lo = (x % 65536) as u16;
    lemma_fundamental_div_mod(x as int, 65536);
    lemma_u16_round(hi);
    lemma_u16_round(lo);
    assert(spec_u32_bytes(x)[0] == (hi / 256) as u8);
    assert(spec_u32_bytes(x)[1] == (hi % 256) as u8);
    assert(spec_u32_bytes(x)[2] == (lo / 256) as u8);
    assert(spec_u32_bytes(x)[3] == (lo % 256) as u8);
}

/// An encoded address parses back to the address it came from.
pub proof fn lemma_addr_round(a: PeerAddr)
    ensures
        spec_parse_addr(spec_addr_bytes(a)) == Some(a),
{
    lemma_u16_round(a.port);
    match a.ip {
        IpBytes::V4 { .. } => {}
        IpBytes::V6 { s0, s1, s2, s3, s4, s5, s6, s7 } => {
            lemma_u16_round(s0);
            lemma_u16_round(s1);
            lemma_u16_round(s2);
            lemma_u16_round(s3);
            lemma_u16_round(s4);
            lemma_u16_round(s5);
            lemma_u16_round(s6);
            lemma_u16_round(s7);
        }
    }
}

/// A serialised payload deserialises to the message it came from, for
/// every variant.
pub proof fn lemma_payload_round_trip(v: WireMsgView)
    ensures
        spec_deserialise(spec_serialise(v)) == Some(v),
{
    let s = spec_serialise(v);
    match v {
        WireMsgView::HandshakeNode { cert_der } => {
            assert(s.subrange(1, s.len() as int) =~= cert_der);
        }
        WireMsgView::HandshakeClient => {
            assert(s.subrange(1, s.len() as int) =~= Seq::<u8>::empty());
        }
        WireMsgView::EndpointEcho { addr } => {
            assert(s.subrange(1, s.len() as int) =~= spec_addr_bytes(addr));
            lemma_addr_round(addr);
        }
        WireMsgView::EndpointEchoReq => {
            assert(s.subrange(1, s.len() as int) =~= Seq::<u8>::empty());
        }
        WireMsgView::EndpointEchoResp { addr } => {
            assert(s.subrange(1, s.len() as int) =~= spec_addr_bytes(addr));
            lemma_addr_round(addr);
        }
        WireMsgView::UserMsg { msg } => {
            assert(s.subrange(1, s.len() as int) =~= msg);
        }
    }
}

/// A framed message parses back to the message it came from, for every
/// variant whose payload fits the four-byte length prefix.
pub proof fn lemma_wire_msg_round_trip(v: WireMsgView)
    requires
        spec_serialise(v).len() < 0x1_0000_0000,
    ensures
        spec_parse_frame(spec_frame(v)) == Some(v),
{
    let p = spec_serialise(v);
    let n = p.len() as u32;
    let f = spec_frame(v);
    lemma_u32_round(n);
    assert(f[0] == spec_u32_bytes(n)[0]);
    assert(f[1] == spec_u32_bytes(n)[1]);
    assert(f[2] == spec_u32_bytes(n)[2]);
    assert(f[3] == spec_u32_bytes(n)[3]);
    assert(f.subrange(4, f.len() as int) =~= p);
    lemma_payload_round_trip(v);
}

/// Bytes of `v` from `a` (inclusive) to `b` (exclusive), as a fresh vector.
pub fn copy_range(v: &Vec<u8>, a: usize, b: usize) -> (r: Vec<u8>)
    requires
        a <= b <= v@.len(),
    ensures
        r@ == v@.subrange(a as int, b as int),
{
    let mut out: Vec<u8> = Vec::new();
    let mut i: usize = a;
    while i < b
        invariant
            a <= i <= b <= v@.len(),
            out@ == v@.subrange(a as int, i as int),
        decreases b - i,
    {
        out.push(v[i]);
        assert(out@ =~= v@.subrange(a as int, i + 1 as int));
        i = i + 1;
    }
    out
}

/// Append the two big-endian bytes of `x`.
fn push_u16(out: &mut Vec<u8>, x: u16)
    ensures
        final(out)@ == old(out)@ + spec_u16_bytes(x),
{
    proof {
        lemma_fundamental_div_mod(x as int, 256);
    }
    let hi: u8 = (x / 256) as u8;
    let lo: u8 = (x % 256) as u8;
    out.push(hi);
    out.push(lo);
    assert(out@ =~= old(out)@ + spec_u16_bytes(x));
}

/// Value of two big-endian bytes.
fn read_u16(b0: u8, b1: u8) -> (r: u16)
    ensures
        r == spec_u16_val(b0, b1),
{
    (b0 as u16) * 256 + (b1 as u16)
}

/// Append the encoding of an address.
fn push_addr(out: &mut Vec<u8>, a: &PeerAddr)
    ensures
        final(out)@ == old(out)@ + spec_addr_bytes(*a),
{
    match a.ip {
        IpBytes::V4 { o0, o1, o2, o3 } => {
            out.push(0u8);
            out.push(o0);
            out.push(o1);
            out.push(o2);
            out.push(o3);
            push_u16(out, a.port);
            assert(out@ =~= old(out)@ + spec_addr_bytes(*a));
        }
        IpBytes::V6 { s0, s1, s2, s3, s4, s5, s6, s7 } => {
            out.push(1u8);
            push_u16(out, s0);
            push_u16(out, s1);
            push_u16(out, s2);
            push_u16(out, s3);
            push_u16(out, s4);
            push_u16(out, s5);
            push_u16(out, s6);
            push_u16(out, s7);
            push_u16(out, a.port);
            assert(out@ =~= old(out)@ + spec_addr_bytes(*a));
        }
    }
}

/// Parse a whole vector as one encoded address.
fn parse_addr(v: &Vec<u8>) -> (r: Option<PeerAddr>)
    ensures
        r == spec_parse_addr(v@),
{
    if v.len() == 7 && v[0] == 0u8 {
        let port = read_u16(v[5], v[6]);
        Some(PeerAddr {
            ip: IpBytes::V4 { o0: v[1], o1: v[2], o2: v[3], o3: v[4] },
            port,
        })
    } else if v.len() == 19 && v[0] == 1u8 {
        let s0 = read_u16(v[1], v[2]);
        let s1 = read_u16(v[3], v[4]);
        let s2 = read_u16(v[5], v[6]);
        let s3 = read_u16(v[7], v[8]);
        let s4 = read_u16(v[9], v[10]);
        let s5 = read_u16(v[11], v[12]);
        let s6 = read_u16(v[13], v[14]);
        let s7 = read_u16(v[15], v[16]);
        let port = read_u16(v[17], v[18]);
        Some(PeerAddr {
            ip: IpBytes::V6 { s0, s1, s2, s3, s4, s5, s6, s7 },
            port,
        })
    } else {
        None
    }
}

/// Serialise a message into one frame: four big-endian length bytes, the
/// tag byte, then the body.
pub fn serialise_wire_msg(m: &WireMsg) -> (r: Vec<u8>)
    requires
        spec_serialise(m@).len() < 0x1_0000_0000,
    ensures
        r@ == spec_frame(m@),
{
    let mut payload: Vec<u8> = Vec::new();
    match m {
        WireMsg::Handshake(Handshake::Node { cert_der }) => {
            payload.push(0u8);
            let mut body = crate::types::clone_bytes(cert_der);
            payload.append(&mut body);
            assert(payload@ =~= spec_serialise(m@));
        }
        WireMsg::Handshake(Handshake::Client) => {
            payload.push(1u8);
            assert(payload@ =~= spec_serialise(m@));
        }
        WireMsg::EndpointEcho(addr) => {
            payload.push(2u8);
            push_addr(&mut payload, addr);
            assert(payload@ =~= spec_serialise(m@));
        }
        WireMsg::EndpointEchoReq => {
            payload.push(3u8);
            assert(payload@ =~= spec_serialise(m@));
        }
        WireMsg::EndpointEchoResp(addr) => {
            payload.push(4u8);
            push_addr(&mut payload, addr);
            assert(payload@ =~= spec_serialise(m@));
        }
        WireMsg::UserMsg(msg) => {
            payload.push(5u8);
            let mut body = crate::types::clone_bytes(msg);
            payload.append(&mut body);
            assert(payload@ =~= spec_serialise(m@));
        }
    }
    let n: u32 = payload.len() as u32;
    let mut out: Vec<u8> = Vec::new();
    push_u16(&mut out, (n / 65536) as u16);
    push_u16(&mut out, (n % 65536) as u16);
    assert(out@ =~= spec_u32_bytes(n));
    let mut body = payload;
    out.append(&mut body);
    assert(out@ =~= spec_frame(m@));
    out
}

/// Deserialise exactly one frame; `None` when the bytes are not one
/// well-formed frame.
pub fn deserialise_wire_msg(bytes: &Vec<u8>) -> (r: Option<WireMsg>)
    ensures
        match r {
            Some(m) => spec_parse_frame(bytes@) == Some(m@),
            None => spec_parse_frame(bytes@) is None,
        },
{
    if bytes.len() < 4 {
        return None;
    }
    let n0 = read_u16(bytes[0], bytes[1]);
    let n1 = read_u16(bytes[2], bytes[3]);
    let n: u64 = (n0 as u64) * 65536 + (n1 as u64);
    assert(n == spec_u32_val(bytes@[0], bytes@[1], bytes@[2], bytes@[3]));
    if (bytes.len() - 4) as u64 != n {
        return None;
    }
    let payload = copy_range(bytes, 4, bytes.len());
    assert(payload@ =~= bytes@.subrange(4, bytes@.len() as int));
    if payload.len() < 1 {
        return None;
    }
    let tag = payload[0];
    let body = copy_range(&payload, 1, payload.len());
    assert(body@ =~= payload@.subrange(1, payload@.len() as int));
    if tag == 0u8 {
        Some(WireMsg::Handshake(Handshake::Node { cert_der: body }))
    } else if tag == 1u8 {
        if body.len() == 0 {
            Some(WireMsg::Handshake(Handshake::Client))
        } else {
            None
        }
    } else if tag == 2u8 {
        match parse_addr(&body) {
            Some(addr) => Some(WireMsg::EndpointEcho(addr)),
            None => None,
        }
    } else if tag == 3u8 {
        if body.len() == 0 {
            Some(WireMsg::EndpointEchoReq)
        } else {
            None
        }
    } else if tag == 4u8 {
        match parse_addr(&body) {
            Some(addr) => Some(WireMsg::EndpointEchoResp(addr)),
            None => None,
        }
    } else if tag == 5u8 {
        Some(WireMsg::UserMsg(body))
    } else {
        None
    }
}

} // verus!
