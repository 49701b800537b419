//! Plain-value identities of remote participants: network addresses,
//! certificate-carrying node info, and the peer classification.

use vstd::prelude::*;

verus! {

/// The IP half of a UDP endpoint, held as plain integers so that the
/// wire codec and the connection table can reason about it directly.
#[derive(Clone, Copy, PartialEq, Eq, Structural, Debug, Hash)]
pub enum IpBytes {
    /// The four dotted-quad octets, most significant first.
    V4 { o0: u8, o1: u8, o2: u8, o3: u8 },
    /// The eight sixteen-bit segments, most significant first.
    V6 { s0: u16, s1: u16, s2: u16, s3: u16, s4: u16, s5: u16, s6: u16, s7: u16 },
}

/// The UDP socket endpoint of a remote participant. Sole key for
/// connection records.
#[derive(Clone, Copy, PartialEq, Eq, Structural, Debug, Hash)]
pub struct PeerAddr {
    pub ip: IpBytes,
    pub port: u16,
}

/// Address plus DER-encoded self-signed certificate: uniquely identifies
/// a Node. The certificate bytes are carried opaquely and compared by
/// byte equality.
#[derive(Clone, Debug)]
pub struct NodeInfo {
    pub peer_addr: PeerAddr,
    pub peer_cert_der: Vec<u8>,
}

/// Mathematical model of a `NodeInfo`: the certificate as a byte sequence.
pub struct NodeInfoView {
    pub peer_addr: PeerAddr,
    pub peer_cert_der: Seq<u8>,
}

impl View for NodeInfo {
    type V = NodeInfoView;

    open spec fn view(&self) -> NodeInfoView {
        NodeInfoView { peer_addr: self.peer_addr, peer_cert_der: self.peer_cert_der@ }
    }
}

impl NodeInfo {
    /// Two `NodeInfo` values denote the same Node: same endpoint and the
    /// same certificate bytes.
    pub open spec fn same(self, other: NodeInfo) -> bool {
        self@ == other@
    }

    /// Copy of this info whose fields equal the original's.
    pub fn duplicate(&self) -> (r: NodeInfo)
        ensures
            r.same(*self),
    {
        let cert = clone_bytes(&self.peer_cert_der);
        NodeInfo { peer_addr: self.peer_addr, peer_cert_der: cert }
    }

    /// Byte-equality comparison of two infos.
    pub fn same_info(&self, other: &NodeInfo) -> (r: bool)
        ensures
            r == self.same(*other),
    {
        self.peer_addr == other.peer_addr && bytes_eq(&self.peer_cert_der, &other.peer_cert_der)
    }
}

/// A remote participant as carried by lifecycle events: a full Node with
/// its certificate, or a Client known only by its endpoint.
#[derive(Clone, Debug)]
pub enum Peer {
    Node { node_info: NodeInfo },
    Client { peer_addr: PeerAddr },
}

/// Mathematical model of a `Peer`.
pub enum PeerView {
    Node { node_info: NodeInfoView },
    Client { peer_addr: PeerAddr },
}

impl PeerView {
    /// The endpoint this peer is reachable (or replying) at.
    pub open spec fn addr(self) -> PeerAddr {
        match self {
            PeerView::Node { node_info } => node_info.peer_addr,
            PeerView::Client { peer_addr } => peer_addr,
        }
    }
}

impl View for Peer {
    type V = PeerView;

    open spec fn view(&self) -> PeerView {
        match *self {
            Peer::Node { ref node_info } => PeerView::Node { node_info: node_info@ },
            Peer::Client { peer_addr } => PeerView::Client { peer_addr },
        }
    }
}

impl Peer {
    /// The endpoint this peer is reachable (or replying) at.
    pub open spec fn addr(self) -> PeerAddr {
        self@.addr()
    }

    /// The certificate bytes, for a Node peer.
    pub fn peer_cert_der(&self) -> (r: Option<&Vec<u8>>)
        ensures
            match *self {
                Peer::Node { node_info } => r == Some(&node_info.peer_cert_der),
                Peer::Client { .. } => r is None,
            },
    {
        match self {
            Peer::Node { node_info } => Some(&node_info.peer_cert_der),
            Peer::Client { .. } => None,
        }
    }
}

/// Exact copy of a byte vector.
pub fn clone_bytes(v: &Vec<u8>) -> (r: Vec<u8>)
    ensures
        r@ == v@,
{
    let mut out: Vec<u8> = Vec::new();
    let mut i: usize = 0;
    while i < v.len()
        invariant
            i <= v@.len(),
            out@ == v@.subrange(0, i as int),
        decreases v@.len() - i,
    {
        out.push(v[i]);
        assert(out@ == v@.subrange(0, i + 1 as int));
        i = i + 1;
    }
    assert(v@.subrange(0, v@.len() as int) == v@);
    out
}

/// Byte-by-byte equality of two byte vectors.
pub fn bytes_eq(a: &Vec<u8>, b: &Vec<u8>) -> (r: bool)
    ensures
        r == (a@ == b@),
{
    if a.len() != b.len() {
        assert(a@ != b@) by {
            assert(a@.len() != b@.len());
        }
        return false;
    }
    let mut i: usize = 0;
    while i < a.len()
        invariant
            i <= a@.len(),
            a@.len() == b@.len(),
            forall|j: int| 0 <= j < i ==> a@[j] == b@[j],
        decreases a@.len() - i,
    {
        if a[i] != b[i] {
            return false;
        }
        i = i + 1;
    }
    proof {
        assert(a@ =~= b@);
    }
    true
}

} // verus!
