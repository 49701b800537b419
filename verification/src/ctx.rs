//! The process-wide context and the connection-management state machine.
//!
//! Every transition is a plain function of the current state and one
//! input. I/O never happens here: a transition records the actions the
//! host must perform (dial, write, cancel, sever) and the events the host
//! observes, in order, in the `actions` and `events` logs.

use vstd::prelude::*;
use crate::OurType;
use crate::cache::{BootstrapCache, spec_cache_add, MIN_CACHE_CAPACITY};
use crate::conn::{BootstrapGroup, Connection, FromPeer, ToPeer};
use crate::event::{
    action_views, count_success_for, event_views, Action, ActionView, Event, EventView,
    QuicP2pError,
};
use crate::types::{clone_bytes, NodeInfo, NodeInfoView, Peer, PeerAddr};
use crate::wire::{Handshake, WireMsg, WireMsgView};

verus! {

/// No two records share an address.
pub open spec fn unique_addrs(s: Seq<Connection>) -> bool {
    forall|i: int, j: int|
        0 <= i < j < s.len() ==> s[i].peer_addr != s[j].peer_addr
}

/// Some record in `s` is keyed by `a`.
pub open spec fn seq_has_addr(s: Seq<Connection>, a: PeerAddr) -> bool {
    exists|i: int| 0 <= i < s.len() && s[i].peer_addr == a
}

/// Index of the record keyed by `a` (unique when `unique_addrs` holds).
pub open spec fn addr_index(s: Seq<Connection>, a: PeerAddr) -> int {
    choose|i: int| 0 <= i < s.len() && s[i].peer_addr == a
}

/// The record keyed by `a`.
pub open spec fn conn_of(s: Seq<Connection>, a: PeerAddr) -> Connection {
    s[addr_index(s, a)]
}

/// Every position holds the record that `conn_of` finds for its address.
pub proof fn lemma_addr_index_of(s: Seq<Connection>, i: int)
    requires
        unique_addrs(s),
        0 <= i < s.len(),
    ensures
        seq_has_addr(s, s[i].peer_addr),
        addr_index(s, s[i].peer_addr) == i,
        conn_of(s, s[i].peer_addr) == s[i],
{
    assert(seq_has_addr(s, s[i].peer_addr));
    let j = addr_index(s, s[i].peer_addr);
    assert(0 <= j < s.len() && s[j].peer_addr == s[i].peer_addr);
    if j < i {
        assert(s[j].peer_addr != s[i].peer_addr);
    } else if i < j {
        assert(s[i].peer_addr != s[j].peer_addr);
    }
}

/// Replacing the record at `i` by one with the same address preserves
/// uniqueness and every other record.
pub proof fn lemma_same_except_update(pre: Seq<Connection>, post: Seq<Connection>, i: int)
    requires
        unique_addrs(pre),
        0 <= i < pre.len(),
        post.len() == pre.len(),
        post[i].peer_addr == pre[i].peer_addr,
        forall|k: int| 0 <= k < pre.len() && k != i ==> post[k] == pre[k],
    ensures
        unique_addrs(post),
        forall|b: PeerAddr| #![auto] seq_has_addr(post, b) == seq_has_addr(pre, b),
        forall|b: PeerAddr| #![auto]
            b != pre[i].peer_addr && seq_has_addr(pre, b) ==> conn_of(post, b) == conn_of(pre, b),
        seq_has_addr(post, pre[i].peer_addr),
        conn_of(post, pre[i].peer_addr) == post[i],
{
    assert(forall|k: int| 0 <= k < post.len() ==> post[k].peer_addr == pre[k].peer_addr);
    assert(unique_addrs(post));
    assert forall|b: PeerAddr| #![auto] seq_has_addr(post, b) == seq_has_addr(pre, b) by {
        if seq_has_addr(pre, b) {
            let k = addr_index(pre, b);
            assert(post[k].peer_addr == b);
        }
        if seq_has_addr(post, b) {
            let k = choose|k: int| 0 <= k < post.len() && post[k].peer_addr == b;
            assert(pre[k].peer_addr == b);
        }
    }
    assert forall|b: PeerAddr| #![auto]
        b != pre[i].peer_addr && seq_has_addr(pre, b) implies conn_of(post, b) == conn_of(pre, b) by {
        let k = addr_index(pre, b);
        assert(0 <= k < pre.len() && pre[k].peer_addr == b);
        assert(k != i);
        assert(post[k].peer_addr == b);
        lemma_addr_index_of(post, k);
        lemma_addr_index_of(pre, k);
    }
    lemma_addr_index_of(post, i);
}

/// Removing the record at `i` preserves uniqueness and every other
/// record, and leaves no record at its address.
pub proof fn lemma_same_except_remove(pre: Seq<Connection>, i: int)
    requires
        unique_addrs(pre),
        0 <= i < pre.len(),
    ensures
        unique_addrs(pre.remove(i)),
        !seq_has_addr(pre.remove(i), pre[i].peer_addr),
        forall|b: PeerAddr| #![auto]
            b != pre[i].peer_addr ==> seq_has_addr(pre.remove(i), b) == seq_has_addr(pre, b),
        forall|b: PeerAddr| #![auto]
            b != pre[i].peer_addr && seq_has_addr(pre, b)
                ==> conn_of(pre.remove(i), b) == conn_of(pre, b),
{
    let post = pre.remove(i);
    let a = pre[i].peer_addr;
    assert(forall|k: int| 0 <= k < i ==> post[k] == pre[k]);
    assert(forall|k: int| i <= k < post.len() ==> post[k] == pre[k + 1]);
    assert forall|x: int, y: int| 0 <= x < y < post.len() implies
        post[x].peer_addr != post[y].peer_addr by {
        let px = if x < i { x } else { x + 1 };
        let py = if y < i { y } else { y + 1 };
        assert(post[x] == pre[px] && post[y] == pre[py]);
    }
    assert forall|k: int| 0 <= k < post.len() implies post[k].peer_addr != a by {
        let pk = if k < i { k } else { k + 1 };
        assert(post[k] == pre[pk] && pk != i);
    }
    assert forall|b: PeerAddr| #![auto]
        b != a implies seq_has_addr(post, b) == seq_has_addr(pre, b) by {
        if seq_has_addr(pre, b) {
            let k = addr_index(pre, b);
            assert(0 <= k < pre.len() && pre[k].peer_addr == b);
            assert(k != i);
            let pk = if k < i { k } else { k - 1 };
            assert(post[pk] == pre[k]);
            assert(seq_has_addr(post, b));
        }
        if seq_has_addr(post, b) {
            let k = choose|k: int| 0 <= k < post.len() && post[k].peer_addr == b;
            let pk = if k < i { k } else { k + 1 };
            assert(pre[pk].peer_addr == b);
        }
    }
    assert forall|b: PeerAddr| #![auto]
        b != a && seq_has_addr(pre, b) implies conn_of(post, b) == conn_of(pre, b) by {
        let k = addr_index(pre, b);
        lemma_addr_index_of(pre, k);
        assert(k != i);
        let pk = if k < i { k } else { k - 1 };
        assert(post[pk] == pre[k]);
        lemma_addr_index_of(post, pk);
    }
}

/// Appending a record with a fresh address preserves uniqueness and every
/// existing record.
pub proof fn lemma_same_except_push(pre: Seq<Connection>, c: Connection)
    requires
        unique_addrs(pre),
        !seq_has_addr(pre, c.peer_addr),
    ensures
        unique_addrs(pre.push(c)),
        seq_has_addr(pre.push(c), c.peer_addr),
        conn_of(pre.push(c), c.peer_addr) == c,
        forall|b: PeerAddr| #![auto]
            b != c.peer_addr ==> seq_has_addr(pre.push(c), b) == seq_has_addr(pre, b),
        forall|b: PeerAddr| #![auto]
            b != c.peer_addr && seq_has_addr(pre, b)
                ==> conn_of(pre.push(c), b) == conn_of(pre, b),
{
    let post = pre.push(c);
    assert(forall|k: int| 0 <= k < pre.len() ==> post[k] == pre[k]);
    assert(post[pre.len() as int] == c);
    assert forall|x: int, y: int| 0 <= x < y < post.len() implies
        post[x].peer_addr != post[y].peer_addr by {
        if y == pre.len() {
            assert(post[x] == pre[x]);
            if pre[x].peer_addr == c.peer_addr {
                assert(seq_has_addr(pre, c.peer_addr));
            }
        }
    }
    lemma_addr_index_of(post, pre.len() as int);
    assert forall|b: PeerAddr| #![auto]
        b != c.peer_addr implies seq_has_addr(post, b) == seq_has_addr(pre, b) by {
        if seq_has_addr(pre, b) {
            let k = addr_index(pre, b);
            assert(post[k].peer_addr == b);
        }
        if seq_has_addr(post, b) {
            let k = choose|k: int| 0 <= k < post.len() && post[k].peer_addr == b;
            assert(k != pre.len());
            assert(pre[k].peer_addr == b);
        }
    }
    assert forall|b: PeerAddr| #![auto]
        b != c.peer_addr && seq_has_addr(pre, b) implies conn_of(post, b) == conn_of(pre, b) by {
        let k = addr_index(pre, b);
        lemma_addr_index_of(pre, k);
        assert(post[k] == pre[k]);
        lemma_addr_index_of(post, k);
    }
}

/// The process-wide state: identity, connection table, bootstrap cache,
/// bootstrap groups, and the two outbound logs.
pub struct Context {
    pub our_type: OurType,
    /// Our own DER-encoded certificate.
    pub our_cert_der: Vec<u8>,
    /// One-shot slot for the externally-observed address; may also be set
    /// from configuration.
    pub our_external_addr: Option<PeerAddr>,
    /// Connection records, keyed by remote address.
    pub connections: Vec<Connection>,
    pub cache: BootstrapCache,
    /// Bootstrap groups ever created; records refer to them by index.
    pub groups: Vec<BootstrapGroup>,
    /// Events observed by the host, in emission order.
    pub events: Vec<Event>,
    /// Actions the host must perform, in emission order.
    pub actions: Vec<Action>,
}

impl Context {
    /// Some record is keyed by `a`.
    pub open spec fn has_conn(self, a: PeerAddr) -> bool {
        seq_has_addr(self.connections@, a)
    }

    /// The record keyed by `a`.
    pub open spec fn conn_at(self, a: PeerAddr) -> Connection {
        conn_of(self.connections@, a)
    }

    /// A Client never holds a live inbound half.
    pub open spec fn client_inv(self) -> bool {
        self.our_type == OurType::Client ==> forall|i: int|
            0 <= i < self.connections@.len() ==> !(#[trigger] self.connections@[i].from_peer
                is Established)
    }

    /// Every group reference points into the group table.
    pub open spec fn groups_inv(self) -> bool {
        forall|i: int|
            0 <= i < self.connections@.len() ==> match (#[trigger] self.connections@[i]).bootstrap_group_id {
                Some(g) => g < self.groups@.len(),
                None => true,
            }
    }

    /// Well-formedness: at most one record per address, the Client
    /// invariant, valid group references, and a well-formed cache.
    pub open spec fn wf(self) -> bool {
        &&& unique_addrs(self.connections@)
        &&& self.client_inv()
        &&& self.groups_inv()
        &&& self.cache.wf()
    }

    /// Fresh context with no records, an empty cache and empty logs.
    pub fn new(
        our_type: OurType,
        our_cert_der: Vec<u8>,
        our_external_addr: Option<PeerAddr>,
        cache_capacity: usize,
    ) -> (r: Context)
        requires
            cache_capacity >= MIN_CACHE_CAPACITY,
        ensures
            r.wf(),
            r.our_type == our_type,
            r.our_cert_der@ == our_cert_der@,
            r.our_external_addr == our_external_addr,
            r.connections@ == Seq::<Connection>::empty(),
            r.cache@ == Seq::<crate::types::NodeInfoView>::empty(),
            r.groups@ == Seq::<BootstrapGroup>::empty(),
            r.events@ == Seq::<Event>::empty(),
            r.actions@ == Seq::<Action>::empty(),
    {
        Context {
            our_type,
            our_cert_der,
            our_external_addr,
            connections: Vec::new(),
            cache: BootstrapCache::new(cache_capacity),
            groups: Vec::new(),
            events: Vec::new(),
            actions: Vec::new(),
        }
    }

    /// Index of the record keyed by `a`, if one exists.
    fn find_conn(&self, a: PeerAddr) -> (r: Option<usize>)
        ensures
            match r {
                Some(i) => i < self.connections@.len() && self.connections@[i as int].peer_addr == a,
                None => !self.has_conn(a),
            },
    {
        let mut i: usize = 0;
        while i < self.connections.len()
            invariant
                i <= self.connections@.len(),
                forall|k: int| 0 <= k < i ==> self.connections@[k].peer_addr != a,
            decreases self.connections@.len() - i,
        {
            if self.connections[i].peer_addr == a {
                return Some(i);
            }
            i = i + 1;
        }
        None
    }

    /// Our own `NodeInfo`: fails until the externally-visible address has
    /// been learned from configuration or an endpoint echo.
    pub fn our_connection_info(&self) -> (r: Result<NodeInfo, QuicP2pError>)
        ensures
            match r {
                Ok(info) => self.our_external_addr == Some(info.peer_addr)
                    && info.peer_cert_der@ == self.our_cert_der@,
                Err(e) => e == QuicP2pError::NoEndpointEchoServerFound
                    && self.our_external_addr is None,
            },
    {
        match self.our_external_addr {
            Some(addr) => Ok(NodeInfo {
                peer_addr: addr,
                peer_cert_der: clone_bytes(&self.our_cert_der),
            }),
            None => Err(QuicP2pError::NoEndpointEchoServerFound),
        }
    }

    /// Snapshot copy of the bootstrap cache, oldest entry first.
    pub fn bootstrap_cache(&self) -> (r: Vec<NodeInfo>)
        ensures
            Seq::new(r@.len(), |i: int| r@[i]@) == self.cache@,
    {
        self.cache.snapshot()
    }
}

/// Everything observable about `post` equals `pre`.
pub open spec fn state_unchanged(pre: Context, post: Context) -> bool {
    post == pre
}

/// Identity, cache-bound and slot fields that most transitions leave
/// alone.
pub open spec fn same_identity(pre: Context, post: Context) -> bool {
    &&& post.our_type == pre.our_type
    &&& post.our_cert_der@ == pre.our_cert_der@
    &&& post.our_external_addr == pre.our_external_addr
    &&& post.cache.spec_capacity() == pre.cache.spec_capacity()
}

/// Every record other than the one keyed by `a` is untouched.
pub open spec fn same_records_except(pre: Context, post: Context, a: PeerAddr) -> bool {
    &&& forall|b: PeerAddr| b != a ==> (#[trigger] post.has_conn(b)) == pre.has_conn(b)
    &&& forall|b: PeerAddr|
        b != a && pre.has_conn(b) ==> (#[trigger] post.conn_at(b)) == pre.conn_at(b)
}

/// The `UnsentUserMessage` events reporting the first `k` buffered sends
/// that were never delivered (only user payloads are reported).
pub open spec fn unsent_prefix(ms: Seq<WireMsgView>, a: PeerAddr, k: int) -> Seq<EventView>
    decreases k,
{
    if k <= 0 {
        Seq::empty()
    } else {
        unsent_prefix(ms, a, k - 1) + (match ms[k - 1] {
            WireMsgView::UserMsg { msg } => seq![EventView::UnsentUserMessage { peer_addr: a, msg }],
            _ => Seq::<EventView>::empty(),
        })
    }
}

/// All `UnsentUserMessage` events for the buffered sends of `to`.
pub open spec fn unsent_events_of(to: ToPeer, a: PeerAddr) -> Seq<EventView> {
    unsent_prefix(to.pending_sends_view(), a, to.pending_sends_view().len() as int)
}

/// The one `ConnectionFailure` event an error yields — none for a fired
/// terminator, whose attempt ends silently.
pub open spec fn failure_suffix(e: QuicP2pError, a: PeerAddr) -> Seq<EventView> {
    if e == QuicP2pError::ConnectionCancelled {
        Seq::empty()
    } else {
        seq![EventView::ConnectionFailure { peer_addr: a, error: e }]
    }
}

/// Effect of failing an attempt to `a` with `e`: a duplicate error
/// changes nothing; any other error removes the record, reports its
/// undelivered user sends, severs the sessions, and — except for a fired
/// terminator — emits exactly one `ConnectionFailure`.
pub open spec fn connect_err_transition(
    pre: Context,
    post: Context,
    a: PeerAddr,
    e: QuicP2pError,
) -> bool {
    if e is DuplicateConnectionToPeer {
        state_unchanged(pre, post)
    } else {
        &&& same_identity(pre, post)
        &&& post.cache@ == pre.cache@
        &&& post.groups@ == pre.groups@
        &&& !post.has_conn(a)
        &&& same_records_except(pre, post, a)
        &&& if pre.has_conn(a) {
            &&& event_views(post.events@) == event_views(pre.events@)
                + unsent_events_of(pre.conn_at(a).to_peer, a)
                + failure_suffix(e, a)
            &&& action_views(post.actions@) == action_views(pre.actions@)
                .push(ActionView::SeverConnection { peer_addr: a })
        } else {
            &&& event_views(post.events@) == event_views(pre.events@) + failure_suffix(e, a)
            &&& action_views(post.actions@) == action_views(pre.actions@)
        }
    }
}

impl Context {
    /// Report every buffered user payload in `msgs` as undelivered, in
    /// order. Only the event log changes.
    fn emit_unsent(&mut self, peer_addr: PeerAddr, msgs: Vec<WireMsg>)
        ensures
            final(self).our_type == old(self).our_type,
            final(self).our_cert_der == old(self).our_cert_der,
            final(self).our_external_addr == old(self).our_external_addr,
            final(self).connections == old(self).connections,
            final(self).cache == old(self).cache,
            final(self).groups == old(self).groups,
            final(self).actions == old(self).actions,
            event_views(final(self).events@) == event_views(old(self).events@)
                + unsent_prefix(
                    crate::event::msg_views(msgs@),
                    peer_addr,
                    msgs@.len() as int,
                ),
    {
        let ghost ms = crate::event::msg_views(msgs@);
        let mut k: usize = 0;
        while k < msgs.len()
            invariant
                k <= msgs@.len(),
                ms == crate::event::msg_views(msgs@),
                self.our_type == old(self).our_type,
                self.our_cert_der == old(self).our_cert_der,
                self.our_external_addr == old(self).our_external_addr,
                self.connections == old(self).connections,
                self.cache == old(self).cache,
                self.groups == old(self).groups,
                self.actions == old(self).actions,
                event_views(self.events@) == event_views(old(self).events@)
                    + unsent_prefix(ms, peer_addr, k as int),
            decreases msgs@.len() - k,
        {
            match &msgs[k] {
                WireMsg::UserMsg(msg) => {
                    let m = clone_bytes(msg);
                    let ghost mv = msg@;
                    let ghost evs_before = self.events@;
                    let e = Event::UnsentUserMessage { peer_addr, msg: m };
                    let ghost ev = e@;
                    self.events.push(e);
                    proof {
                        assert(ev == (EventView::UnsentUserMessage { peer_addr, msg: mv }));
                        assert(ms[k as int] == msgs@[k as int]@);
                        assert(ms[k as int] == (WireMsgView::UserMsg { msg: mv }));
                        assert(unsent_prefix(ms, peer_addr, k as int + 1)
                            == unsent_prefix(ms, peer_addr, k as int) + seq![ev]);
                        assert(self.events@ == evs_before.push(e));
                        assert(event_views(evs_before.push(e))
                            =~= event_views(evs_before).push(ev));
                        assert(event_views(self.events@) =~= event_views(old(self).events@)
                            + unsent_prefix(ms, peer_addr, k as int + 1));
                    }
                }
                _ => {
                    proof {
                        assert(event_views(self.events@) =~= event_views(old(self).events@)
                            + unsent_prefix(ms, peer_addr, k + 1 as int));
                    }
                }
            }
            k = k + 1;
        }
    }

    /// Idempotent request to open an outbound session to `peer_info`,
    /// authenticated to exactly its certificate.
    ///
    /// A record whose outbound half is already live makes the request
    /// redundant: it fails with `DuplicateConnectionToPeer` and nothing
    /// is torn down. Joining a bootstrap group that has already finished
    /// fails with `ConnectionCancelled`. Otherwise the record is
    /// upserted, its outbound half becomes `Initiated` (buffering the
    /// optional pre-queued message), and the host is asked to start the
    /// QUIC handshake.
    #[verifier::rlimit(100)]
    pub fn connect_to(
        &mut self,
        peer_info: NodeInfo,
        send_after_connect: Option<WireMsg>,
        bootstrap_group_id: Option<usize>,
    ) -> (r: Result<(), QuicP2pError>)
        requires
            old(self).wf(),
            match bootstrap_group_id {
                Some(g) => g < old(self).groups@.len(),
                None => true,
            },
        ensures
            final(self).wf(),
            ({
                let a = peer_info.peer_addr;
                let pre = *old(self);
                let post = *final(self);
                let duplicate = pre.has_conn(a)
                    && !pre.conn_at(a).to_peer.spec_is_no_connection();
                let late = match bootstrap_group_id {
                    Some(g) => pre.groups@[g as int].finished,
                    None => false,
                };
                if duplicate {
                    &&& r == Err::<(), QuicP2pError>(
                        QuicP2pError::DuplicateConnectionToPeer { peer_addr: a },
                    )
                    &&& state_unchanged(pre, post)
                } else if late {
                    &&& r == Err::<(), QuicP2pError>(QuicP2pError::ConnectionCancelled)
                    &&& state_unchanged(pre, post)
                } else {
                    &&& r is Ok
                    &&& same_identity(pre, post)
                    &&& post.cache == pre.cache
                    &&& post.events == pre.events
                    &&& post.has_conn(a)
                    &&& post.conn_at(a).peer_addr == a
                    &&& post.conn_at(a).to_peer is Initiated
                    &&& post.conn_at(a).to_peer.cert_view() == peer_info.peer_cert_der@
                    &&& post.conn_at(a).to_peer.pending_sends_view() == (
                        match send_after_connect {
                            Some(m) => seq![m@],
                            None => Seq::<WireMsgView>::empty(),
                        })
                    &&& post.conn_at(a).we_contacted_peer == (
                        if pre.has_conn(a) { pre.conn_at(a).we_contacted_peer } else { true })
                    &&& post.conn_at(a).from_peer == (
                        if pre.our_type == OurType::Client {
                            FromPeer::NotNeeded
                        } else if pre.has_conn(a) {
                            pre.conn_at(a).from_peer
                        } else {
                            FromPeer::NoConnection
                        })
                    &&& post.conn_at(a).bootstrap_group_id == (
                        if pre.has_conn(a) && pre.conn_at(a).bootstrap_group_id is Some {
                            pre.conn_at(a).bootstrap_group_id
                        } else {
                            bootstrap_group_id
                        })
                    &&& same_records_except(pre, post, a)
                    &&& ({
                        let joins = !(pre.has_conn(a) && pre.conn_at(a).bootstrap_group_id is Some);
                        match bootstrap_group_id {
                            Some(g) => if joins {
                                &&& post.groups@.len() == pre.groups@.len()
                                &&& post.groups@[g as int].members@
                                    == pre.groups@[g as int].members@.push(a)
                                &&& post.groups@[g as int].finished
                                    == pre.groups@[g as int].finished
                                &&& forall|k: int|
                                    0 <= k < pre.groups@.len() && k != g
                                        ==> post.groups@[k] == pre.groups@[k]
                            } else {
                                post.groups == pre.groups
                            },
                            None => post.groups == pre.groups,
                        }
                    })
                    &&& action_views(post.actions@) == action_views(pre.actions@)
                        .push(ActionView::StartConnect { peer_addr: a })
                }
            }),
    {
        let a = peer_info.peer_addr;
        let ghost pre = *self;
        let found = self.find_conn(a);
        if let Some(i) = found {
            proof {
                lemma_addr_index_of(pre.connections@, i as int);
            }
            if !self.connections[i].to_peer.is_no_connection() {
                return Err(QuicP2pError::DuplicateConnectionToPeer { peer_addr: a });
            }
        }
        if let Some(g) = bootstrap_group_id {
            if self.groups[g].finished {
                return Err(QuicP2pError::ConnectionCancelled);
            }
        }
        let mut pending: Vec<WireMsg> = Vec::new();
        if let Some(m) = send_after_connect {
            pending.push(m);
        }
        proof {
            assert(crate::event::msg_views(pending@) =~= (match send_after_connect {
                Some(m) => seq![m@],
                None => Seq::<WireMsgView>::empty(),
            }));
        }
        match found {
            Some(i) => {
                let mut c = self.connections.remove(i);
                if matches!(self.our_type, OurType::Client) {
                    c.from_peer = FromPeer::NotNeeded;
                }
                let joins = c.bootstrap_group_id.is_none();
                if joins {
                    c.bootstrap_group_id = bootstrap_group_id;
                    if let Some(g) = bootstrap_group_id {
                        let mut grp = self.groups.remove(g);
                        grp.members.push(a);
                        self.groups.insert(g, grp);
                        proof {
                            assert(forall|k: int|
                                0 <= k < pre.groups@.len() && k != g as int
                                    ==> self.groups@[k] == pre.groups@[k]);
                        }
                    }
                }
                c.to_peer = ToPeer::Initiated {
                    peer_cert_der: peer_info.peer_cert_der,
                    pending_sends: pending,
                };
                self.connections.insert(i, c);
                self.actions.push(Action::StartConnect { peer_addr: a });
                proof {
                    let post = *self;
                    assert(forall|k: int|
                        0 <= k < pre.connections@.len() && k != i as int
                            ==> post.connections@[k] == pre.connections@[k]);
                    lemma_same_except_update(pre.connections@, post.connections@, i as int);
                    assert(post.client_inv());
                    assert(post.groups_inv());
                    assert(action_views(post.actions@) =~= action_views(pre.actions@)
                        .push(ActionView::StartConnect { peer_addr: a }));
                }
                Ok(())
            }
            None => {
                let mut c = Connection::new(a, true);
                if matches!(self.our_type, OurType::Client) {
                    c.from_peer = FromPeer::NotNeeded;
                }
                c.bootstrap_group_id = bootstrap_group_id;
                if let Some(g) = bootstrap_group_id {
                    let mut grp = self.groups.remove(g);
                    grp.members.push(a);
                    self.groups.insert(g, grp);
                    proof {
                        assert(forall|k: int|
                            0 <= k < pre.groups@.len() && k != g as int
                                ==> self.groups@[k] == pre.groups@[k]);
                    }
                }
                c.to_peer = ToPeer::Initiated {
                    peer_cert_der: peer_info.peer_cert_der,
                    pending_sends: pending,
                };
                proof {
                    lemma_same_except_push(pre.connections@, c);
                }
                self.connections.push(c);
                self.actions.push(Action::StartConnect { peer_addr: a });
                proof {
                    let post = *self;
                    assert(post.client_inv());
                    assert(post.groups_inv());
                    assert(action_views(post.actions@) =~= action_views(pre.actions@)
                        .push(ActionView::StartConnect { peer_addr: a }));
                }
                Ok(())
            }
        }
    }

    /// Failure handling in the connect path: a duplicate-connection error
    /// is not record-destroying; any other error removes the record (both
    /// halves), reports its undelivered user sends, and — except for a
    /// fired terminator — emits exactly one `ConnectionFailure`.
    pub fn handle_connect_err(&mut self, peer_addr: PeerAddr, err: QuicP2pError)
        requires
            old(self).wf(),
        ensures
            final(self).wf(),
            connect_err_transition(*old(self), *final(self), peer_addr, err),
    {
        if matches!(err, QuicP2pError::DuplicateConnectionToPeer { .. }) {
            return;
        }
        let ghost pre = *self;
        match self.find_conn(peer_addr) {
            Some(i) => {
                proof {
                    lemma_addr_index_of(pre.connections@, i as int);
                    lemma_same_except_remove(pre.connections@, i as int);
                }
                let conn = self.connections.remove(i);
                let ghost pre_to = conn.to_peer;
                match conn.to_peer {
                    ToPeer::Initiated { pending_sends, .. } => {
                        self.emit_unsent(peer_addr, pending_sends);
                    }
                    _ => {
                        proof {
                            assert(unsent_events_of(pre_to, peer_addr) =~= Seq::<EventView>::empty());
                        }
                    }
                }
                self.actions.push(Action::SeverConnection { peer_addr });
                if !matches!(err, QuicP2pError::ConnectionCancelled) {
                    self.events.push(Event::ConnectionFailure { peer_addr, error: err });
                }
                proof {
                    let post = *self;
                    assert(post.connections@ == pre.connections@.remove(i as int));
                    assert forall|k: int| 0 <= k < post.connections@.len() implies
                        post.connections@[k] == pre.connections@[
                            if k < i as int { k } else { k + 1 }
                        ] by {}
                    assert(post.client_inv());
                    assert(post.groups_inv());
                    assert(event_views(post.events@) =~= event_views(pre.events@)
                        + unsent_events_of(pre.conn_at(peer_addr).to_peer, peer_addr)
                        + failure_suffix(err, peer_addr));
                    assert(action_views(post.actions@) =~= action_views(pre.actions@)
                        .push(ActionView::SeverConnection { peer_addr }));
                }
            }
            None => {
                if !matches!(err, QuicP2pError::ConnectionCancelled) {
                    self.events.push(Event::ConnectionFailure { peer_addr, error: err });
                }
                proof {
                    assert(event_views(self.events@) =~= event_views(pre.events@)
                        + failure_suffix(err, peer_addr));
                }
            }
        }
    }
}

/// Write actions for the first `k` buffered sends, in submission order.
pub open spec fn send_actions_prefix(ms: Seq<WireMsgView>, a: PeerAddr, k: int) -> Seq<ActionView>
    decreases k,
{
    if k <= 0 {
        Seq::empty()
    } else {
        send_actions_prefix(ms, a, k - 1).push(ActionView::SendMsg { peer_addr: a, msg: ms[k - 1] })
    }
}

/// `SentUserMessage` events for the user payloads among the first `k`
/// flushed sends, in submission order.
pub open spec fn sent_events_prefix(ms: Seq<WireMsgView>, a: PeerAddr, k: int) -> Seq<EventView>
    decreases k,
{
    if k <= 0 {
        Seq::empty()
    } else {
        sent_events_prefix(ms, a, k - 1) + (match ms[k - 1] {
            WireMsgView::UserMsg { msg } => seq![EventView::SentUserMessage { peer_addr: a, msg }],
            _ => Seq::<EventView>::empty(),
        })
    }
}

/// `NewMessage` events for the user payloads among the first `k`
/// dispatched reads, in arrival order.
pub open spec fn dispatch_events_prefix(ms: Seq<WireMsgView>, a: PeerAddr, k: int) -> Seq<EventView>
    decreases k,
{
    if k <= 0 {
        Seq::empty()
    } else {
        dispatch_events_prefix(ms, a, k - 1) + (match ms[k - 1] {
            WireMsgView::UserMsg { msg } => seq![EventView::NewMessage { peer_addr: a, msg }],
            _ => Seq::<EventView>::empty(),
        })
    }
}

/// Echo replies among the first `k` dispatched reads: every
/// `EndpointEchoReq` is answered with the sender's observed address.
pub open spec fn dispatch_actions_prefix(ms: Seq<WireMsgView>, a: PeerAddr, k: int) -> Seq<ActionView>
    decreases k,
{
    if k <= 0 {
        Seq::empty()
    } else {
        dispatch_actions_prefix(ms, a, k - 1) + (match ms[k - 1] {
            WireMsgView::EndpointEchoReq => seq![
                ActionView::SendMsg {
                    peer_addr: a,
                    msg: WireMsgView::EndpointEchoResp { addr: a },
                },
            ],
            _ => Seq::<ActionView>::empty(),
        })
    }
}

/// The one-shot external-address slot after the first `k` dispatched
/// reads: the first echo answer fills it, later ones are ignored.
pub open spec fn slot_after(ms: Seq<WireMsgView>, init: Option<PeerAddr>, k: int) -> Option<PeerAddr>
    decreases k,
{
    if k <= 0 {
        init
    } else {
        let prev = slot_after(ms, init, k - 1);
        match ms[k - 1] {
            WireMsgView::EndpointEcho { addr } => if prev is None { Some(addr) } else { prev },
            WireMsgView::EndpointEchoResp { addr } => if prev is None { Some(addr) } else { prev },
            _ => prev,
        }
    }
}

/// Only undelivered-payload reports: what a cancelled attempt may leave
/// in the event log.
pub open spec fn only_unsent(s: Seq<EventView>) -> bool {
    forall|i: int| 0 <= i < s.len() ==> (#[trigger] s[i]) is UnsentUserMessage
}

impl Context {
    /// Flush buffered sends over the now-established session, in
    /// submission order, reporting each user payload as sent. Only the
    /// two logs change.
    fn flush_sends(&mut self, peer_addr: PeerAddr, msgs: Vec<WireMsg>)
        ensures
            final(self).our_type == old(self).our_type,
            final(self).our_cert_der == old(self).our_cert_der,
            final(self).our_external_addr == old(self).our_external_addr,
            final(self).connections == old(self).connections,
            final(self).cache == old(self).cache,
            final(self).groups == old(self).groups,
            action_views(final(self).actions@) == action_views(old(self).actions@)
                + send_actions_prefix(crate::event::msg_views(msgs@), peer_addr, msgs@.len() as int),
            event_views(final(self).events@) == event_views(old(self).events@)
                + sent_events_prefix(crate::event::msg_views(msgs@), peer_addr, msgs@.len() as int),
    {
        let ghost ms = crate::event::msg_views(msgs@);
        let mut k: usize = 0;
        while k < msgs.len()
            invariant
                k <= msgs@.len(),
                ms == crate::event::msg_views(msgs@),
                self.our_type == old(self).our_type,
                self.our_cert_der == old(self).our_cert_der,
                self.our_external_addr == old(self).our_external_addr,
                self.connections == old(self).connections,
                self.cache == old(self).cache,
                self.groups == old(self).groups,
                action_views(self.actions@) == action_views(old(self).actions@)
                    + send_actions_prefix(ms, peer_addr, k as int),
                event_views(self.events@) == event_views(old(self).events@)
                    + sent_events_prefix(ms, peer_addr, k as int),
            decreases msgs@.len() - k,
        {
            let m = wire_msg_copy(&msgs[k]);
            let act = Action::SendMsg { peer_addr, msg: m };
            let ghost abefore = self.actions@;
            self.actions.push(act);
            proof {
                crate::event::lemma_action_views_push(abefore, act);
                assert(ms[k as int] == msgs@[k as int]@);
                assert(act@ == (ActionView::SendMsg { peer_addr, msg: ms[k as int] }));
                assert(send_actions_prefix(ms, peer_addr, k as int + 1)
                    == send_actions_prefix(ms, peer_addr, k as int).push(
                        ActionView::SendMsg { peer_addr, msg: ms[k as int] },
                    ));
                assert((action_views(old(self).actions@)
                    + send_actions_prefix(ms, peer_addr, k as int)).push(act@)
                    =~= action_views(old(self).actions@)
                        + send_actions_prefix(ms, peer_addr, k as int + 1));
            }
            match &msgs[k] {
                WireMsg::UserMsg(msg) => {
                    let m2 = clone_bytes(msg);
                    let ghost mv = msg@;
                    let e = Event::SentUserMessage { peer_addr, msg: m2 };
                    let ghost ebefore = self.events@;
                    self.events.push(e);
                    proof {
                        crate::event::lemma_event_views_push(ebefore, e);
                        assert(ms[k as int] == (WireMsgView::UserMsg { msg: mv }));
                        assert(e@ == (EventView::SentUserMessage { peer_addr, msg: mv }));
                        assert(sent_events_prefix(ms, peer_addr, k as int + 1)
                            == sent_events_prefix(ms, peer_addr, k as int) + seq![e@]);
                        assert((event_views(old(self).events@)
                            + sent_events_prefix(ms, peer_addr, k as int)).push(e@)
                            =~= event_views(old(self).events@)
                                + sent_events_prefix(ms, peer_addr, k as int + 1));
                    }
                }
                _ => {
                    proof {
                        assert(!(ms[k as int] is UserMsg));
                        assert(sent_events_prefix(ms, peer_addr, k as int + 1)
                            =~= sent_events_prefix(ms, peer_addr, k as int));
                    }
                }
            }
            k = k + 1;
        }
    }

    /// Dispatch reads that were buffered until both halves became ready:
    /// user payloads surface as `NewMessage`, echo requests are answered,
    /// the first echo answer fills the external-address slot. Handshake
    /// envelopes are never buffered and are skipped. Only the logs and
    /// the slot change.
    fn dispatch_buffered(&mut self, peer_addr: PeerAddr, msgs: Vec<WireMsg>)
        ensures
            final(self).our_type == old(self).our_type,
            final(self).our_cert_der == old(self).our_cert_der,
            final(self).connections == old(self).connections,
            final(self).cache == old(self).cache,
            final(self).groups == old(self).groups,
            final(self).our_external_addr == slot_after(
                crate::event::msg_views(msgs@),
                old(self).our_external_addr,
                msgs@.len() as int,
            ),
            action_views(final(self).actions@) == action_views(old(self).actions@)
                + dispatch_actions_prefix(
                    crate::event::msg_views(msgs@),
                    peer_addr,
                    msgs@.len() as int,
                ),
            event_views(final(self).events@) == event_views(old(self).events@)
                + dispatch_events_prefix(
                    crate::event::msg_views(msgs@),
                    peer_addr,
                    msgs@.len() as int,
                ),
    {
        let ghost ms = crate::event::msg_views(msgs@);
        let mut k: usize = 0;
        while k < msgs.len()
            invariant
                k <= msgs@.len(),
                ms == crate::event::msg_views(msgs@),
                self.our_type == old(self).our_type,
                self.our_cert_der == old(self).our_cert_der,
                self.connections == old(self).connections,
                self.cache == old(self).cache,
                self.groups == old(self).groups,
                self.our_external_addr == slot_after(ms, old(self).our_external_addr, k as int),
                action_views(self.actions@) == action_views(old(self).actions@)
                    + dispatch_actions_prefix(ms, peer_addr, k as int),
                event_views(self.events@) == event_views(old(self).events@)
                    + dispatch_events_prefix(ms, peer_addr, k as int),
            decreases msgs@.len() - k,
        {
            proof {
                assert(ms[k as int] == msgs@[k as int]@);
            }
            match &msgs[k] {
                WireMsg::UserMsg(msg) => {
                    let m = clone_bytes(msg);
                    let ghost mv = msg@;
                    let e = Event::NewMessage { peer_addr, msg: m };
                    let ghost ebefore = self.events@;
                    self.events.push(e);
                    proof {
                        crate::event::lemma_event_views_push(ebefore, e);
                        assert(ms[k as int] == (WireMsgView::UserMsg { msg: mv }));
                        assert(e@ == (EventView::NewMessage { peer_addr, msg: mv }));
                        assert(dispatch_events_prefix(ms, peer_addr, k as int + 1)
                            == dispatch_events_prefix(ms, peer_addr, k as int) + seq![e@]);
                        assert((event_views(old(self).events@)
                            + dispatch_events_prefix(ms, peer_addr, k as int)).push(e@)
                            =~= event_views(old(self).events@)
                                + dispatch_events_prefix(ms, peer_addr, k as int + 1));
                        assert(dispatch_actions_prefix(ms, peer_addr, k as int + 1)
                            =~= dispatch_actions_prefix(ms, peer_addr, k as int));
                        assert(slot_after(ms, old(self).our_external_addr, k as int + 1)
                            == slot_after(ms, old(self).our_external_addr, k as int));
                    }
                }
                WireMsg::EndpointEchoReq => {
                    let act = Action::SendMsg {
                        peer_addr,
                        msg: WireMsg::EndpointEchoResp(peer_addr),
                    };
                    let ghost abefore = self.actions@;
                    self.actions.push(act);
                    proof {
                        crate::event::lemma_action_views_push(abefore, act);
                        assert(act@ == (ActionView::SendMsg {
                            peer_addr,
                            msg: WireMsgView::EndpointEchoResp { addr: peer_addr },
                        }));
                        assert(dispatch_actions_prefix(ms, peer_addr, k as int + 1)
                            == dispatch_actions_prefix(ms, peer_addr, k as int) + seq![act@]);
                        assert((action_views(old(self).actions@)
                            + dispatch_actions_prefix(ms, peer_addr, k as int)).push(act@)
                            =~= action_views(old(self).actions@)
                                + dispatch_actions_prefix(ms, peer_addr, k as int + 1));
                        assert(dispatch_events_prefix(ms, peer_addr, k as int + 1)
                            =~= dispatch_events_prefix(ms, peer_addr, k as int));
                        assert(slot_after(ms, old(self).our_external_addr, k as int + 1)
                            == slot_after(ms, old(self).our_external_addr, k as int));
                    }
                }
                WireMsg::EndpointEcho(addr) => {
                    proof {
                        assert(ms[k as int] == (WireMsgView::EndpointEcho { addr: *addr }));
                    }
                    if self.our_external_addr.is_none() {
                        self.our_external_addr = Some(*addr);
                    }
                    proof {
                        assert(dispatch_actions_prefix(ms, peer_addr, k as int + 1)
                            =~= dispatch_actions_prefix(ms, peer_addr, k as int));
                        assert(dispatch_events_prefix(ms, peer_addr, k as int + 1)
                            =~= dispatch_events_prefix(ms, peer_addr, k as int));
                    }
                }
                WireMsg::EndpointEchoResp(addr) => {
                    proof {
                        assert(ms[k as int] == (WireMsgView::EndpointEchoResp { addr: *addr }));
                    }
                    if self.our_external_addr.is_none() {
                        self.our_external_addr = Some(*addr);
                    }
                    proof {
                        assert(dispatch_actions_prefix(ms, peer_addr, k as int + 1)
                            =~= dispatch_actions_prefix(ms, peer_addr, k as int));
                        assert(dispatch_events_prefix(ms, peer_addr, k as int + 1)
                            =~= dispatch_events_prefix(ms, peer_addr, k as int));
                    }
                }
                WireMsg::Handshake(_) => {
                    proof {
                        assert(ms[k as int] is HandshakeNode || ms[k as int] is HandshakeClient);
                        assert(dispatch_actions_prefix(ms, peer_addr, k as int + 1)
                            =~= dispatch_actions_prefix(ms, peer_addr, k as int));
                        assert(dispatch_events_prefix(ms, peer_addr, k as int + 1)
                            =~= dispatch_events_prefix(ms, peer_addr, k as int));
                        assert(slot_after(ms, old(self).our_external_addr, k as int + 1)
                            == slot_after(ms, old(self).our_external_addr, k as int));
                    }
                }
            }
            k = k + 1;
        }
    }
}

/// Only session-teardown actions: what a group termination may append.
pub open spec fn only_sever(s: Seq<ActionView>) -> bool {
    forall|i: int| 0 <= i < s.len() ==> (#[trigger] s[i]) is SeverConnection
}

/// Undelivered-payload reports are the only events a removal appends
/// before its failure event.
pub proof fn lemma_unsent_prefix_only_unsent(ms: Seq<WireMsgView>, a: PeerAddr, k: int)
    ensures
        only_unsent(unsent_prefix(ms, a, k)),
    decreases k,
{
    if k > 0 {
        lemma_unsent_prefix_only_unsent(ms, a, k - 1);
    }
}

/// The `j`-th member's attempt is cancelled by this termination: it is
/// not the winner's, its record is still dialing, and no earlier
/// occurrence of the same address in the member list cancelled it.
pub open spec fn cancels_member(
    pre: Context,
    members: Seq<PeerAddr>,
    winner: PeerAddr,
    j: int,
) -> bool {
    &&& members[j] != winner
    &&& pre.has_conn(members[j])
    &&& pre.conn_at(members[j]).to_peer is Initiated
    &&& !members.subrange(0, j).contains(members[j])
}

/// The record at `b` leaves when the group terminates: it belongs to a
/// member other than the winner and is still dialing.
pub open spec fn cancelled_addr(
    pre: Context,
    members: Seq<PeerAddr>,
    winner: PeerAddr,
    b: PeerAddr,
) -> bool {
    &&& members.contains(b)
    &&& b != winner
    &&& pre.has_conn(b)
    &&& pre.conn_at(b).to_peer is Initiated
}

/// The undelivered-send reports of the first `k` members' cancellations,
/// in member order.
pub open spec fn cancel_events(
    pre: Context,
    members: Seq<PeerAddr>,
    winner: PeerAddr,
    k: int,
) -> Seq<EventView>
    decreases k,
{
    if k <= 0 {
        Seq::empty()
    } else {
        cancel_events(pre, members, winner, k - 1) + (if cancels_member(pre, members, winner, k - 1) {
            unsent_events_of(pre.conn_at(members[k - 1]).to_peer, members[k - 1])
        } else {
            Seq::<EventView>::empty()
        })
    }
}

/// The teardown actions of the first `k` members' cancellations, in
/// member order.
pub open spec fn cancel_actions(
    pre: Context,
    members: Seq<PeerAddr>,
    winner: PeerAddr,
    k: int,
) -> Seq<ActionView>
    decreases k,
{
    if k <= 0 {
        Seq::empty()
    } else {
        cancel_actions(pre, members, winner, k - 1) + (if cancels_member(pre, members, winner, k - 1) {
            seq![ActionView::SeverConnection { peer_addr: members[k - 1] }]
        } else {
            Seq::<ActionView>::empty()
        })
    }
}

/// A cancelled member's teardown action stands among the first `k`
/// cancellation actions.
proof fn lemma_cancel_actions_contains(
    pre: Context,
    members: Seq<PeerAddr>,
    winner: PeerAddr,
    k: int,
    j: int,
)
    requires
        0 <= j < k <= members.len(),
        cancels_member(pre, members, winner, j),
    ensures
        cancel_actions(pre, members, winner, k).contains(ActionView::SeverConnection {
            peer_addr: members[j],
        }),
    decreases k,
{
    let sev = ActionView::SeverConnection { peer_addr: members[j] };
    let prev = cancel_actions(pre, members, winner, k - 1);
    if j == k - 1 {
        assert(cancel_actions(pre, members, winner, k) == prev + seq![sev]);
        assert(cancel_actions(pre, members, winner, k)[prev.len() as int] == sev);
    } else {
        lemma_cancel_actions_contains(pre, members, winner, k - 1, j);
        let i = choose|i: int| 0 <= i < prev.len() && prev[i] == sev;
        assert(cancel_actions(pre, members, winner, k)[i] == sev);
    }
}

/// Every occurrence of an address has a first occurrence before it.
proof fn lemma_first_occurrence(members: Seq<PeerAddr>, b: PeerAddr, i: int)
    requires
        0 <= i < members.len(),
        members[i] == b,
    ensures
        exists|j: int| #![auto]
            0 <= j <= i && members[j] == b && !members.subrange(0, j).contains(b),
    decreases i,
{
    if members.subrange(0, i).contains(b) {
        let i2 = choose|i2: int| 0 <= i2 < i && members.subrange(0, i)[i2] == b;
        assert(members[i2] == b);
        lemma_first_occurrence(members, b, i2);
        let j = choose|j: int| #![auto]
            0 <= j <= i2 && members[j] == b && !members.subrange(0, j).contains(b);
        assert(0 <= j <= i && members[j] == b && !members.subrange(0, j).contains(b));
    } else {
        assert(0 <= i <= i && members[i] == b && !members.subrange(0, i).contains(b));
    }
}

/// A still-dialing member other than the winner has its teardown action
/// among the cancellation actions.
proof fn lemma_cancelled_member_severed(
    pre: Context,
    members: Seq<PeerAddr>,
    winner: PeerAddr,
    b: PeerAddr,
)
    requires
        cancelled_addr(pre, members, winner, b),
    ensures
        cancel_actions(pre, members, winner, members.len() as int).contains(
            ActionView::SeverConnection { peer_addr: b },
        ),
{
    let i = choose|i: int| 0 <= i < members.len() && members[i] == b;
    lemma_first_occurrence(members, b, i);
    let j = choose|j: int| #![auto]
        0 <= j <= i && members[j] == b && !members.subrange(0, j).contains(b);
    assert(cancels_member(pre, members, winner, j));
    lemma_cancel_actions_contains(pre, members, winner, members.len() as int, j);
}

/// Membership in a sequence extended at the back.
proof fn lemma_contains_push(s: Seq<PeerAddr>, x: PeerAddr, b: PeerAddr)
    ensures
        s.push(x).contains(b) == (s.contains(b) || b == x),
{
    assert(s.push(x)[s.len() as int] == x);
    if s.contains(b) {
        let i = choose|i: int| 0 <= i < s.len() && s[i] == b;
        assert(s.push(x)[i] == b);
    }
    if s.push(x).contains(b) {
        let i = choose|i: int| 0 <= i < s.push(x).len() && s.push(x)[i] == b;
        if i < s.len() {
            assert(s[i] == b);
        }
    }
}

impl Context {
    /// The record at `a` exists and its outbound half is still dialing.
    fn dialing_at(&self, a: PeerAddr) -> (r: bool)
        requires
            unique_addrs(self.connections@),
        ensures
            r == (self.has_conn(a) && self.conn_at(a).to_peer is Initiated),
    {
        match self.find_conn(a) {
            Some(i) => {
                proof {
                    lemma_addr_index_of(self.connections@, i as int);
                }
                matches!(self.connections[i].to_peer, ToPeer::Initiated { .. })
            }
            None => false,
        }
    }

    /// First success of a bootstrap group: mark the group finished and
    /// fire the terminator of every other member whose attempt is still
    /// in flight. Each fired terminator removes that member's record,
    /// severs its sessions, and produces no event beyond reports of its
    /// undelivered sends, in member order.
    pub fn terminate_group(&mut self, g: usize, winner: PeerAddr)
        requires
            old(self).wf(),
            g < old(self).groups@.len(),
        ensures
            final(self).wf(),
            same_identity(*old(self), *final(self)),
            final(self).cache@ == old(self).cache@,
            final(self).groups@.len() == old(self).groups@.len(),
            final(self).groups@[g as int].finished,
            final(self).groups@[g as int].members@ == old(self).groups@[g as int].members@,
            forall|k: int|
                0 <= k < old(self).groups@.len() && k != g as int
                    ==> final(self).groups@[k] == old(self).groups@[k],
            forall|b: PeerAddr| (#[trigger] final(self).has_conn(b)) == (old(self).has_conn(b)
                && !cancelled_addr(
                    *old(self),
                    old(self).groups@[g as int].members@,
                    winner,
                    b,
                )),
            forall|b: PeerAddr| (#[trigger] final(self).has_conn(b))
                ==> old(self).has_conn(b) && final(self).conn_at(b) == old(self).conn_at(b),
            final(self).has_conn(winner) == old(self).has_conn(winner),
            event_views(final(self).events@) == event_views(old(self).events@) + cancel_events(
                *old(self),
                old(self).groups@[g as int].members@,
                winner,
                old(self).groups@[g as int].members@.len() as int,
            ),
            action_views(final(self).actions@) == action_views(old(self).actions@)
                + cancel_actions(
                    *old(self),
                    old(self).groups@[g as int].members@,
                    winner,
                    old(self).groups@[g as int].members@.len() as int,
                ),
            event_views(old(self).events@).is_prefix_of(event_views(final(self).events@)),
            only_unsent(event_views(final(self).events@).skip(event_views(old(self).events@).len() as int)),
            action_views(old(self).actions@).is_prefix_of(action_views(final(self).actions@)),
            only_sever(action_views(final(self).actions@).skip(action_views(old(self).actions@).len() as int)),
    {
        let ghost pre = *self;
        let ghost members0 = pre.groups@[g as int].members@;
        let mut grp = self.groups.remove(g);
        grp.finished = true;
        self.groups.insert(g, grp);
        proof {
            assert(forall|k: int|
                0 <= k < pre.groups@.len() && k != g as int
                    ==> self.groups@[k] == pre.groups@[k]);
            assert(self.groups@[g as int].members@ == members0);
            assert(event_views(self.events@).skip(event_views(pre.events@).len() as int)
                =~= Seq::<EventView>::empty());
            assert(action_views(self.actions@).skip(action_views(pre.actions@).len() as int)
                =~= Seq::<ActionView>::empty());
            assert(event_views(self.events@) =~= event_views(pre.events@)
                + cancel_events(pre, members0, winner, 0));
            assert(action_views(self.actions@) =~= action_views(pre.actions@)
                + cancel_actions(pre, members0, winner, 0));
            assert(members0.subrange(0, 0) =~= Seq::<PeerAddr>::empty());
        }
        let n = self.groups[g].members.len();
        let mut j: usize = 0;
        while j < n
            invariant
                j <= n,
                g < self.groups@.len(),
                n as nat == members0.len(),
                self.wf(),
                same_identity(pre, *self),
                self.cache@ == pre.cache@,
                self.groups@.len() == pre.groups@.len(),
                self.groups@[g as int].finished,
                self.groups@[g as int].members@ == members0,
                forall|k: int|
                    0 <= k < pre.groups@.len() && k != g as int
                        ==> self.groups@[k] == pre.groups@[k],
                forall|b: PeerAddr| (#[trigger] self.has_conn(b)) == (pre.has_conn(b)
                    && !cancelled_addr(pre, members0.subrange(0, j as int), winner, b)),
                forall|b: PeerAddr| (#[trigger] self.has_conn(b))
                    ==> pre.has_conn(b) && self.conn_at(b) == pre.conn_at(b),
                self.has_conn(winner) == pre.has_conn(winner),
                event_views(self.events@) == event_views(pre.events@)
                    + cancel_events(pre, members0, winner, j as int),
                action_views(self.actions@) == action_views(pre.actions@)
                    + cancel_actions(pre, members0, winner, j as int),
                event_views(pre.events@).is_prefix_of(event_views(self.events@)),
                only_unsent(event_views(self.events@).skip(event_views(pre.events@).len() as int)),
                action_views(pre.actions@).is_prefix_of(action_views(self.actions@)),
                only_sever(action_views(self.actions@).skip(action_views(pre.actions@).len() as int)),
            decreases n - j,
        {
            let m = self.groups[g].members[j];
            proof {
                assert(m == members0[j as int]);
                assert(members0.subrange(0, j as int + 1)
                    =~= members0.subrange(0, j as int).push(m));
            }
            let in_flight = self.dialing_at(m);
            if in_flight && m != winner {
                let ghost cur = *self;
                proof {
                    assert(cur.has_conn(m) && cur.conn_at(m) == pre.conn_at(m));
                    assert(!cancelled_addr(pre, members0.subrange(0, j as int), winner, m));
                    assert(!members0.subrange(0, j as int).contains(m));
                    assert(cancels_member(pre, members0, winner, j as int));
                }
                self.handle_connect_err(m, QuicP2pError::ConnectionCancelled);
                proof {
                    let post = *self;
                    let ghost prev = event_views(cur.events@);
                    let ghost prev0 = event_views(pre.events@);
                    let ghost u = prev.skip(prev0.len() as int);
                    let ghost w = unsent_events_of(pre.conn_at(m).to_peer, m);
                    assert(event_views(post.events@) == prev + w + failure_suffix(
                        QuicP2pError::ConnectionCancelled, m));
                    assert(failure_suffix(QuicP2pError::ConnectionCancelled, m)
                        =~= Seq::<EventView>::empty());
                    assert(event_views(post.events@) =~= prev + w);
                    assert(cancel_events(pre, members0, winner, j as int + 1)
                        == cancel_events(pre, members0, winner, j as int) + w);
                    assert(event_views(post.events@) =~= prev0
                        + cancel_events(pre, members0, winner, j as int + 1));
                    lemma_unsent_prefix_only_unsent(
                        pre.conn_at(m).to_peer.pending_sends_view(),
                        m,
                        pre.conn_at(m).to_peer.pending_sends_view().len() as int,
                    );
                    assert(prev =~= prev0 + u);
                    assert(event_views(post.events@).skip(prev0.len() as int) =~= u + w);
                    assert(only_unsent(u + w));
                    let ghost pav = action_views(cur.actions@);
                    let ghost pav0 = action_views(pre.actions@);
                    let ghost ua = pav.skip(pav0.len() as int);
                    assert(action_views(post.actions@) == pav.push(
                        ActionView::SeverConnection { peer_addr: m }));
                    assert(cancel_actions(pre, members0, winner, j as int + 1)
                        == cancel_actions(pre, members0, winner, j as int)
                            + seq![ActionView::SeverConnection { peer_addr: m }]);
                    assert(action_views(post.actions@) =~= pav0
                        + cancel_actions(pre, members0, winner, j as int + 1));
                    assert(pav =~= pav0 + ua);
                    assert(action_views(post.actions@).skip(pav0.len() as int)
                        =~= ua.push(ActionView::SeverConnection { peer_addr: m }));
                    assert(only_sever(ua.push(ActionView::SeverConnection { peer_addr: m })));
                    assert(prev0.is_prefix_of(event_views(post.events@)));
                    assert(pav0.is_prefix_of(action_views(post.actions@)));
                    assert forall|b: PeerAddr| (#[trigger] post.has_conn(b)) == (pre.has_conn(b)
                        && !cancelled_addr(pre, members0.subrange(0, j as int + 1), winner, b)) by {
                        lemma_contains_push(members0.subrange(0, j as int), m, b);
                        if b == m {
                            assert(!post.has_conn(b));
                            assert(members0.subrange(0, j as int + 1).contains(m));
                            assert(cancelled_addr(pre, members0.subrange(0, j as int + 1), winner, b));
                        } else {
                            assert(post.has_conn(b) == cur.has_conn(b));
                            assert(cancelled_addr(pre, members0.subrange(0, j as int + 1), winner, b)
                                == cancelled_addr(pre, members0.subrange(0, j as int), winner, b));
                        }
                    }
                }
            } else {
                proof {
                    if m != winner && pre.has_conn(m) && pre.conn_at(m).to_peer is Initiated {
                        if !members0.subrange(0, j as int).contains(m) {
                            assert(!cancelled_addr(pre, members0.subrange(0, j as int), winner, m));
                            assert(self.has_conn(m));
                            assert(self.conn_at(m) == pre.conn_at(m));
                            assert(in_flight);
                            assert(false);
                        }
                    }
                    assert(!cancels_member(pre, members0, winner, j as int));
                    assert(cancel_events(pre, members0, winner, j as int + 1)
                        =~= cancel_events(pre, members0, winner, j as int));
                    assert(cancel_actions(pre, members0, winner, j as int + 1)
                        =~= cancel_actions(pre, members0, winner, j as int));
                    assert forall|b: PeerAddr| (#[trigger] self.has_conn(b)) == (pre.has_conn(b)
                        && !cancelled_addr(pre, members0.subrange(0, j as int + 1), winner, b)) by {
                        lemma_contains_push(members0.subrange(0, j as int), m, b);
                        assert(cancelled_addr(pre, members0.subrange(0, j as int + 1), winner, b)
                            == (cancelled_addr(pre, members0.subrange(0, j as int), winner, b)
                                || (b == m && b != winner && pre.has_conn(b)
                                    && pre.conn_at(b).to_peer is Initiated)));
                        if b == m && b != winner && pre.has_conn(b)
                            && pre.conn_at(b).to_peer is Initiated {
                            assert(cancelled_addr(pre, members0.subrange(0, j as int), winner, b));
                        }
                    }
                }
            }
            j = j + 1;
        }
        proof {
            assert(members0.subrange(0, n as int) =~= members0);
        }
    }
}

/// Effect of the application handshake that completes a successful
/// outbound attempt to `a`.
///
/// The record's outbound half commits to `Established`. The `NodeInfo`
/// enters the bootstrap cache exactly when this side created the record.
/// The one-shot success event — `BootstrappedTo` when a group reference
/// was present at completion, `ConnectedTo` otherwise — fires exactly
/// when the inbound half was already ready, and fires once. Buffered
/// reads are dispatched in arrival order, then buffered sends are
/// flushed in submission order. A fired group terminates: its losers'
/// records leave, appending nothing but undelivered-send reports and
/// teardown actions.
pub open spec fn outbound_success_transition(pre: Context, post: Context, a: PeerAddr) -> bool {
    let c = pre.conn_at(a);
    let cert = c.to_peer.cert_view();
    let ms = c.to_peer.pending_sends_view();
    let reads = c.from_peer.pending_reads_view();
    let info = NodeInfoView { peer_addr: a, peer_cert_der: cert };
    let fired = c.from_peer.ready();
    let with_group = c.bootstrap_group_id is Some;
    let success_ev = if with_group {
        EventView::BootstrappedTo { node: info }
    } else {
        EventView::ConnectedTo { peer: crate::types::PeerView::Node { node_info: info } }
    };
    let main_events = (if fired { seq![success_ev] } else { Seq::<EventView>::empty() })
        + (if c.from_peer is Established {
            dispatch_events_prefix(reads, a, reads.len() as int)
        } else {
            Seq::<EventView>::empty()
        })
        + sent_events_prefix(ms, a, ms.len() as int);
    let main_actions = (match c.from_peer {
            FromPeer::NoConnection => seq![
                ActionView::SendMsg {
                    peer_addr: a,
                    msg: WireMsgView::HandshakeNode { cert_der: pre.our_cert_der@ },
                },
            ],
            FromPeer::NotNeeded => seq![
                ActionView::SendMsg { peer_addr: a, msg: WireMsgView::HandshakeClient },
            ],
            FromPeer::Established { .. } => dispatch_actions_prefix(reads, a, reads.len() as int),
        })
        + send_actions_prefix(ms, a, ms.len() as int)
        + (if c.from_peer is NotNeeded {
            seq![ActionView::AcceptIncoming { peer_addr: a }]
        } else {
            Seq::<ActionView>::empty()
        });
    let base_events = event_views(pre.events@) + main_events;
    let base_actions = action_views(pre.actions@) + main_actions;
    &&& post.our_type == pre.our_type
    &&& post.our_cert_der@ == pre.our_cert_der@
    &&& post.cache.spec_capacity() == pre.cache.spec_capacity()
    &&& post.our_external_addr == (if c.from_peer is Established {
        slot_after(reads, pre.our_external_addr, reads.len() as int)
    } else {
        pre.our_external_addr
    })
    &&& post.cache@ == (if c.we_contacted_peer {
        spec_cache_add(pre.cache@, info, pre.cache.spec_capacity())
    } else {
        pre.cache@
    })
    &&& post.has_conn(a)
    &&& post.conn_at(a).peer_addr == a
    &&& post.conn_at(a).to_peer is Established
    &&& post.conn_at(a).to_peer.cert_view() == cert
    &&& post.conn_at(a).we_contacted_peer == c.we_contacted_peer
    &&& (post.conn_at(a).from_peer is Established <==> c.from_peer is Established)
    &&& (c.from_peer is Established
        ==> post.conn_at(a).from_peer.pending_reads_view() == Seq::<WireMsgView>::empty())
    &&& (c.from_peer is NotNeeded ==> post.conn_at(a).from_peer is NotNeeded)
    &&& (c.from_peer is NoConnection ==> post.conn_at(a).from_peer is NoConnection)
    &&& post.conn_at(a).ready() == fired
    &&& post.conn_at(a).bootstrap_group_id == (if fired {
        Option::<usize>::None
    } else {
        c.bootstrap_group_id
    })
    &&& forall|b: PeerAddr|
        b != a && (#[trigger] post.has_conn(b))
            ==> pre.has_conn(b) && post.conn_at(b) == pre.conn_at(b)
    &&& post.groups@.len() == pre.groups@.len()
    &&& (!(fired && with_group) ==> {
        &&& same_records_except(pre, post, a)
        &&& post.groups@ == pre.groups@
        &&& event_views(post.events@) == base_events
        &&& action_views(post.actions@) == base_actions
    })
    &&& (match c.bootstrap_group_id {
        Some(gid) => fired ==> {
            &&& gid < pre.groups@.len()
            &&& post.groups@[gid as int].finished
            &&& post.groups@[gid as int].members@ == pre.groups@[gid as int].members@
            &&& forall|k2: int|
                0 <= k2 < pre.groups@.len() && k2 != gid as int
                    ==> post.groups@[k2] == pre.groups@[k2]
            &&& forall|m: PeerAddr| #![auto]
                pre.groups@[gid as int].members@.contains(m) && m != a && pre.has_conn(m)
                    && pre.conn_at(m).to_peer is Initiated ==> {
                    &&& !post.has_conn(m)
                    &&& action_views(post.actions@).skip(action_views(pre.actions@).len() as int)
                        .contains(ActionView::SeverConnection { peer_addr: m })
                }
        },
        None => true,
    })
    &&& base_events.is_prefix_of(event_views(post.events@))
    &&& only_unsent(event_views(post.events@).skip(base_events.len() as int))
    &&& base_actions.is_prefix_of(action_views(post.actions@))
    &&& only_sever(action_views(post.actions@).skip(base_actions.len() as int))
}

impl Context {
    /// Continuation of the connect path once the QUIC handshake has
    /// resolved. A failure is handled by `handle_connect_err`; a success
    /// against a forgotten record is ignored; otherwise the application
    /// handshake completes the outbound half as
    /// `outbound_success_transition` states.
    #[verifier::rlimit(100)]
    pub fn handle_new_connection_res(
        &mut self,
        peer_addr: PeerAddr,
        connect_result: Result<(), QuicP2pError>,
    )
        requires
            old(self).wf(),
            connect_result is Ok && old(self).has_conn(peer_addr)
                ==> old(self).conn_at(peer_addr).to_peer is Initiated,
        ensures
            final(self).wf(),
            match connect_result {
                Ok(_) => if old(self).has_conn(peer_addr) {
                    outbound_success_transition(*old(self), *final(self), peer_addr)
                } else {
                    state_unchanged(*old(self), *final(self))
                },
                Err(e) => connect_err_transition(*old(self), *final(self), peer_addr, e),
            },
    {
        let ghost pre = *self;
        match connect_result {
            Err(e) => {
                self.handle_connect_err(peer_addr, e);
                return;
            }
            Ok(_) => {}
        }
        let i = match self.find_conn(peer_addr) {
            Some(i) => i,
            None => {
                return;
            }
        };
        proof {
            lemma_addr_index_of(pre.connections@, i as int);
        }
        let ghost c0 = pre.conn_at(peer_addr);
        let mut c = self.connections.remove(i);
        let (cert, pending_sends) = match c.to_peer {
            ToPeer::Initiated { peer_cert_der, pending_sends } => (peer_cert_der, pending_sends),
            _ => unreached(),
        };
        let ghost ms = c0.to_peer.pending_sends_view();
        let ghost reads = c0.from_peer.pending_reads_view();
        let ghost info = crate::types::NodeInfoView { peer_addr, peer_cert_der: cert@ };
        if c.we_contacted_peer {
            let info_for_cache = NodeInfo { peer_addr, peer_cert_der: clone_bytes(&cert) };
            self.cache.add_peer(info_for_cache);
        }
        let mut accept_incoming = false;
        let mut fired_group: Option<usize> = None;
        match c.from_peer {
            FromPeer::NoConnection => {
                c.from_peer = FromPeer::NoConnection;
                let hs = WireMsg::Handshake(Handshake::Node {
                    cert_der: clone_bytes(&self.our_cert_der),
                });
                let act = Action::SendMsg { peer_addr, msg: hs };
                let ghost abefore = self.actions@;
                self.actions.push(act);
                proof {
                    crate::event::lemma_action_views_push(abefore, act);
                }
            }
            FromPeer::NotNeeded => {
                c.from_peer = FromPeer::NotNeeded;
                let act = Action::SendMsg {
                    peer_addr,
                    msg: WireMsg::Handshake(Handshake::Client),
                };
                let ghost abefore = self.actions@;
                self.actions.push(act);
                proof {
                    crate::event::lemma_action_views_push(abefore, act);
                }
                let ev_info = NodeInfo { peer_addr, peer_cert_der: clone_bytes(&cert) };
                let e = match c.bootstrap_group_id {
                    Some(g) => {
                        fired_group = Some(g);
                        c.bootstrap_group_id = None;
                        Event::BootstrappedTo { node: ev_info }
                    }
                    None => Event::ConnectedTo { peer: Peer::Node { node_info: ev_info } },
                };
                let ghost ebefore = self.events@;
                self.events.push(e);
                proof {
                    crate::event::lemma_event_views_push(ebefore, e);
                }
                accept_incoming = true;
            }
            FromPeer::Established { pending_reads } => {
                c.from_peer = FromPeer::Established { pending_reads: Vec::new() };
                let ev_info = NodeInfo { peer_addr, peer_cert_der: clone_bytes(&cert) };
                let e = match c.bootstrap_group_id {
                    Some(g) => {
                        fired_group = Some(g);
                        c.bootstrap_group_id = None;
                        Event::BootstrappedTo { node: ev_info }
                    }
                    None => Event::ConnectedTo { peer: Peer::Node { node_info: ev_info } },
                };
                let ghost ebefore = self.events@;
                self.events.push(e);
                proof {
                    crate::event::lemma_event_views_push(ebefore, e);
                }
                self.dispatch_buffered(peer_addr, pending_reads);
            }
        }
        self.flush_sends(peer_addr, pending_sends);
        if accept_incoming {
            let act = Action::AcceptIncoming { peer_addr };
            let ghost abefore = self.actions@;
            self.actions.push(act);
            proof {
                crate::event::lemma_action_views_push(abefore, act);
            }
        }
        c.to_peer = ToPeer::Established { peer_cert_der: cert };
        self.connections.insert(i, c);
        proof {
            let mid = *self;
            assert(forall|k: int|
                0 <= k < pre.connections@.len() && k != i as int
                    ==> mid.connections@[k] == pre.connections@[k]);
            lemma_same_except_update(pre.connections@, mid.connections@, i as int);
            assert(mid.client_inv());
            assert(mid.groups_inv());
            if c0.from_peer is Established {
                assert(mid.conn_at(peer_addr).from_peer.pending_reads_view()
                    =~= Seq::<WireMsgView>::empty());
            }
            assert(event_views(mid.events@) =~= event_views(pre.events@)
                + ((if c0.from_peer.ready() {
                    seq![
                        if c0.bootstrap_group_id is Some {
                            EventView::BootstrappedTo { node: info }
                        } else {
                            EventView::ConnectedTo {
                                peer: crate::types::PeerView::Node { node_info: info },
                            }
                        },
                    ]
                } else {
                    Seq::<EventView>::empty()
                })
                + (if c0.from_peer is Established {
                    dispatch_events_prefix(reads, peer_addr, reads.len() as int)
                } else {
                    Seq::<EventView>::empty()
                })
                + sent_events_prefix(ms, peer_addr, ms.len() as int)));
            assert(action_views(mid.actions@) =~= action_views(pre.actions@)
                + ((match c0.from_peer {
                    FromPeer::NoConnection => seq![
                        ActionView::SendMsg {
                            peer_addr,
                            msg: WireMsgView::HandshakeNode { cert_der: pre.our_cert_der@ },
                        },
                    ],
                    FromPeer::NotNeeded => seq![
                        ActionView::SendMsg { peer_addr, msg: WireMsgView::HandshakeClient },
                    ],
                    FromPeer::Established { .. } =>
                        dispatch_actions_prefix(reads, peer_addr, reads.len() as int),
                })
                + send_actions_prefix(ms, peer_addr, ms.len() as int)
                + (if c0.from_peer is NotNeeded {
                    seq![ActionView::AcceptIncoming { peer_addr }]
                } else {
                    Seq::<ActionView>::empty()
                })));
        }
        match fired_group {
            Some(g) => {
                let ghost mid = *self;
                self.terminate_group(g, peer_addr);
                proof {
                    let post = *self;
                    let base_e = event_views(mid.events@);
                    let base_a = action_views(mid.actions@);
                    assert(base_e.is_prefix_of(event_views(post.events@)));
                    assert(base_a.is_prefix_of(action_views(post.actions@)));
                    assert(post.conn_at(peer_addr) == mid.conn_at(peer_addr));
                    let members = pre.groups@[g as int].members@;
                    let pre_a = action_views(pre.actions@);
                    let ca = cancel_actions(mid, members, peer_addr, members.len() as int);
                    assert(mid.groups@ == pre.groups@);
                    assert(action_views(post.actions@) == base_a + ca);
                    assert forall|m: PeerAddr| #![auto]
                        members.contains(m) && m != peer_addr && pre.has_conn(m)
                            && pre.conn_at(m).to_peer is Initiated
                        implies !post.has_conn(m) && action_views(post.actions@)
                            .skip(pre_a.len() as int)
                            .contains(ActionView::SeverConnection { peer_addr: m }) by {
                        assert(mid.has_conn(m) && mid.conn_at(m) == pre.conn_at(m));
                        assert(cancelled_addr(mid, members, peer_addr, m));
                        assert(!post.has_conn(m));
                        lemma_cancelled_member_severed(mid, members, peer_addr, m);
                        let sev = ActionView::SeverConnection { peer_addr: m };
                        let i = choose|i: int| 0 <= i < ca.len() && ca[i] == sev;
                        assert(action_views(post.actions@)[base_a.len() + i] == sev);
                        assert(action_views(post.actions@).skip(pre_a.len() as int)[
                            base_a.len() - pre_a.len() + i] == sev);
                        assert(action_views(post.actions@).skip(pre_a.len() as int).contains(sev));
                    }
                }
            }
            None => {
                proof {
                    assert(event_views(self.events@).skip(event_views(self.events@).len() as int)
                        =~= Seq::<EventView>::empty());
                    assert(action_views(self.actions@).skip(action_views(self.actions@).len() as int)
                        =~= Seq::<ActionView>::empty());
                    assert(event_views(self.events@).is_prefix_of(event_views(self.events@)));
                    assert(action_views(self.actions@).is_prefix_of(action_views(self.actions@)));
                }
            }
        }
    }
}

/// Only dial requests: what `bootstrap` appends to the action log.
pub open spec fn only_start_connect(s: Seq<ActionView>) -> bool {
    forall|i: int| 0 <= i < s.len() ==> (#[trigger] s[i]) is StartConnect
}

/// Effect of accepting an inbound session from `a`: the inbound half
/// becomes `Established`, and — when the outbound half was already ready
/// — the one-shot success event fires: `BootstrappedTo` if a group
/// reference was present (which then terminates the group), else
/// `ConnectedTo`. The bootstrap cache is never touched.
pub open spec fn inbound_accept_transition(pre: Context, post: Context, a: PeerAddr) -> bool {
    let existed = pre.has_conn(a);
    let c = pre.conn_at(a);
    let fired = existed && c.to_peer is Established;
    let with_group = existed && c.bootstrap_group_id is Some;
    let info = NodeInfoView { peer_addr: a, peer_cert_der: c.to_peer.cert_view() };
    let main_events = if fired {
        if with_group {
            seq![EventView::BootstrappedTo { node: info }]
        } else {
            seq![
                EventView::ConnectedTo {
                    peer: crate::types::PeerView::Node { node_info: info },
                },
            ]
        }
    } else {
        Seq::<EventView>::empty()
    };
    let base_events = event_views(pre.events@) + main_events;
    &&& same_identity(pre, post)
    &&& post.cache@ == pre.cache@
    &&& post.has_conn(a)
    &&& post.conn_at(a).peer_addr == a
    &&& post.conn_at(a).from_peer is Established
    &&& post.conn_at(a).from_peer.pending_reads_view() == Seq::<WireMsgView>::empty()
    &&& post.conn_at(a).to_peer == (if existed { c.to_peer } else { ToPeer::NoConnection })
    &&& post.conn_at(a).we_contacted_peer == (existed && c.we_contacted_peer)
    &&& post.conn_at(a).bootstrap_group_id == (if fired || !existed {
        Option::<usize>::None
    } else {
        c.bootstrap_group_id
    })
    &&& forall|b: PeerAddr|
        b != a && (#[trigger] post.has_conn(b))
            ==> pre.has_conn(b) && post.conn_at(b) == pre.conn_at(b)
    &&& post.groups@.len() == pre.groups@.len()
    &&& (!(fired && with_group) ==> {
        &&& same_records_except(pre, post, a)
        &&& post.groups@ == pre.groups@
        &&& event_views(post.events@) == base_events
        &&& action_views(post.actions@) == action_views(pre.actions@)
    })
    &&& (match c.bootstrap_group_id {
        Some(gid) => fired && existed ==> {
            &&& gid < pre.groups@.len()
            &&& post.groups@[gid as int].finished
            &&& post.groups@[gid as int].members@ == pre.groups@[gid as int].members@
            &&& forall|k2: int|
                0 <= k2 < pre.groups@.len() && k2 != gid as int
                    ==> post.groups@[k2] == pre.groups@[k2]
            &&& forall|m: PeerAddr| #![auto]
                pre.groups@[gid as int].members@.contains(m) && m != a && pre.has_conn(m)
                    && pre.conn_at(m).to_peer is Initiated ==> {
                    &&& !post.has_conn(m)
                    &&& action_views(post.actions@).skip(action_views(pre.actions@).len() as int)
                        .contains(ActionView::SeverConnection { peer_addr: m })
                }
        },
        None => true,
    })
    &&& base_events.is_prefix_of(event_views(post.events@))
    &&& only_unsent(event_views(post.events@).skip(base_events.len() as int))
    &&& action_views(pre.actions@).is_prefix_of(action_views(post.actions@))
    &&& only_sever(action_views(post.actions@).skip(action_views(pre.actions@).len() as int))
}

impl Context {
    /// One inbound session arrival from the QUIC endpoint (the accept
    /// loop itself lives with the host). A Client never accepts inbound;
    /// a second inbound from the same address is dropped silently.
    /// Otherwise the arrival completes the record's inbound half as
    /// `inbound_accept_transition` states. Returns whether the host
    /// should read the session's streams.
    #[verifier::rlimit(100)]
    pub fn listen(&mut self, peer_addr: PeerAddr) -> (r: bool)
        requires
            old(self).wf(),
        ensures
            final(self).wf(),
            ({
                let pre = *old(self);
                let post = *final(self);
                if pre.our_type == OurType::Client {
                    !r && state_unchanged(pre, post)
                } else if pre.has_conn(peer_addr)
                    && !(pre.conn_at(peer_addr).from_peer is NoConnection) {
                    !r && state_unchanged(pre, post)
                } else {
                    r && inbound_accept_transition(pre, post, peer_addr)
                }
            }),
    {
        if !self.our_type.accepts_inbound() {
            return false;
        }
        let ghost pre = *self;
        let found = self.find_conn(peer_addr);
        if let Some(i) = found {
            proof {
                lemma_addr_index_of(pre.connections@, i as int);
            }
            if !self.connections[i].from_peer.is_no_connection() {
                return false;
            }
        }
        let mut fired_group: Option<usize> = None;
        match found {
            Some(i) => {
                let mut c = self.connections.remove(i);
                if matches!(c.to_peer, ToPeer::Established { .. }) {
                    let cert = match &c.to_peer {
                        ToPeer::Established { peer_cert_der } => clone_bytes(peer_cert_der),
                        _ => unreached(),
                    };
                    let ev_info = NodeInfo { peer_addr, peer_cert_der: cert };
                    let e = match c.bootstrap_group_id {
                        Some(g) => {
                            fired_group = Some(g);
                            c.bootstrap_group_id = None;
                            Event::BootstrappedTo { node: ev_info }
                        }
                        None => Event::ConnectedTo { peer: Peer::Node { node_info: ev_info } },
                    };
                    let ghost ebefore = self.events@;
                    self.events.push(e);
                    proof {
                        crate::event::lemma_event_views_push(ebefore, e);
                    }
                }
                c.from_peer = FromPeer::Established { pending_reads: Vec::new() };
                self.connections.insert(i, c);
                proof {
                    let mid = *self;
                    assert(forall|k: int|
                        0 <= k < pre.connections@.len() && k != i as int
                            ==> mid.connections@[k] == pre.connections@[k]);
                    lemma_same_except_update(pre.connections@, mid.connections@, i as int);
                    assert(mid.client_inv());
                    assert(mid.groups_inv());
                    assert(mid.conn_at(peer_addr).from_peer.pending_reads_view()
                        =~= Seq::<WireMsgView>::empty());
                }
            }
            None => {
                let mut c = Connection::new(peer_addr, false);
                c.from_peer = FromPeer::Established { pending_reads: Vec::new() };
                proof {
                    lemma_same_except_push(pre.connections@, c);
                }
                self.connections.push(c);
                proof {
                    let mid = *self;
                    assert(mid.client_inv());
                    assert(mid.groups_inv());
                    assert(mid.conn_at(peer_addr).from_peer.pending_reads_view()
                        =~= Seq::<WireMsgView>::empty());
                }
            }
        }
        proof {
            let mid = *self;
            let existed = pre.has_conn(peer_addr);
            let c = pre.conn_at(peer_addr);
            let fired = existed && c.to_peer is Established;
            let with_group = existed && c.bootstrap_group_id is Some;
            let info = NodeInfoView { peer_addr, peer_cert_der: c.to_peer.cert_view() };
            let main_events = if fired {
                if with_group {
                    seq![EventView::BootstrappedTo { node: info }]
                } else {
                    seq![
                        EventView::ConnectedTo {
                            peer: crate::types::PeerView::Node { node_info: info },
                        },
                    ]
                }
            } else {
                Seq::<EventView>::empty()
            };
            assert(event_views(mid.events@) =~= event_views(pre.events@) + main_events);
            assert(action_views(mid.actions@) =~= action_views(pre.actions@));
        }
        match fired_group {
            Some(g) => {
                let ghost mid = *self;
                self.terminate_group(g, peer_addr);
                proof {
                    let post = *self;
                    assert(event_views(mid.events@).is_prefix_of(event_views(post.events@)));
                    assert(post.conn_at(peer_addr) == mid.conn_at(peer_addr));
                    let members = pre.groups@[g as int].members@;
                    let pre_a = action_views(pre.actions@);
                    let base_a = action_views(mid.actions@);
                    let ca = cancel_actions(mid, members, peer_addr, members.len() as int);
                    assert(mid.groups@ == pre.groups@);
                    assert(action_views(post.actions@) == base_a + ca);
                    assert forall|m: PeerAddr| #![auto]
                        members.contains(m) && m != peer_addr && pre.has_conn(m)
                            && pre.conn_at(m).to_peer is Initiated
                        implies !post.has_conn(m) && action_views(post.actions@)
                            .skip(pre_a.len() as int)
                            .contains(ActionView::SeverConnection { peer_addr: m }) by {
                        assert(mid.has_conn(m) && mid.conn_at(m) == pre.conn_at(m));
                        assert(cancelled_addr(mid, members, peer_addr, m));
                        assert(!post.has_conn(m));
                        lemma_cancelled_member_severed(mid, members, peer_addr, m);
                        let sev = ActionView::SeverConnection { peer_addr: m };
                        let i = choose|i: int| 0 <= i < ca.len() && ca[i] == sev;
                        assert(action_views(post.actions@)[base_a.len() + i] == sev);
                        assert(action_views(post.actions@).skip(pre_a.len() as int)[
                            base_a.len() - pre_a.len() + i] == sev);
                        assert(action_views(post.actions@).skip(pre_a.len() as int).contains(sev));
                    }
                }
            }
            None => {
                proof {
                    assert(event_views(self.events@).skip(event_views(self.events@).len() as int)
                        =~= Seq::<EventView>::empty());
                    assert(action_views(self.actions@).skip(action_views(self.actions@).len() as int)
                        =~= Seq::<ActionView>::empty());
                }
            }
        }
        true
    }

    /// Tear down both halves of the record for `peer_addr`, reporting
    /// its undelivered user sends; no failure event is emitted for a
    /// disconnect the host asked for.
    pub fn disconnect_from(&mut self, peer_addr: PeerAddr)
        requires
            old(self).wf(),
        ensures
            final(self).wf(),
            ({
                let pre = *old(self);
                let post = *final(self);
                &&& same_identity(pre, post)
                &&& post.cache@ == pre.cache@
                &&& post.groups@ == pre.groups@
                &&& !post.has_conn(peer_addr)
                &&& same_records_except(pre, post, peer_addr)
                &&& if pre.has_conn(peer_addr) {
                    &&& event_views(post.events@) == event_views(pre.events@)
                        + unsent_events_of(pre.conn_at(peer_addr).to_peer, peer_addr)
                    &&& action_views(post.actions@) == action_views(pre.actions@)
                        .push(ActionView::SeverConnection { peer_addr })
                } else {
                    state_unchanged(pre, post)
                }
            }),
    {
        let ghost pre = *self;
        match self.find_conn(peer_addr) {
            Some(i) => {
                proof {
                    lemma_addr_index_of(pre.connections@, i as int);
                    lemma_same_except_remove(pre.connections@, i as int);
                }
                let conn = self.connections.remove(i);
                let ghost pre_to = conn.to_peer;
                match conn.to_peer {
                    ToPeer::Initiated { pending_sends, .. } => {
                        self.emit_unsent(peer_addr, pending_sends);
                    }
                    _ => {
                        proof {
                            assert(unsent_events_of(pre_to, peer_addr)
                                =~= Seq::<EventView>::empty());
                        }
                    }
                }
                self.actions.push(Action::SeverConnection { peer_addr });
                proof {
                    let post = *self;
                    assert(post.connections@ == pre.connections@.remove(i as int));
                    assert forall|k: int| 0 <= k < post.connections@.len() implies
                        post.connections@[k] == pre.connections@[
                            if k < i as int { k } else { k + 1 }
                        ] by {}
                    assert(post.client_inv());
                    assert(post.groups_inv());
                    assert(event_views(post.events@) =~= event_views(pre.events@)
                        + unsent_events_of(pre.conn_at(peer_addr).to_peer, peer_addr));
                    assert(action_views(post.actions@) =~= action_views(pre.actions@)
                        .push(ActionView::SeverConnection { peer_addr }));
                }
            }
            None => {}
        }
    }

    /// Submit one user payload to `peer`. Over an established session it
    /// is written at once (and reported sent); during a handshake it is
    /// buffered in submission order; with no session, a Node peer is
    /// dialled with the payload pre-queued, while a payload for an
    /// unreachable peer is reported `UnsentUserMessage`.
    pub fn send(&mut self, peer: Peer, msg: Vec<u8>)
        requires
            old(self).wf(),
        ensures
            final(self).wf(),
            ({
                let pre = *old(self);
                let post = *final(self);
                let a = peer.addr();
                let established = pre.has_conn(a) && pre.conn_at(a).to_peer is Established;
                let initiated = pre.has_conn(a) && pre.conn_at(a).to_peer is Initiated;
                let not_dialable = (pre.has_conn(a) && pre.conn_at(a).to_peer is NotNeeded)
                    || (peer is Client && !established && !initiated);
                if established {
                    &&& same_identity(pre, post)
                    &&& post.cache@ == pre.cache@
                    &&& post.groups@ == pre.groups@
                    &&& post.connections@ == pre.connections@
                    &&& action_views(post.actions@) == action_views(pre.actions@)
                        .push(ActionView::SendMsg {
                            peer_addr: a,
                            msg: WireMsgView::UserMsg { msg: msg@ },
                        })
                    &&& event_views(post.events@) == event_views(pre.events@)
                        .push(EventView::SentUserMessage { peer_addr: a, msg: msg@ })
                } else if initiated {
                    &&& same_identity(pre, post)
                    &&& post.cache@ == pre.cache@
                    &&& post.groups@ == pre.groups@
                    &&& post.events == pre.events
                    &&& post.actions == pre.actions
                    &&& post.has_conn(a)
                    &&& post.conn_at(a).to_peer is Initiated
                    &&& post.conn_at(a).to_peer.pending_sends_view()
                        == pre.conn_at(a).to_peer.pending_sends_view()
                            .push(WireMsgView::UserMsg { msg: msg@ })
                    &&& post.conn_at(a).to_peer.cert_view() == pre.conn_at(a).to_peer.cert_view()
                    &&& post.conn_at(a).from_peer == pre.conn_at(a).from_peer
                    &&& post.conn_at(a).we_contacted_peer == pre.conn_at(a).we_contacted_peer
                    &&& post.conn_at(a).bootstrap_group_id == pre.conn_at(a).bootstrap_group_id
                    &&& same_records_except(pre, post, a)
                } else if not_dialable {
                    &&& same_identity(pre, post)
                    &&& post.cache@ == pre.cache@
                    &&& post.groups@ == pre.groups@
                    &&& post.connections@ == pre.connections@
                    &&& post.actions == pre.actions
                    &&& event_views(post.events@) == event_views(pre.events@)
                        .push(EventView::UnsentUserMessage { peer_addr: a, msg: msg@ })
                } else {
                    // a Node peer with no live outbound half: dial it with
                    // the payload pre-queued
                    &&& same_identity(pre, post)
                    &&& post.cache@ == pre.cache@
                    &&& post.groups@ == pre.groups@
                    &&& post.events == pre.events
                    &&& post.has_conn(a)
                    &&& post.conn_at(a).to_peer is Initiated
                    &&& post.conn_at(a).to_peer.pending_sends_view()
                        == seq![WireMsgView::UserMsg { msg: msg@ }]
                    &&& same_records_except(pre, post, a)
                    &&& action_views(post.actions@) == action_views(pre.actions@)
                        .push(ActionView::StartConnect { peer_addr: a })
                }
            }),
    {
        let ghost pre = *self;
        let a = match &peer {
            Peer::Node { node_info } => node_info.peer_addr,
            Peer::Client { peer_addr } => *peer_addr,
        };
        let found = self.find_conn(a);
        if let Some(i) = found {
            proof {
                lemma_addr_index_of(pre.connections@, i as int);
            }
            if matches!(self.connections[i].to_peer, ToPeer::Established { .. }) {
                let act = Action::SendMsg { peer_addr: a, msg: WireMsg::UserMsg(clone_bytes(&msg)) };
                let ghost abefore = self.actions@;
                self.actions.push(act);
                let e = Event::SentUserMessage { peer_addr: a, msg };
                let ghost ebefore = self.events@;
                self.events.push(e);
                proof {
                    crate::event::lemma_action_views_push(abefore, act);
                    crate::event::lemma_event_views_push(ebefore, e);
                }
                return;
            }
            if matches!(self.connections[i].to_peer, ToPeer::Initiated { .. }) {
                let mut c = self.connections.remove(i);
                match &mut c.to_peer {
                    ToPeer::Initiated { pending_sends, .. } => {
                        pending_sends.push(WireMsg::UserMsg(msg));
                    }
                    _ => {
                        proof {
                            assert(false);
                        }
                    }
                }
                self.connections.insert(i, c);
                proof {
                    let post = *self;
                    assert(forall|k: int|
                        0 <= k < pre.connections@.len() && k != i as int
                            ==> post.connections@[k] == pre.connections@[k]);
                    lemma_same_except_update(pre.connections@, post.connections@, i as int);
                    assert(post.client_inv());
                    assert(post.groups_inv());
                    assert(post.conn_at(a).to_peer.pending_sends_view()
                        =~= pre.conn_at(a).to_peer.pending_sends_view()
                            .push(WireMsgView::UserMsg { msg: msg@ }));
                }
                return;
            }
        }
        // no live outbound half
        match peer {
            Peer::Node { node_info } => {
                let can_dial = match found {
                    Some(i) => self.connections[i].to_peer.is_no_connection(),
                    None => true,
                };
                if can_dial {
                    let res = self.connect_to(node_info, Some(WireMsg::UserMsg(msg)), None);
                    proof {
                        assert(res is Ok);
                        assert(self.conn_at(a).to_peer.pending_sends_view()
                            =~= seq![WireMsgView::UserMsg { msg: msg@ }]);
                    }
                } else {
                    let e = Event::UnsentUserMessage { peer_addr: a, msg };
                    let ghost ebefore = self.events@;
                    self.events.push(e);
                    proof {
                        crate::event::lemma_event_views_push(ebefore, e);
                    }
                }
            }
            Peer::Client { .. } => {
                let e = Event::UnsentUserMessage { peer_addr: a, msg };
                let ghost ebefore = self.events@;
                self.events.push(e);
                proof {
                    crate::event::lemma_event_views_push(ebefore, e);
                }
            }
        }
    }

    /// Try to rejoin the network: race one outbound attempt per cached
    /// node, newest first, under a fresh bootstrap group. Each dialable
    /// entry (no record, or one with no live outbound half, and no newer
    /// cache entry sharing its address) gets exactly one `StartConnect`
    /// and an `Initiated` record bound to its certificate, registered
    /// with the new group; everything else is untouched. The first
    /// completion emits `BootstrappedTo` and terminates the rest.
    #[verifier::rlimit(100)]
    pub fn bootstrap(&mut self)
        requires
            old(self).wf(),
        ensures
            final(self).wf(),
            same_identity(*old(self), *final(self)),
            final(self).cache@ == old(self).cache@,
            final(self).events == old(self).events,
            final(self).groups@.len() == old(self).groups@.len() + 1,
            forall|k: int|
                0 <= k < old(self).groups@.len()
                    ==> (#[trigger] final(self).groups@[k]) == old(self).groups@[k],
            !final(self).groups@.last().finished,
            final(self).groups@.last().members@ == bootstrap_members(
                *old(self),
                old(self).cache@,
                old(self).cache@.len() as int,
            ),
            action_views(final(self).actions@) == action_views(old(self).actions@)
                + bootstrap_actions(*old(self), old(self).cache@, old(self).cache@.len() as int),
            forall|i: int| #![auto]
                0 <= i < old(self).cache@.len() && bootstrap_dials(*old(self), old(self).cache@, i)
                    ==> {
                    let a = old(self).cache@[i].peer_addr;
                    &&& final(self).has_conn(a)
                    &&& final(self).conn_at(a).to_peer is Initiated
                    &&& final(self).conn_at(a).to_peer.cert_view()
                        == old(self).cache@[i].peer_cert_der
                    &&& final(self).conn_at(a).to_peer.pending_sends_view()
                        == Seq::<WireMsgView>::empty()
                    &&& final(self).conn_at(a).we_contacted_peer == (if old(self).has_conn(a) {
                        old(self).conn_at(a).we_contacted_peer
                    } else {
                        true
                    })
                    &&& final(self).conn_at(a).bootstrap_group_id == (if old(self).has_conn(a)
                        && old(self).conn_at(a).bootstrap_group_id is Some {
                        old(self).conn_at(a).bootstrap_group_id
                    } else {
                        Some(old(self).groups@.len() as usize)
                    })
                },
            forall|b: PeerAddr| #![auto]
                !(exists|i: int|
                    0 <= i < old(self).cache@.len()
                        && bootstrap_dials(*old(self), old(self).cache@, i)
                        && old(self).cache@[i].peer_addr == b) ==> final(self).has_conn(b)
                    == old(self).has_conn(b) && (old(self).has_conn(b) ==> final(self).conn_at(b)
                    == old(self).conn_at(b)),
            action_views(old(self).actions@).is_prefix_of(action_views(final(self).actions@)),
            only_start_connect(action_views(final(self).actions@).skip(
                action_views(old(self).actions@).len() as int,
            )),
    {
        let ghost pre = *self;
        let ghost cview = pre.cache@;
        let infos = self.cache.snapshot();
        self.groups.push(BootstrapGroup::new());
        let gid = self.groups.len() - 1;
        proof {
            assert(action_views(self.actions@).skip(action_views(pre.actions@).len() as int)
                =~= Seq::<ActionView>::empty());
            assert(action_views(self.actions@) =~= action_views(pre.actions@)
                + bootstrap_actions(pre, cview, 0));
            assert(self.groups@[gid as int].members@ =~= bootstrap_members(pre, cview, 0));
        }
        let mut j: usize = infos.len();
        while j > 0
            invariant
                j <= infos@.len(),
                cview.len() == infos@.len(),
                forall|i: int| 0 <= i < infos@.len() ==> (#[trigger] infos@[i])@ == cview[i],
                self.wf(),
                same_identity(pre, *self),
                self.cache == pre.cache,
                self.cache@ == pre.cache@,
                self.events == pre.events,
                self.groups@.len() == pre.groups@.len() + 1,
                gid as int == pre.groups@.len(),
                forall|k: int|
                    0 <= k < pre.groups@.len()
                        ==> (#[trigger] self.groups@[k]) == pre.groups@[k],
                !self.groups@[gid as int].finished,
                !self.groups@.last().finished,
                self.groups@[gid as int].members@ == bootstrap_members(
                    pre,
                    cview,
                    cview.len() - j,
                ),
                action_views(self.actions@) == action_views(pre.actions@) + bootstrap_actions(
                    pre,
                    cview,
                    cview.len() - j,
                ),
                forall|i: int| #![auto]
                    j <= i < cview.len() && bootstrap_dials(pre, cview, i) ==> {
                        let a = cview[i].peer_addr;
                        &&& self.has_conn(a)
                        &&& self.conn_at(a).to_peer is Initiated
                        &&& self.conn_at(a).to_peer.cert_view() == cview[i].peer_cert_der
                        &&& self.conn_at(a).to_peer.pending_sends_view()
                            == Seq::<WireMsgView>::empty()
                        &&& self.conn_at(a).we_contacted_peer == (if pre.has_conn(a) {
                            pre.conn_at(a).we_contacted_peer
                        } else {
                            true
                        })
                        &&& self.conn_at(a).bootstrap_group_id == (if pre.has_conn(a)
                            && pre.conn_at(a).bootstrap_group_id is Some {
                            pre.conn_at(a).bootstrap_group_id
                        } else {
                            Some(gid)
                        })
                    },
                forall|b: PeerAddr| #![auto]
                    !(exists|i: int|
                        j <= i < cview.len() && bootstrap_dials(pre, cview, i)
                            && cview[i].peer_addr == b) ==> self.has_conn(b) == pre.has_conn(b)
                        && (pre.has_conn(b) ==> self.conn_at(b) == pre.conn_at(b)),
                action_views(pre.actions@).is_prefix_of(action_views(self.actions@)),
                only_start_connect(action_views(self.actions@).skip(
                    action_views(pre.actions@).len() as int,
                )),
            decreases j,
        {
            j = j - 1;
            let info = infos[j].duplicate();
            let ghost cur = *self;
            let ghost i = j as int;
            let ghost a = cview[i].peer_addr;
            proof {
                assert(infos@[i]@ == cview[i]);
                assert(info.peer_addr == a && info.peer_cert_der@ == cview[i].peer_cert_der);
            }
            let res = self.connect_to(info, None, Some(gid));
            proof {
                let post = *self;
                let pav0 = action_views(pre.actions@);
                let dialed_later = exists|i2: int|
                    i < i2 < cview.len() && bootstrap_dials(pre, cview, i2)
                        && cview[i2].peer_addr == a;
                if dialed_later {
                    let i2 = choose|i2: int|
                        i < i2 < cview.len() && bootstrap_dials(pre, cview, i2)
                            && cview[i2].peer_addr == a;
                    assert(cur.has_conn(a) && cur.conn_at(a).to_peer is Initiated);
                    assert(res is Err);
                    assert(state_unchanged(cur, post));
                    assert(!bootstrap_dials(pre, cview, i));
                    assert(bootstrap_actions(pre, cview, cview.len() - i)
                        =~= bootstrap_actions(pre, cview, cview.len() - i - 1));
                    assert(bootstrap_members(pre, cview, cview.len() - i)
                        =~= bootstrap_members(pre, cview, cview.len() - i - 1));
                } else {
                    assert(cur.has_conn(a) == pre.has_conn(a)
                        && (pre.has_conn(a) ==> cur.conn_at(a) == pre.conn_at(a)));
                    if bootstrap_dialable(pre, a) {
                        assert(bootstrap_dials(pre, cview, i)) by {
                            if exists|i2: int| i < i2 < cview.len() && cview[i2].peer_addr == a {
                                let i2 = choose|i2: int|
                                    i < i2 < cview.len() && cview[i2].peer_addr == a;
                                lemma_last_cache_occurrence(cview, a, i2);
                                let l = choose|l: int| #![auto]
                                    i2 <= l < cview.len() && cview[l].peer_addr == a
                                        && (forall|i3: int|
                                            l < i3 < cview.len() ==> cview[i3].peer_addr != a);
                                assert(bootstrap_dials(pre, cview, l));
                                assert(false);
                            }
                        }
                        assert(res is Ok);
                        assert(post.conn_at(a).to_peer.pending_sends_view()
                            =~= Seq::<WireMsgView>::empty());
                        let ghost ua = action_views(cur.actions@).skip(pav0.len() as int);
                        assert(action_views(cur.actions@) =~= pav0 + ua);
                        assert(action_views(post.actions@).skip(pav0.len() as int)
                            =~= ua.push(ActionView::StartConnect { peer_addr: a }));
                        assert(only_start_connect(ua.push(ActionView::StartConnect {
                            peer_addr: a,
                        })));
                        assert(pav0.is_prefix_of(action_views(post.actions@)));
                        assert(bootstrap_actions(pre, cview, cview.len() - i)
                            =~= bootstrap_actions(pre, cview, cview.len() - i - 1)
                                + seq![ActionView::StartConnect { peer_addr: a }]);
                        assert(action_views(post.actions@) =~= pav0
                            + bootstrap_actions(pre, cview, cview.len() - i));
                        let joins = !(cur.has_conn(a) && cur.conn_at(a).bootstrap_group_id is Some);
                        if joins {
                            assert(bootstrap_joins(pre, cview, i));
                            assert(post.groups@[gid as int].members@
                                =~= bootstrap_members(pre, cview, cview.len() - i));
                        } else {
                            assert(!bootstrap_joins(pre, cview, i));
                            assert(bootstrap_members(pre, cview, cview.len() - i)
                                =~= bootstrap_members(pre, cview, cview.len() - i - 1));
                        }
                    } else {
                        assert(pre.has_conn(a)
                            && !pre.conn_at(a).to_peer.spec_is_no_connection());
                        assert(res is Err);
                        assert(state_unchanged(cur, post));
                        assert(!bootstrap_dials(pre, cview, i));
                        assert(bootstrap_actions(pre, cview, cview.len() - i)
                            =~= bootstrap_actions(pre, cview, cview.len() - i - 1));
                        assert(bootstrap_members(pre, cview, cview.len() - i)
                            =~= bootstrap_members(pre, cview, cview.len() - i - 1));
                    }
                }
                assert forall|b: PeerAddr| #![auto]
                    !(exists|i2: int|
                        i <= i2 < cview.len() && bootstrap_dials(pre, cview, i2)
                            && cview[i2].peer_addr == b) implies post.has_conn(b)
                        == pre.has_conn(b) && (pre.has_conn(b) ==> post.conn_at(b)
                        == pre.conn_at(b)) by {
                    assert(!(exists|i2: int|
                        i < i2 < cview.len() && bootstrap_dials(pre, cview, i2)
                            && cview[i2].peer_addr == b));
                    if bootstrap_dials(pre, cview, i) && b == a {
                        assert(false);
                    }
                }
            }
        }
        proof {
            assert(bootstrap_actions(pre, cview, cview.len() - 0)
                == bootstrap_actions(pre, cview, cview.len() as int));
        }
    }
}

/// The record at `a` (if any) does not block a fresh dial: either none
/// exists or its outbound half is still in its initial state.
pub open spec fn bootstrap_dialable(pre: Context, a: PeerAddr) -> bool {
    !pre.has_conn(a) || pre.conn_at(a).to_peer.spec_is_no_connection()
}

/// The cache entry at `i` is dialed by a bootstrap: its address is
/// dialable and no newer entry — dialed earlier — shares the address.
pub open spec fn bootstrap_dials(pre: Context, infos: Seq<NodeInfoView>, i: int) -> bool {
    &&& bootstrap_dialable(pre, infos[i].peer_addr)
    &&& forall|i2: int| i < i2 < infos.len() ==> infos[i2].peer_addr != infos[i].peer_addr
}

/// A dialed entry also registers with the new group, unless its record
/// already carried a group reference.
pub open spec fn bootstrap_joins(pre: Context, infos: Seq<NodeInfoView>, i: int) -> bool {
    bootstrap_dials(pre, infos, i) && !(pre.has_conn(infos[i].peer_addr)
        && pre.conn_at(infos[i].peer_addr).bootstrap_group_id is Some)
}

/// The dial requests of a bootstrap over the `k` newest cache entries,
/// newest entry first.
pub open spec fn bootstrap_actions(pre: Context, infos: Seq<NodeInfoView>, k: int) -> Seq<ActionView>
    decreases k,
{
    if k <= 0 {
        Seq::empty()
    } else {
        bootstrap_actions(pre, infos, k - 1) + (if bootstrap_dials(pre, infos, infos.len() - k) {
            seq![ActionView::StartConnect { peer_addr: infos[infos.len() - k].peer_addr }]
        } else {
            Seq::<ActionView>::empty()
        })
    }
}

/// The members of the new group after the `k` newest cache entries,
/// newest entry first.
pub open spec fn bootstrap_members(pre: Context, infos: Seq<NodeInfoView>, k: int) -> Seq<PeerAddr>
    decreases k,
{
    if k <= 0 {
        Seq::empty()
    } else {
        bootstrap_members(pre, infos, k - 1) + (if bootstrap_joins(pre, infos, infos.len() - k) {
            seq![infos[infos.len() - k].peer_addr]
        } else {
            Seq::<PeerAddr>::empty()
        })
    }
}

/// Every occurrence of an address in the cache has a last occurrence at
/// or after it.
proof fn lemma_last_cache_occurrence(infos: Seq<NodeInfoView>, a: PeerAddr, i: int)
    requires
        0 <= i < infos.len(),
        infos[i].peer_addr == a,
    ensures
        exists|l: int| #![auto]
            i <= l < infos.len() && infos[l].peer_addr == a && (forall|i3: int|
                l < i3 < infos.len() ==> infos[i3].peer_addr != a),
    decreases infos.len() - i,
{
    if exists|i2: int| i < i2 < infos.len() && infos[i2].peer_addr == a {
        let i2 = choose|i2: int| i < i2 < infos.len() && infos[i2].peer_addr == a;
        lemma_last_cache_occurrence(infos, a, i2);
        let l = choose|l: int| #![auto]
            i2 <= l < infos.len() && infos[l].peer_addr == a && (forall|i3: int|
                l < i3 < infos.len() ==> infos[i3].peer_addr != a);
        assert(i <= l < infos.len() && infos[l].peer_addr == a && (forall|i3: int|
            l < i3 < infos.len() ==> infos[i3].peer_addr != a));
    } else {
        assert(i <= i < infos.len() && infos[i].peer_addr == a && (forall|i3: int|
            i < i3 < infos.len() ==> infos[i3].peer_addr != a));
    }
}

impl Context {
    /// One wire message read from `peer_addr`'s inbound session.
    ///
    /// A handshake is processed at once: a Node handshake from a peer we
    /// have no outbound half to completes its identity and dials back; a
    /// Client handshake marks the outbound half `NotNeeded` (we never
    /// dial a Client) and — the record now being ready — fires
    /// `ConnectedTo` with the Client peer and drains the buffered reads.
    /// A second handshake on the same record is a protocol violation and
    /// severs the record. Any other message is dispatched when the
    /// record is ready on both halves, and buffered on the inbound half
    /// otherwise. Messages from unknown addresses are ignored.
    #[verifier::rlimit(100)]
    pub fn handle_incoming_msg(&mut self, peer_addr: PeerAddr, msg: WireMsg)
        requires
            old(self).wf(),
        ensures
            final(self).wf(),
            ({
                let pre = *old(self);
                let post = *final(self);
                let mv = msg@;
                let c = pre.conn_at(peer_addr);
                if !pre.has_conn(peer_addr) {
                    state_unchanged(pre, post)
                } else if mv is HandshakeNode {
                    let certv = match mv {
                        WireMsgView::HandshakeNode { cert_der } => cert_der,
                        _ => Seq::<u8>::empty(),
                    };
                    if c.to_peer is NoConnection {
                        &&& same_identity(pre, post)
                        &&& post.cache@ == pre.cache@
                        &&& post.groups@ == pre.groups@
                        &&& post.events == pre.events
                        &&& post.has_conn(peer_addr)
                        &&& post.conn_at(peer_addr).to_peer is Initiated
                        &&& post.conn_at(peer_addr).to_peer.cert_view() == certv
                        &&& post.conn_at(peer_addr).to_peer.pending_sends_view()
                            == Seq::<WireMsgView>::empty()
                        &&& post.conn_at(peer_addr).from_peer == (
                            if pre.our_type == OurType::Client {
                                FromPeer::NotNeeded
                            } else {
                                c.from_peer
                            })
                        &&& post.conn_at(peer_addr).we_contacted_peer == c.we_contacted_peer
                        &&& post.conn_at(peer_addr).bootstrap_group_id == c.bootstrap_group_id
                        &&& same_records_except(pre, post, peer_addr)
                        &&& action_views(post.actions@) == action_views(pre.actions@)
                            .push(ActionView::StartConnect { peer_addr })
                    } else {
                        connect_err_transition(pre, post, peer_addr, QuicP2pError::QuicProtocolError)
                    }
                } else if mv is HandshakeClient {
                    if c.to_peer is NoConnection {
                        let reads = c.from_peer.pending_reads_view();
                        let fired = c.from_peer is Established;
                        &&& post.our_type == pre.our_type
                        &&& post.our_cert_der@ == pre.our_cert_der@
                        &&& post.cache.spec_capacity() == pre.cache.spec_capacity()
                        &&& post.cache@ == pre.cache@
                        &&& post.groups@ == pre.groups@
                        &&& post.our_external_addr == (if fired {
                            slot_after(reads, pre.our_external_addr, reads.len() as int)
                        } else {
                            pre.our_external_addr
                        })
                        &&& post.has_conn(peer_addr)
                        &&& post.conn_at(peer_addr).to_peer is NotNeeded
                        &&& (fired ==> post.conn_at(peer_addr).from_peer is Established
                            && post.conn_at(peer_addr).from_peer.pending_reads_view()
                                == Seq::<WireMsgView>::empty())
                        &&& (!fired ==> post.conn_at(peer_addr).from_peer == c.from_peer)
                        &&& post.conn_at(peer_addr).we_contacted_peer == c.we_contacted_peer
                        &&& post.conn_at(peer_addr).bootstrap_group_id == c.bootstrap_group_id
                        &&& same_records_except(pre, post, peer_addr)
                        &&& event_views(post.events@) == event_views(pre.events@) + (if fired {
                            seq![
                                EventView::ConnectedTo {
                                    peer: crate::types::PeerView::Client { peer_addr },
                                },
                            ] + dispatch_events_prefix(reads, peer_addr, reads.len() as int)
                        } else {
                            Seq::<EventView>::empty()
                        })
                        &&& action_views(post.actions@) == action_views(pre.actions@) + (if fired {
                            dispatch_actions_prefix(reads, peer_addr, reads.len() as int)
                        } else {
                            Seq::<ActionView>::empty()
                        })
                    } else {
                        connect_err_transition(pre, post, peer_addr, QuicP2pError::QuicProtocolError)
                    }
                } else {
                    if c.ready() {
                        &&& post.our_type == pre.our_type
                        &&& post.our_cert_der@ == pre.our_cert_der@
                        &&& post.cache.spec_capacity() == pre.cache.spec_capacity()
                        &&& post.connections@ == pre.connections@
                        &&& post.cache@ == pre.cache@
                        &&& post.groups@ == pre.groups@
                        &&& post.our_external_addr
                            == slot_after(seq![mv], pre.our_external_addr, 1)
                        &&& event_views(post.events@) == event_views(pre.events@)
                            + dispatch_events_prefix(seq![mv], peer_addr, 1)
                        &&& action_views(post.actions@) == action_views(pre.actions@)
                            + dispatch_actions_prefix(seq![mv], peer_addr, 1)
                    } else if c.from_peer is Established {
                        &&& same_identity(pre, post)
                        &&& post.cache@ == pre.cache@
                        &&& post.groups@ == pre.groups@
                        &&& post.events == pre.events
                        &&& post.actions == pre.actions
                        &&& post.has_conn(peer_addr)
                        &&& post.conn_at(peer_addr).from_peer is Established
                        &&& post.conn_at(peer_addr).from_peer.pending_reads_view()
                            == c.from_peer.pending_reads_view().push(mv)
                        &&& post.conn_at(peer_addr).to_peer == c.to_peer
                        &&& post.conn_at(peer_addr).we_contacted_peer == c.we_contacted_peer
                        &&& post.conn_at(peer_addr).bootstrap_group_id == c.bootstrap_group_id
                        &&& same_records_except(pre, post, peer_addr)
                    } else {
                        state_unchanged(pre, post)
                    }
                }
            }),
    {
        let ghost pre = *self;
        let i = match self.find_conn(peer_addr) {
            Some(i) => i,
            None => {
                return;
            }
        };
        proof {
            lemma_addr_index_of(pre.connections@, i as int);
        }
        match msg {
            WireMsg::Handshake(Handshake::Node { cert_der }) => {
                if self.connections[i].to_peer.is_no_connection() {
                    let info = NodeInfo { peer_addr, peer_cert_der: cert_der };
                    let res = self.connect_to(info, None, None);
                    proof {
                        assert(res is Ok);
                    }
                } else {
                    self.handle_connect_err(peer_addr, QuicP2pError::QuicProtocolError);
                }
            }
            WireMsg::Handshake(Handshake::Client) => {
                if self.connections[i].to_peer.is_no_connection() {
                    let mut c = self.connections.remove(i);
                    c.to_peer = ToPeer::NotNeeded;
                    let mut fired = false;
                    let mut reads: Vec<WireMsg> = Vec::new();
                    match c.from_peer {
                        FromPeer::Established { pending_reads } => {
                            fired = true;
                            reads = pending_reads;
                            c.from_peer = FromPeer::Established { pending_reads: Vec::new() };
                            let e = Event::ConnectedTo { peer: Peer::Client { peer_addr } };
                            let ghost ebefore = self.events@;
                            self.events.push(e);
                            proof {
                                crate::event::lemma_event_views_push(ebefore, e);
                            }
                        }
                        FromPeer::NoConnection => {
                            c.from_peer = FromPeer::NoConnection;
                        }
                        FromPeer::NotNeeded => {
                            c.from_peer = FromPeer::NotNeeded;
                        }
                    }
                    self.connections.insert(i, c);
                    proof {
                        let mid = *self;
                        assert(forall|k: int|
                            0 <= k < pre.connections@.len() && k != i as int
                                ==> mid.connections@[k] == pre.connections@[k]);
                        lemma_same_except_update(pre.connections@, mid.connections@, i as int);
                        assert(mid.client_inv());
                        assert(mid.groups_inv());
                        if fired {
                            assert(mid.conn_at(peer_addr).from_peer.pending_reads_view()
                                =~= Seq::<WireMsgView>::empty());
                        }
                    }
                    if fired {
                        self.dispatch_buffered(peer_addr, reads);
                    }
                    proof {
                        if !(pre.conn_at(peer_addr).from_peer is Established) {
                            assert(event_views(self.events@)
                                =~= event_views(pre.events@) + Seq::<EventView>::empty());
                            assert(action_views(self.actions@)
                                =~= action_views(pre.actions@) + Seq::<ActionView>::empty());
                        }
                    }
                } else {
                    self.handle_connect_err(peer_addr, QuicP2pError::QuicProtocolError);
                }
            }
            other => {
                let ghost mv = other@;
                let ready = {
                    let c = &self.connections[i];
                    (matches!(c.to_peer, ToPeer::Established { .. })
                        || matches!(c.to_peer, ToPeer::NotNeeded))
                        && (matches!(c.from_peer, FromPeer::Established { .. })
                            || matches!(c.from_peer, FromPeer::NotNeeded))
                };
                if ready {
                    let one = vec![other];
                    proof {
                        assert(crate::event::msg_views(one@) =~= seq![mv]);
                    }
                    self.dispatch_buffered(peer_addr, one);
                } else {
                    if matches!(self.connections[i].from_peer, FromPeer::Established { .. }) {
                        let mut c = self.connections.remove(i);
                        match &mut c.from_peer {
                            FromPeer::Established { pending_reads } => {
                                pending_reads.push(other);
                            }
                            _ => {
                                proof {
                                    assert(false);
                                }
                            }
                        }
                        self.connections.insert(i, c);
                        proof {
                            let post = *self;
                            assert(forall|k: int|
                                0 <= k < pre.connections@.len() && k != i as int
                                    ==> post.connections@[k] == pre.connections@[k]);
                            lemma_same_except_update(pre.connections@, post.connections@, i as int);
                            assert(post.client_inv());
                            assert(post.groups_inv());
                            assert(post.conn_at(peer_addr).from_peer.pending_reads_view()
                                =~= pre.conn_at(peer_addr).from_peer.pending_reads_view()
                                    .push(mv));
                        }
                    }
                }
            }
        }
    }
}

/// Exact copy of a wire message.
pub fn wire_msg_copy(m: &WireMsg) -> (r: WireMsg)
    ensures
        r@ == m@,
{
    match m {
        WireMsg::Handshake(Handshake::Node { cert_der }) =>
            WireMsg::Handshake(Handshake::Node { cert_der: clone_bytes(cert_der) }),
        WireMsg::Handshake(Handshake::Client) => WireMsg::Handshake(Handshake::Client),
        WireMsg::EndpointEcho(addr) => WireMsg::EndpointEcho(*addr),
        WireMsg::EndpointEchoReq => WireMsg::EndpointEchoReq,
        WireMsg::EndpointEchoResp(addr) => WireMsg::EndpointEchoResp(*addr),
        WireMsg::UserMsg(msg) => WireMsg::UserMsg(clone_bytes(msg)),
    }
}

/// Every event a dispatch appends is a `NewMessage`.
proof fn lemma_dispatch_events_prefix_kinds(ms: Seq<WireMsgView>, a: PeerAddr, k: int)
    ensures
        forall|i: int| 0 <= i < dispatch_events_prefix(ms, a, k).len()
            ==> (#[trigger] dispatch_events_prefix(ms, a, k)[i]) is NewMessage,
    decreases k,
{
    if k > 0 {
        lemma_dispatch_events_prefix_kinds(ms, a, k - 1);
    }
}

/// Every event a flush appends is a `SentUserMessage`.
proof fn lemma_sent_events_prefix_kinds(ms: Seq<WireMsgView>, a: PeerAddr, k: int)
    ensures
        forall|i: int| 0 <= i < sent_events_prefix(ms, a, k).len()
            ==> (#[trigger] sent_events_prefix(ms, a, k)[i]) is SentUserMessage,
    decreases k,
{
    if k > 0 {
        lemma_sent_events_prefix_kinds(ms, a, k - 1);
    }
}

/// A sequence without success events for `b` counts none.
proof fn lemma_count_success_zero(s: Seq<EventView>, b: PeerAddr)
    requires
        forall|i: int| 0 <= i < s.len() ==> !(#[trigger] s[i]).is_success_for(b),
    ensures
        count_success_for(s, b) == 0,
    decreases s.len(),
{
    if s.len() > 0 {
        assert(forall|i: int| 0 <= i < s.drop_last().len()
            ==> !(#[trigger] s.drop_last()[i]).is_success_for(b));
        lemma_count_success_zero(s.drop_last(), b);
    }
}

/// Length and contents of the flush action block: one write per buffered
/// send, in submission order.
pub proof fn lemma_send_actions_prefix_index(ms: Seq<WireMsgView>, a: PeerAddr, k: int)
    requires
        k >= 0,
    ensures
        send_actions_prefix(ms, a, k).len() == k,
        forall|q: int| 0 <= q < k
            ==> (#[trigger] send_actions_prefix(ms, a, k)[q])
                == (ActionView::SendMsg { peer_addr: a, msg: ms[q] }),
    decreases k,
{
    if k > 0 {
        lemma_send_actions_prefix_index(ms, a, k - 1);
    }
}

/// For every address, a well-formed context holds at most one connection
/// record at any instant: two distinct positions carry distinct keys.
pub proof fn lemma_at_most_one_record(ctx: Context, i: int, j: int)
    requires
        ctx.wf(),
        0 <= i < ctx.connections@.len(),
        0 <= j < ctx.connections@.len(),
        i != j,
    ensures
        ctx.connections@[i].peer_addr != ctx.connections@[j].peer_addr,
{
}

/// The events appended while `post` and the only-unsent tail beyond
/// `base` decompose the final log.
proof fn lemma_log_decomposition(pre: Seq<EventView>, base: Seq<EventView>, post: Seq<EventView>)
    requires
        pre.is_prefix_of(base),
        base.is_prefix_of(post),
    ensures
        post.skip(pre.len() as int) =~= base.skip(pre.len() as int) + post.skip(base.len() as int),
{
}

/// A completed outbound attempt yields exactly one successful-connection
/// event when its inbound half was already ready, none otherwise, and
/// never a success event for any other address: `ConnectedTo` and
/// `BootstrappedTo` are one-shot and mutually exclusive for the record.
pub proof fn lemma_one_success_event_per_completion(pre: Context, post: Context, a: PeerAddr)
    requires
        pre.wf(),
        pre.has_conn(a),
        pre.conn_at(a).to_peer is Initiated,
        outbound_success_transition(pre, post, a),
    ensures
        ({
            let emitted = event_views(post.events@).skip(event_views(pre.events@).len() as int);
            &&& count_success_for(emitted, a) == (if !pre.conn_at(a).ready()
                && post.conn_at(a).ready() { 1nat } else { 0nat })
            &&& forall|b: PeerAddr| b != a ==> count_success_for(emitted, b) == 0
        }),
{
    let c = pre.conn_at(a);
    let cert = c.to_peer.cert_view();
    let ms = c.to_peer.pending_sends_view();
    let reads = c.from_peer.pending_reads_view();
    let info = NodeInfoView { peer_addr: a, peer_cert_der: cert };
    let fired = c.from_peer.ready();
    let with_group = c.bootstrap_group_id is Some;
    let success_ev = if with_group {
        EventView::BootstrappedTo { node: info }
    } else {
        EventView::ConnectedTo { peer: crate::types::PeerView::Node { node_info: info } }
    };
    let head = if fired { seq![success_ev] } else { Seq::<EventView>::empty() };
    let disp = if c.from_peer is Established {
        dispatch_events_prefix(reads, a, reads.len() as int)
    } else {
        Seq::<EventView>::empty()
    };
    let sent = sent_events_prefix(ms, a, ms.len() as int);
    let main_events = head + disp + sent;
    let pre_v = event_views(pre.events@);
    let post_v = event_views(post.events@);
    let base = pre_v + main_events;
    let u = post_v.skip(base.len() as int);
    assert(pre_v.is_prefix_of(base)) by {
        assert(base.subrange(0, pre_v.len() as int) =~= pre_v);
    }
    lemma_log_decomposition(pre_v, base, post_v);
    let emitted = post_v.skip(pre_v.len() as int);
    assert(base.skip(pre_v.len() as int) =~= main_events);
    assert(emitted =~= main_events + u);
    lemma_dispatch_events_prefix_kinds(reads, a, reads.len() as int);
    lemma_sent_events_prefix_kinds(ms, a, ms.len() as int);
    assert forall|b: PeerAddr| count_success_for(disp, b) == 0 by {
        lemma_count_success_zero(disp, b);
    }
    assert forall|b: PeerAddr| count_success_for(sent, b) == 0 by {
        lemma_count_success_zero(sent, b);
    }
    assert forall|b: PeerAddr| count_success_for(u, b) == 0 by {
        lemma_count_success_zero(u, b);
    }
    assert forall|b: PeerAddr| #![auto] count_success_for(emitted, b)
        == count_success_for(head, b) by {
        crate::event::lemma_count_success_add(head, disp, b);
        crate::event::lemma_count_success_add(head + disp, sent, b);
        assert(head + disp + sent =~= (head + disp) + sent);
        crate::event::lemma_count_success_add(main_events, u, b);
        assert(count_success_for(emitted, b) == count_success_for(main_events + u, b));
    }
    if fired {
        assert(success_ev.is_success_for(a));
        assert(count_success_for(head, a) == 1) by {
            assert(head.len() == 1);
            assert(head.last() == success_ev);
            assert(head.drop_last() =~= Seq::<EventView>::empty());
            assert(count_success_for(head.drop_last(), a)
                == count_success_for(Seq::<EventView>::empty(), a));
            assert(count_success_for(Seq::<EventView>::empty(), a) == 0);
        }
        assert forall|b: PeerAddr| b != a implies count_success_for(head, b) == 0 by {
            assert(!success_ev.is_success_for(b));
            lemma_count_success_zero(head, b);
        }
    } else {
        assert forall|b: PeerAddr| #![auto] count_success_for(head, b) == 0 by {
            lemma_count_success_zero(head, b);
        }
    }
    assert(post.conn_at(a).ready() == fired);
    assert(!pre.conn_at(a).ready());
}

/// An accepted inbound arrival yields exactly one successful-connection
/// event when the outbound half was already `Established`, none
/// otherwise, and never one for any other address — the inbound
/// counterpart of the one-shot guarantee.
pub proof fn lemma_one_success_event_per_inbound(pre: Context, post: Context, a: PeerAddr)
    requires
        pre.wf(),
        !pre.has_conn(a) || pre.conn_at(a).from_peer is NoConnection,
        inbound_accept_transition(pre, post, a),
    ensures
        ({
            let emitted = event_views(post.events@).skip(event_views(pre.events@).len() as int);
            &&& count_success_for(emitted, a) == (if pre.has_conn(a)
                && pre.conn_at(a).to_peer is Established { 1nat } else { 0nat })
            &&& forall|b: PeerAddr| b != a ==> count_success_for(emitted, b) == 0
        }),
{
    let existed = pre.has_conn(a);
    let c = pre.conn_at(a);
    let fired = existed && c.to_peer is Established;
    let with_group = existed && c.bootstrap_group_id is Some;
    let info = NodeInfoView { peer_addr: a, peer_cert_der: c.to_peer.cert_view() };
    let success_ev = if with_group {
        EventView::BootstrappedTo { node: info }
    } else {
        EventView::ConnectedTo { peer: crate::types::PeerView::Node { node_info: info } }
    };
    let main_events = if fired { seq![success_ev] } else { Seq::<EventView>::empty() };
    let pre_v = event_views(pre.events@);
    let post_v = event_views(post.events@);
    let base = pre_v + main_events;
    assert(pre_v.is_prefix_of(base)) by {
        assert(base.subrange(0, pre_v.len() as int) =~= pre_v);
    }
    lemma_log_decomposition(pre_v, base, post_v);
    let u = post_v.skip(base.len() as int);
    let emitted = post_v.skip(pre_v.len() as int);
    assert(base.skip(pre_v.len() as int) =~= main_events);
    assert(emitted =~= main_events + u);
    assert forall|b: PeerAddr| count_success_for(u, b) == 0 by {
        lemma_count_success_zero(u, b);
    }
    if fired {
        assert(success_ev.is_success_for(a));
        assert(count_success_for(main_events, a) == 1) by {
            assert(main_events.drop_last() =~= Seq::<EventView>::empty());
            assert(count_success_for(Seq::<EventView>::empty(), a) == 0);
        }
        assert forall|b: PeerAddr| b != a implies count_success_for(main_events, b) == 0 by {
            assert(!success_ev.is_success_for(b));
            lemma_count_success_zero(main_events, b);
        }
    } else {
        assert forall|b: PeerAddr| #![auto] count_success_for(main_events, b) == 0 by {
            lemma_count_success_zero(main_events, b);
        }
    }
    assert forall|b: PeerAddr| #![auto] count_success_for(emitted, b)
        == count_success_for(main_events, b) by {
        crate::event::lemma_count_success_add(main_events, u, b);
        assert(count_success_for(emitted, b) == count_success_for(main_events + u, b));
    }
}

/// `BootstrappedTo` is emitted at outbound completion only when a
/// bootstrap-group reference was present then, and — provided every
/// grouped record was created by this side — only for a record with
/// `we_contacted_peer` set.
pub proof fn lemma_bootstrapped_only_with_group(pre: Context, post: Context, a: PeerAddr)
    requires
        pre.wf(),
        pre.has_conn(a),
        pre.conn_at(a).to_peer is Initiated,
        outbound_success_transition(pre, post, a),
        pre.conn_at(a).bootstrap_group_id is Some ==> pre.conn_at(a).we_contacted_peer,
    ensures
        ({
            let emitted = event_views(post.events@).skip(event_views(pre.events@).len() as int);
            forall|k: int| 0 <= k < emitted.len() && (#[trigger] emitted[k]) is BootstrappedTo
                ==> pre.conn_at(a).bootstrap_group_id is Some
                    && pre.conn_at(a).we_contacted_peer
        }),
{
    let c = pre.conn_at(a);
    let cert = c.to_peer.cert_view();
    let ms = c.to_peer.pending_sends_view();
    let reads = c.from_peer.pending_reads_view();
    let info = NodeInfoView { peer_addr: a, peer_cert_der: cert };
    let fired = c.from_peer.ready();
    let with_group = c.bootstrap_group_id is Some;
    let success_ev = if with_group {
        EventView::BootstrappedTo { node: info }
    } else {
        EventView::ConnectedTo { peer: crate::types::PeerView::Node { node_info: info } }
    };
    let head = if fired { seq![success_ev] } else { Seq::<EventView>::empty() };
    let disp = if c.from_peer is Established {
        dispatch_events_prefix(reads, a, reads.len() as int)
    } else {
        Seq::<EventView>::empty()
    };
    let sent = sent_events_prefix(ms, a, ms.len() as int);
    let main_events = head + disp + sent;
    let pre_v = event_views(pre.events@);
    let post_v = event_views(post.events@);
    let base = pre_v + main_events;
    assert(pre_v.is_prefix_of(base)) by {
        assert(base.subrange(0, pre_v.len() as int) =~= pre_v);
    }
    lemma_log_decomposition(pre_v, base, post_v);
    let u = post_v.skip(base.len() as int);
    let emitted = post_v.skip(pre_v.len() as int);
    assert(base.skip(pre_v.len() as int) =~= main_events);
    assert(emitted =~= main_events + u);
    lemma_dispatch_events_prefix_kinds(reads, a, reads.len() as int);
    lemma_sent_events_prefix_kinds(ms, a, ms.len() as int);
    assert forall|k: int| 0 <= k < emitted.len() && (#[trigger] emitted[k]) is BootstrappedTo
        implies c.bootstrap_group_id is Some && c.we_contacted_peer by {
        if k < main_events.len() {
            if k < head.len() {
                assert(emitted[k] == success_ev);
            } else if k < head.len() + disp.len() {
                assert(emitted[k] == disp[k - head.len()]);
            } else {
                assert(emitted[k] == sent[k - head.len() - disp.len()]);
            }
        } else {
            assert(emitted[k] == u[k - main_events.len()]);
        }
    }
}

/// The inbound counterpart: `BootstrappedTo` is emitted at an inbound
/// completion only when the record carried a group reference then, and —
/// provided every grouped record was created by this side — only for a
/// record with `we_contacted_peer` set.
pub proof fn lemma_inbound_bootstrapped_only_with_group(pre: Context, post: Context, a: PeerAddr)
    requires
        pre.wf(),
        !pre.has_conn(a) || pre.conn_at(a).from_peer is NoConnection,
        inbound_accept_transition(pre, post, a),
        pre.has_conn(a) && pre.conn_at(a).bootstrap_group_id is Some
            ==> pre.conn_at(a).we_contacted_peer,
    ensures
        ({
            let emitted = event_views(post.events@).skip(event_views(pre.events@).len() as int);
            forall|k: int| 0 <= k < emitted.len() && (#[trigger] emitted[k]) is BootstrappedTo
                ==> pre.has_conn(a) && pre.conn_at(a).bootstrap_group_id is Some
                    && pre.conn_at(a).we_contacted_peer
        }),
{
    let existed = pre.has_conn(a);
    let c = pre.conn_at(a);
    let fired = existed && c.to_peer is Established;
    let with_group = existed && c.bootstrap_group_id is Some;
    let info = NodeInfoView { peer_addr: a, peer_cert_der: c.to_peer.cert_view() };
    let main_events = if fired {
        if with_group {
            seq![EventView::BootstrappedTo { node: info }]
        } else {
            seq![
                EventView::ConnectedTo {
                    peer: crate::types::PeerView::Node { node_info: info },
                },
            ]
        }
    } else {
        Seq::<EventView>::empty()
    };
    let pre_v = event_views(pre.events@);
    let post_v = event_views(post.events@);
    let base = pre_v + main_events;
    assert(pre_v.is_prefix_of(base)) by {
        assert(base.subrange(0, pre_v.len() as int) =~= pre_v);
    }
    lemma_log_decomposition(pre_v, base, post_v);
    let u = post_v.skip(base.len() as int);
    let emitted = post_v.skip(pre_v.len() as int);
    assert(base.skip(pre_v.len() as int) =~= main_events);
    assert(emitted =~= main_events + u);
    assert forall|k: int| 0 <= k < emitted.len() && (#[trigger] emitted[k]) is BootstrappedTo
        implies existed && c.bootstrap_group_id is Some && c.we_contacted_peer by {
        if k < main_events.len() {
            assert(emitted[k] == main_events[k]);
        } else {
            assert(emitted[k] == u[k - main_events.len()]);
        }
    }
}

/// A `NodeInfo` enters the bootstrap cache only at outbound completion
/// of a record this side created: an inbound-only arrival leaves the
/// cache untouched, and a contacted peer lands at the back of the cache.
pub proof fn lemma_cache_entry_only_from_contacted(pre: Context, post: Context, a: PeerAddr)
    requires
        pre.wf(),
        pre.has_conn(a),
        pre.conn_at(a).to_peer is Initiated,
        outbound_success_transition(pre, post, a),
    ensures
        !pre.conn_at(a).we_contacted_peer ==> post.cache@ == pre.cache@,
        pre.conn_at(a).we_contacted_peer ==> post.cache@.len() >= 1
            && post.cache@.last() == (NodeInfoView {
                peer_addr: a,
                peer_cert_der: pre.conn_at(a).to_peer.cert_view(),
            }),
{
    let c = pre.conn_at(a);
    let info = NodeInfoView { peer_addr: a, peer_cert_der: c.to_peer.cert_view() };
    if c.we_contacted_peer {
        crate::cache::lemma_cache_add_last(pre.cache@, info, pre.cache.spec_capacity());
    }
}

/// The certificate a peer's success event reports is exactly the one the
/// dial was bound to: completing an outbound attempt whose inbound half
/// was already ready, with no group reference, emits — first among the
/// appended events — a `ConnectedTo` whose node carries the certificate
/// from the candidate `NodeInfo` the connect path was given.
pub proof fn lemma_connected_to_carries_expected_cert(
    pre: Context,
    post: Context,
    a: PeerAddr,
    expected_cert: Seq<u8>,
)
    requires
        pre.wf(),
        pre.has_conn(a),
        pre.conn_at(a).to_peer is Initiated,
        pre.conn_at(a).to_peer.cert_view() == expected_cert,
        pre.conn_at(a).from_peer.ready(),
        pre.conn_at(a).bootstrap_group_id is None,
        outbound_success_transition(pre, post, a),
    ensures
        event_views(post.events@).len() > event_views(pre.events@).len(),
        event_views(post.events@)[event_views(pre.events@).len() as int]
            == (EventView::ConnectedTo {
                peer: crate::types::PeerView::Node {
                    node_info: NodeInfoView { peer_addr: a, peer_cert_der: expected_cert },
                },
            }),
{
    let c = pre.conn_at(a);
    let info = NodeInfoView { peer_addr: a, peer_cert_der: expected_cert };
    let success_ev = EventView::ConnectedTo {
        peer: crate::types::PeerView::Node { node_info: info },
    };
    let reads = c.from_peer.pending_reads_view();
    let ms = c.to_peer.pending_sends_view();
    let disp = if c.from_peer is Established {
        dispatch_events_prefix(reads, a, reads.len() as int)
    } else {
        Seq::<EventView>::empty()
    };
    let main_events = seq![success_ev] + disp + sent_events_prefix(ms, a, ms.len() as int);
    let pre_v = event_views(pre.events@);
    let post_v = event_views(post.events@);
    assert(post_v == pre_v + main_events);
    assert(post_v[pre_v.len() as int] == main_events[0]);
    assert(main_events[0] == success_ev);
}

/// Messages submitted before `Established` are flushed at completion in
/// submission order: the action log gains one write per buffered send,
/// contiguous and in order.
pub proof fn lemma_pending_sends_flushed_in_order(pre: Context, post: Context, a: PeerAddr)
    requires
        pre.wf(),
        pre.has_conn(a),
        pre.conn_at(a).to_peer is Initiated,
        outbound_success_transition(pre, post, a),
    ensures
        ({
            let ms = pre.conn_at(a).to_peer.pending_sends_view();
            let reads = pre.conn_at(a).from_peer.pending_reads_view();
            let off = action_views(pre.actions@).len() + (match pre.conn_at(a).from_peer {
                FromPeer::Established { .. } =>
                    dispatch_actions_prefix(reads, a, reads.len() as int).len(),
                _ => 1nat,
            });
            &&& off + ms.len() <= action_views(post.actions@).len()
            &&& forall|q: int| 0 <= q < ms.len()
                ==> (#[trigger] action_views(post.actions@)[off + q])
                    == (ActionView::SendMsg { peer_addr: a, msg: ms[q] })
        }),
{
    let c = pre.conn_at(a);
    let ms = c.to_peer.pending_sends_view();
    let reads = c.from_peer.pending_reads_view();
    let hs_part = match c.from_peer {
        FromPeer::NoConnection => seq![
            ActionView::SendMsg {
                peer_addr: a,
                msg: WireMsgView::HandshakeNode { cert_der: pre.our_cert_der@ },
            },
        ],
        FromPeer::NotNeeded => seq![
            ActionView::SendMsg { peer_addr: a, msg: WireMsgView::HandshakeClient },
        ],
        FromPeer::Established { .. } => dispatch_actions_prefix(reads, a, reads.len() as int),
    };
    let flush = send_actions_prefix(ms, a, ms.len() as int);
    let tail_part = if c.from_peer is NotNeeded {
        seq![ActionView::AcceptIncoming { peer_addr: a }]
    } else {
        Seq::<ActionView>::empty()
    };
    let main_actions = hs_part + flush + tail_part;
    let pre_a = action_views(pre.actions@);
    let post_a = action_views(post.actions@);
    let base = pre_a + main_actions;
    lemma_send_actions_prefix_index(ms, a, ms.len() as int);
    let off = pre_a.len() + hs_part.len();
    assert(base.is_prefix_of(post_a));
    assert forall|q: int| 0 <= q < ms.len() implies post_a[off + q]
        == (ActionView::SendMsg { peer_addr: a, msg: ms[q] }) by {
        assert(base[off + q] == main_actions[hs_part.len() + q]);
        assert(main_actions[hs_part.len() + q] == flush[q]);
        assert(post_a.subrange(0, base.len() as int) =~= base);
        assert(post_a[off + q] == base[off + q]);
    }
}

} // verus!
