//! Bootstrap cache: a bounded ordered set of recently reachable nodes.
//! Re-insertion moves an entry to the back; overflow evicts from the front.

use vstd::prelude::*;
use crate::types::{NodeInfo, NodeInfoView};

verus! {

/// Smallest capacity an implementation may choose.
pub const MIN_CACHE_CAPACITY: usize = 64;

/// The entries of `s` with every occurrence of `x` removed, order kept.
pub open spec fn spec_remove_matches(s: Seq<NodeInfoView>, x: NodeInfoView) -> Seq<NodeInfoView>
    decreases s.len(),
{
    if s.len() == 0 {
        Seq::empty()
    } else if s[0] == x {
        spec_remove_matches(s.drop_first(), x)
    } else {
        seq![s[0]] + spec_remove_matches(s.drop_first(), x)
    }
}

/// Insertion policy: drop old occurrences, append at the back, evict from
/// the front when the bound is exceeded.
pub open spec fn spec_cache_add(s: Seq<NodeInfoView>, x: NodeInfoView, cap: nat) -> Seq<NodeInfoView> {
    let t = spec_remove_matches(s, x).push(x);
    if t.len() > cap {
        t.subrange(t.len() - cap, t.len() as int)
    } else {
        t
    }
}

/// Removal only ever shrinks.
pub proof fn lemma_remove_matches_len(s: Seq<NodeInfoView>, x: NodeInfoView)
    ensures
        spec_remove_matches(s, x).len() <= s.len(),
    decreases s.len(),
{
    if s.len() > 0 {
        lemma_remove_matches_len(s.drop_first(), x);
    }
}

/// Removal distributes over appending one entry at the back.
pub proof fn lemma_remove_matches_push(s: Seq<NodeInfoView>, y: NodeInfoView, x: NodeInfoView)
    ensures
        spec_remove_matches(s.push(y), x) == if y == x {
            spec_remove_matches(s, x)
        } else {
            spec_remove_matches(s, x).push(y)
        },
    decreases s.len(),
{
    if s.len() == 0 {
        assert(s.push(y).len() == 1);
        assert(s.push(y)[0] == y);
        assert(s.push(y).drop_first() =~= Seq::<NodeInfoView>::empty());
        assert(spec_remove_matches(Seq::<NodeInfoView>::empty(), x) == Seq::<NodeInfoView>::empty());
        assert(s =~= Seq::<NodeInfoView>::empty());
        if y != x {
            assert(spec_remove_matches(s.push(y), x)
                == seq![y] + spec_remove_matches(Seq::<NodeInfoView>::empty(), x));
            assert(seq![y] + Seq::<NodeInfoView>::empty() =~= Seq::<NodeInfoView>::empty().push(y));
        }
    } else {
        assert(s.push(y)[0] == s[0]);
        assert(s.push(y).drop_first() =~= s.drop_first().push(y));
        lemma_remove_matches_push(s.drop_first(), y, x);
        if y != x {
            if s[0] == x {
                assert(spec_remove_matches(s.push(y), x)
                    == spec_remove_matches(s.drop_first().push(y), x));
            } else {
                assert(spec_remove_matches(s.push(y), x)
                    == seq![s[0]] + spec_remove_matches(s.drop_first(), x).push(y));
                assert(seq![s[0]] + spec_remove_matches(s.drop_first(), x).push(y)
                    =~= (seq![s[0]] + spec_remove_matches(s.drop_first(), x)).push(y));
            }
        }
    }
}

/// After an insertion the inserted entry stands at the back.
pub proof fn lemma_cache_add_last(s: Seq<NodeInfoView>, x: NodeInfoView, cap: nat)
    requires
        cap >= 1,
    ensures
        spec_cache_add(s, x, cap).len() >= 1,
        spec_cache_add(s, x, cap).last() == x,
        spec_cache_add(s, x, cap).len() <= cap || spec_cache_add(s, x, cap).len() <= s.len() + 1,
{
}

/// Bounded ordered set of recently reachable `NodeInfo`, newest at the
/// back.
pub struct BootstrapCache {
    pub peers: Vec<NodeInfo>,
    pub capacity: usize,
}

impl View for BootstrapCache {
    type V = Seq<NodeInfoView>;

    open spec fn view(&self) -> Seq<NodeInfoView> {
        Seq::new(self.peers@.len(), |i: int| self.peers@[i]@)
    }
}

impl BootstrapCache {
    /// The fixed bound this cache was created with.
    pub open spec fn spec_capacity(self) -> nat {
        self.capacity as nat
    }

    /// The cache respects its bound, and the bound is at least the
    /// library minimum.
    pub open spec fn wf(self) -> bool {
        self@.len() <= self.spec_capacity() && self.spec_capacity() >= MIN_CACHE_CAPACITY as nat
    }

    /// Empty cache with the given bound.
    pub fn new(capacity: usize) -> (r: BootstrapCache)
        requires
            capacity >= MIN_CACHE_CAPACITY,
        ensures
            r.wf(),
            r@ == Seq::<NodeInfoView>::empty(),
            r.spec_capacity() == capacity as nat,
    {
        let r = BootstrapCache { peers: Vec::new(), capacity };
        assert(r@ =~= Seq::<NodeInfoView>::empty());
        r
    }

    /// Number of cached entries.
    pub fn len(&self) -> (r: usize)
        ensures
            r as nat == self@.len(),
    {
        self.peers.len()
    }

    /// Record `info` as the most recently reachable node: old occurrences
    /// leave, the entry goes to the back, and the oldest entry is evicted
    /// if the bound would be exceeded.
    pub fn add_peer(&mut self, info: NodeInfo)
        requires
            old(self).wf(),
        ensures
            final(self).wf(),
            final(self)@ == spec_cache_add(old(self)@, info@, old(self).spec_capacity()),
            final(self).spec_capacity() == old(self).spec_capacity(),
    {
        let ghost s0 = self@;
        let mut kept: Vec<NodeInfo> = Vec::new();
        let mut i: usize = 0;
        while i < self.peers.len()
            invariant
                i <= self.peers@.len(),
                s0 == Seq::new(self.peers@.len(), |k: int| self.peers@[k]@),
                Seq::new(kept@.len(), |k: int| kept@[k]@)
                    == spec_remove_matches(s0.subrange(0, i as int), info@),
            decreases self.peers@.len() - i,
        {
            let ghost prefix = s0.subrange(0, i as int);
            let entry = self.peers[i].duplicate();
            proof {
                lemma_remove_matches_push(prefix, s0[i as int], info@);
                assert(s0.subrange(0, i + 1 as int) =~= prefix.push(s0[i as int]));
            }
            if !entry.same_info(&info) {
                kept.push(entry);
                proof {
                    assert(Seq::new(kept@.len(), |k: int| kept@[k]@)
                        =~= spec_remove_matches(s0.subrange(0, i + 1 as int), info@));
                }
            } else {
                proof {
                    assert(Seq::new(kept@.len(), |k: int| kept@[k]@)
                        =~= spec_remove_matches(s0.subrange(0, i + 1 as int), info@));
                }
            }
            i = i + 1;
        }
        proof {
            assert(s0.subrange(0, s0.len() as int) =~= s0);
            lemma_remove_matches_len(s0, info@);
        }
        kept.push(info);
        if kept.len() > self.capacity {
            kept.remove(0);
        }
        self.peers = kept;
        proof {
            assert(self@ =~= spec_cache_add(s0, info@, self.capacity as nat));
        }
    }

    /// Snapshot copy of the cache contents, oldest first.
    pub fn snapshot(&self) -> (r: Vec<NodeInfo>)
        ensures
            Seq::new(r@.len(), |i: int| r@[i]@) == self@,
    {
        let mut out: Vec<NodeInfo> = Vec::new();
        let mut i: usize = 0;
        while i < self.peers.len()
            invariant
                i <= self.peers@.len(),
                out@.len() == i as nat,
                forall|k: int| 0 <= k < i ==> out@[k]@ == self.peers@[k]@,
            decreases self.peers@.len() - i,
        {
            out.push(self.peers[i].duplicate());
            i = i + 1;
        }
        proof {
            assert(Seq::new(out@.len(), |i: int| out@[i]@) =~= self@);
        }
        out
    }
}

} // verus!
