//! The per-peer table mapping a server-chosen net id to the local entity
//! that stands for it: a partial bijection, grown when a snapshot first
//! cites an unknown net id and retired when the entity despawns.

use vstd::prelude::*;

verus! {

/// The net id to local entity map of one peer.
#[derive(Debug, Default)]
pub struct NetworkEntities {
    pub pairs: Vec<(u64, u64)>,
}

/// Whether `s` holds the pair `(net, local)`.
pub open spec fn has_pair(s: Seq<(u64, u64)>, net: u64, local: u64) -> bool {
    exists|i: int| 0 <= i < s.len() && s[i] == (net, local)
}

/// Whether `s` maps the net id `net` to something.
pub open spec fn has_net(s: Seq<(u64, u64)>, net: u64) -> bool {
    exists|i: int| 0 <= i < s.len() && (#[trigger] s[i]).0 == net
}

/// Whether some net id maps to the local entity `local`.
pub open spec fn has_local(s: Seq<(u64, u64)>, local: u64) -> bool {
    exists|i: int| 0 <= i < s.len() && (#[trigger] s[i]).1 == local
}

/// The local entity that `net` maps to (meaningful only when `has_net`).
pub open spec fn local_of(s: Seq<(u64, u64)>, net: u64) -> u64 {
    s[choose|i: int| 0 <= i < s.len() && (#[trigger] s[i]).0 == net].1
}

/// The net id that maps to `local` (meaningful only when `has_local`).
pub open spec fn net_of(s: Seq<(u64, u64)>, local: u64) -> u64 {
    s[choose|i: int| 0 <= i < s.len() && (#[trigger] s[i]).1 == local].0
}

/// The index of the pair for a net id (meaningful only when `has_net`).
pub open spec fn net_index(s: Seq<(u64, u64)>, net: u64) -> int {
    choose|i: int| 0 <= i < s.len() && (#[trigger] s[i]).0 == net
}

/// A map after a net id is retired.
pub open spec fn map_remove_spec(s: Seq<(u64, u64)>, net: u64) -> Seq<(u64, u64)> {
    if has_net(s, net) {
        s.remove(net_index(s, net))
    } else {
        s
    }
}

impl NetworkEntities {
    /// A partial bijection: no net id and no local entity appears twice.
    pub open spec fn wf(self) -> bool {
        forall|i: int, j: int|
            0 <= i < j < self.pairs@.len() ==> (#[trigger] self.pairs@[i]).0 != (
            #[trigger] self.pairs@[j]).0 && self.pairs@[i].1 != self.pairs@[j].1
    }

    pub fn new() -> (r: NetworkEntities)
        ensures
            r.wf(),
            r.pairs@.len() == 0,
    {
        NetworkEntities { pairs: Vec::new() }
    }

    /// The local entity recorded for a net id.
    pub fn get(&self, net: u64) -> (r: Option<u64>)
        requires
            self.wf(),
        ensures
            (match r {
                Some(local) => has_pair(self.pairs@, net, local),
                None => !has_net(self.pairs@, net),
            }),
    {
        let n = self.pairs.len();
        let mut i: usize = 0;
        while i < n
            invariant
                i <= n,
                n == self.pairs@.len(),
                forall|j: int| 0 <= j < i ==> (#[trigger] self.pairs@[j]).0 != net,
            decreases n - i,
        {
            let (k, v) = self.pairs[i];
            if k == net {
                return Some(v);
            }
            i = i + 1;
        }
        None
    }

    /// The net id whose local entity is `local`: the inverse lookup used
    /// when a client names its controlled entity to the server.
    pub fn get_by_local(&self, local: u64) -> (r: Option<u64>)
        requires
            self.wf(),
        ensures
            (match r {
                Some(net) => has_pair(self.pairs@, net, local),
                None => !has_local(self.pairs@, local),
            }),
    {
        let n = self.pairs.len();
        let mut i: usize = 0;
        while i < n
            invariant
                i <= n,
                n == self.pairs@.len(),
                forall|j: int| 0 <= j < i ==> (#[trigger] self.pairs@[j]).1 != local,
            decreases n - i,
        {
            let (k, v) = self.pairs[i];
            if v == local {
                return Some(k);
            }
            i = i + 1;
        }
        None
    }

    /// Record a fresh pair. The bijection demands that neither side is
    /// already present.
    pub fn insert(&mut self, net: u64, local: u64)
        requires
            old(self).wf(),
            !has_net(old(self).pairs@, net),
            !has_local(old(self).pairs@, local),
        ensures
            final(self).wf(),
            final(self).pairs@ == old(self).pairs@.push((net, local)),
    {
        self.pairs.push((net, local));
    }

    /// Retire a net id; its local entity may later be mapped again only
    /// under a fresh net id.
    pub fn remove(&mut self, net: u64)
        requires
            old(self).wf(),
        ensures
            final(self).wf(),
            !has_net(final(self).pairs@, net),
            final(self).pairs@ == map_remove_spec(old(self).pairs@, net),
            forall|k: u64, v: u64|
                #![trigger has_pair(final(self).pairs@, k, v)]
                has_pair(final(self).pairs@, k, v) <==> (has_pair(old(self).pairs@, k, v) && k
                    != net),
    {
        let ghost orig = self.pairs@;
        let n = self.pairs.len();
        let mut i: usize = 0;
        while i < n
            invariant
                i <= n,
                n == orig.len(),
                self.pairs@ == orig,
                old(self).wf(),
                orig == old(self).pairs@,
                forall|j: int| 0 <= j < i ==> (#[trigger] orig[j]).0 != net,
            decreases n - i,
        {
            let (k, _v) = self.pairs[i];
            if k == net {
                proof {
                    assert(has_net(orig, net));
                    let ci = net_index(orig, net);
                    assert(0 <= ci < orig.len() && orig[ci].0 == net);
                    assert(ci == i as int);
                }
                self.pairs.remove(i);
                proof {
                    let s2 = self.pairs@;
                    assert forall|a: int| 0 <= a < s2.len() implies #[trigger] s2[a] == (if a
                        < i as int {
                        orig[a]
                    } else {
                        orig[a + 1]
                    }) by {}
                    assert forall|k2: u64, v2: u64|
                        has_pair(s2, k2, v2) implies (has_pair(orig, k2, v2) && k2 != net) by {
                        let j = choose|j: int| 0 <= j < s2.len() && s2[j] == (k2, v2);
                        if j < i as int {
                            assert(orig[j] == (k2, v2));
                        } else {
                            assert(orig[j + 1] == (k2, v2));
                        }
                    }
                    assert forall|k2: u64, v2: u64|
                        has_pair(orig, k2, v2) && k2 != net implies has_pair(s2, k2, v2) by {
                        let j = choose|j: int| 0 <= j < orig.len() && orig[j] == (k2, v2);
                        if j < i as int {
                            assert(s2[j] == (k2, v2));
                        } else {
                            assert(j != i as int);
                            assert(s2[j - 1] == (k2, v2));
                        }
                    }
                    assert(!has_net(s2, net)) by {
                        if has_net(s2, net) {
                            let j = choose|j: int|
                                0 <= j < s2.len() && (#[trigger] s2[j]).0 == net;
                            if j < i as int {
                                assert(orig[j].0 == net);
                            } else {
                                assert(orig[j + 1].0 == net);
                            }
                        }
                    }
                }
                return;
            }
            i = i + 1;
        }
        proof {
            assert(!has_net(self.pairs@, net));
            assert forall|k2: u64, v2: u64|
                has_pair(self.pairs@, k2, v2) implies k2 != net by {
                let j = choose|j: int|
                    0 <= j < self.pairs@.len() && self.pairs@[j] == (k2, v2);
            }
        }
    }
}

} // verus!
