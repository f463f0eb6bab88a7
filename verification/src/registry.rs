//! The replication registry: the ordered table of replicated component
//! types. A component's replication id is its registration index, so the
//! registration order must be identical on every peer.

use vstd::prelude::*;

verus! {

/// The ordered table of registered component types. Each entry carries a
/// caller-chosen tag for the type it stands for; the entry's index is the
/// type's replication id on the wire.
#[derive(Debug, Default)]
pub struct Registry {
    pub tags: Vec<u64>,
}

impl Registry {
    pub open spec fn wf(self) -> bool {
        self.tags@.len() <= u32::MAX
    }

    pub fn new() -> (r: Registry)
        ensures
            r.wf(),
            r.tags@.len() == 0,
    {
        Registry { tags: Vec::new() }
    }

    /// Register one more replicated component type; the result is its
    /// replication id, the index of the registration.
    pub fn register(&mut self, tag: u64) -> (id: u32)
        requires
            old(self).wf(),
            old(self).tags@.len() < u32::MAX,
        ensures
            final(self).wf(),
            final(self).tags@ == old(self).tags@.push(tag),
            id == old(self).tags@.len(),
    {
        let id = self.tags.len() as u32;
        self.tags.push(tag);
        id
    }

    /// The number of registered component types.
    pub fn len(&self) -> (r: usize)
        ensures
            r == self.tags@.len(),
    {
        self.tags.len()
    }

    /// Whether two peers registered the same types in the same order: the
    /// protocol's compatibility check at connect time.
    pub fn compatible(&self, other: &Registry) -> (r: bool)
        ensures
            r == (self.tags@ == other.tags@),
    {
        if self.tags.len() != other.tags.len() {
            proof {
                assert(self.tags@ != other.tags@);
            }
            return false;
        }
        let n = self.tags.len();
        let mut i: usize = 0;
        while i < n
            invariant
                i <= n,
                n == self.tags@.len(),
                n == other.tags@.len(),
                forall|j: int| 0 <= j < i ==> self.tags@[j] == other.tags@[j],
            decreases n - i,
        {
            if self.tags[i] != other.tags[i] {
                return false;
            }
            i = i + 1;
        }
        proof {
            assert(self.tags@ =~= other.tags@);
        }
        true
    }
}

} // verus!
