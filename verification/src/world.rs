//! The model of the replicated entity/component state that the protocol
//! acts on. An entity holds, for every registered replication id, an
//! optional live payload and an optional staged ("shadow") payload;
//! staged values are committed in one pass at the resync boundary, which
//! is what gives rollback a clean snapshot boundary.

use vstd::prelude::*;
use vstd::pervasive::VecAdditionalExecFns;

use crate::history::{ActionHistory, ActionState, ButtonState, HistoryView};

verus! {

/// One local entity: its id, the protocol markers, the per-replication-id
/// component payloads (live and staged), and its input state.
#[derive(Debug)]
pub struct Entity {
    pub id: u64,
    /// On the server: include this entity in outbound snapshots. On a
    /// client: this entity is a speculative local spawn, purged by
    /// rollback.
    pub replicate: bool,
    /// This entity's inputs originate here.
    pub control: bool,
    pub components: Vec<Option<Vec<u8>>>,
    pub staged: Vec<Option<Vec<u8>>>,
    pub history: Option<ActionHistory>,
    pub actions: Option<ActionState>,
}

#[verifier::ext_equal]
pub struct EntityView {
    pub id: u64,
    pub replicate: bool,
    pub control: bool,
    pub components: Seq<Option<Seq<u8>>>,
    pub staged: Seq<Option<Seq<u8>>>,
    pub history: Option<HistoryView>,
    pub actions: Option<Seq<ButtonState>>,
}

impl View for Entity {
    type V = EntityView;

    open spec fn view(&self) -> EntityView {
        EntityView {
            id: self.id,
            replicate: self.replicate,
            control: self.control,
            components: self.components.deep_view(),
            staged: self.staged.deep_view(),
            history: match self.history {
                Some(h) => Some(h@),
                None => None,
            },
            actions: match self.actions {
                Some(a) => Some(a@),
                None => None,
            },
        }
    }
}

/// The world model: the entities, the id counter for fresh spawns, and
/// the records of component removals and entity despawns that the next
/// snapshot emit will report.
#[derive(Debug)]
pub struct World {
    pub n_components: usize,
    pub next_id: u64,
    pub entities: Vec<Entity>,
    pub removed: Vec<(u64, u32)>,
    pub despawned: Vec<u64>,
}

#[verifier::ext_equal]
pub struct WorldView {
    pub n_components: usize,
    pub next_id: u64,
    pub entities: Seq<EntityView>,
    pub removed: Seq<(u64, u32)>,
    pub despawned: Seq<u64>,
}

impl View for World {
    type V = WorldView;

    open spec fn view(&self) -> WorldView {
        WorldView {
            n_components: self.n_components,
            next_id: self.next_id,
            entities: self.entities@.map_values(|e: Entity| e@),
            removed: self.removed@,
            despawned: self.despawned@,
        }
    }
}

/// Well-formedness of one entity against the registry size and the id
/// counter: the component tables cover exactly the registered ids, and
/// every payload and input record fits the wire's length prefixes.
pub open spec fn entity_wf(e: EntityView, n_components: usize, next_id: u64) -> bool {
    &&& e.id < next_id
    &&& e.components.len() == n_components
    &&& e.staged.len() == n_components
    &&& forall|k: int|
        0 <= k < e.components.len() ==> (#[trigger] e.components[k]) is Some
            ==> e.components[k]->Some_0.len() <= u32::MAX
    &&& forall|k: int|
        0 <= k < e.staged.len() ==> (#[trigger] e.staged[k]) is Some
            ==> e.staged[k]->Some_0.len() <= u32::MAX
    &&& match e.history {
        Some(h) => h.wf(),
        None => true,
    }
    &&& match e.actions {
        Some(a) => a.len() <= u32::MAX,
        None => true,
    }
}

impl WorldView {
    pub open spec fn wf(self) -> bool {
        &&& self.n_components <= u32::MAX
        &&& self.entities.len() <= u32::MAX
        &&& self.removed.len() <= u32::MAX
        &&& self.despawned.len() <= u32::MAX
        &&& forall|i: int|
            0 <= i < self.entities.len() ==> entity_wf(
                #[trigger] self.entities[i],
                self.n_components,
                self.next_id,
            )
        &&& forall|i: int, j: int|
            0 <= i < j < self.entities.len() ==> (#[trigger] self.entities[i]).id != (
            #[trigger] self.entities[j]).id
    }

    pub open spec fn has(self, id: u64) -> bool {
        exists|i: int| 0 <= i < self.entities.len() && (#[trigger] self.entities[i]).id == id
    }

    pub open spec fn index_of(self, id: u64) -> int {
        choose|i: int| 0 <= i < self.entities.len() && (#[trigger] self.entities[i]).id == id
    }

    pub open spec fn entity(self, id: u64) -> EntityView {
        self.entities[self.index_of(id)]
    }

    /// The live payload of one component of one entity, if both exist.
    pub open spec fn component(self, id: u64, rep: int) -> Option<Seq<u8>> {
        if self.has(id) && 0 <= rep < self.entity(id).components.len() {
            self.entity(id).components[rep]
        } else {
            None
        }
    }
}

/// Whether the world can take one more locally spawned entity.
pub open spec fn can_spawn(w: WorldView) -> bool {
    w.next_id < u64::MAX && w.entities.len() < u32::MAX
}

/// An empty component table: one absent slot per registered component.
pub open spec fn empty_slots(n: usize) -> Seq<Option<Seq<u8>>> {
    Seq::new(n as nat, |k: int| None)
}

/// The view of a freshly spawned entity.
pub open spec fn fresh_entity_view(id: u64, replicate: bool, control: bool, n: usize) -> EntityView {
    EntityView {
        id,
        replicate,
        control,
        components: empty_slots(n),
        staged: empty_slots(n),
        history: None,
        actions: None,
    }
}

impl World {
    pub fn new(n_components: usize) -> (r: World)
        requires
            n_components <= u32::MAX,
        ensures
            r@.wf(),
            r@.n_components == n_components,
            r@.next_id == 0,
            r@.entities.len() == 0,
            r@.removed.len() == 0,
            r@.despawned.len() == 0,
    {
        let r = World {
            n_components,
            next_id: 0,
            entities: Vec::new(),
            removed: Vec::new(),
            despawned: Vec::new(),
        };
        proof {
            assert(r@.entities =~= Seq::<EntityView>::empty());
        }
        r
    }

    /// Create an entity with no components; the result is its id.
    pub fn spawn(&mut self, replicate: bool, control: bool) -> (id: u64)
        requires
            old(self)@.wf(),
            old(self)@.next_id < u64::MAX,
            old(self)@.entities.len() < u32::MAX,
        ensures
            final(self)@.wf(),
            id == old(self)@.next_id,
            final(self)@ == (WorldView {
                next_id: (old(self)@.next_id + 1) as u64,
                entities: old(self)@.entities.push(
                    fresh_entity_view(old(self)@.next_id, replicate, control, old(self)@.n_components),
                ),
                ..old(self)@
            }),
            final(self)@.has(id),
    {
        let id = self.next_id;
        let nc = self.n_components;
        let mut components: Vec<Option<Vec<u8>>> = Vec::new();
        let mut staged: Vec<Option<Vec<u8>>> = Vec::new();
        let mut k: usize = 0;
        while k < nc
            invariant
                k <= nc,
                components@.len() == k,
                staged@.len() == k,
                forall|m: int| 0 <= m < k ==> components@[m] is None && staged@[m] is None,
            decreases nc - k,
        {
            components.push(None);
            staged.push(None);
            k = k + 1;
        }
        let e = Entity { id, replicate, control, components, staged, history: None, actions: None };
        proof {
            assert(e@.components =~= empty_slots(nc));
            assert(e@.staged =~= empty_slots(nc));
            assert(e@ =~= fresh_entity_view(id, replicate, control, nc));
        }
        self.entities.push(e);
        self.next_id = id + 1;
        proof {
            assert(self@.entities =~= old(self)@.entities.push(
                fresh_entity_view(id, replicate, control, nc),
            ));
            assert(self@ =~= (WorldView {
                next_id: (old(self)@.next_id + 1) as u64,
                entities: old(self)@.entities.push(
                    fresh_entity_view(old(self)@.next_id, replicate, control, old(self)@.n_components),
                ),
                ..old(self)@
            }));
            let v = self@;
            assert(v.entities[v.entities.len() - 1].id == id);
            assert forall|i: int| 0 <= i < v.entities.len() implies entity_wf(
                #[trigger] v.entities[i],
                v.n_components,
                v.next_id,
            ) by {
                if i < v.entities.len() - 1 {
                    assert(entity_wf(old(self)@.entities[i], v.n_components, old(self)@.next_id));
                }
            }
        }
        id
    }

    /// The index of the entity with the given id.
    pub fn find_index(&self, id: u64) -> (r: Option<usize>)
        ensures
            (match r {
                Some(i) => i < self@.entities.len() && self@.entities[i as int].id == id
                    && self@.has(id),
                None => !self@.has(id),
            }),
    {
        let n = self.entities.len();
        let mut i: usize = 0;
        while i < n
            invariant
                i <= n,
                n == self@.entities.len(),
                forall|j: int| 0 <= j < i ==> (#[trigger] self@.entities[j]).id != id,
            decreases n - i,
        {
            proof {
                assert(self@.entities[i as int].id == self.entities@[i as int]@.id);
            }
            if self.entities[i].id == id {
                return Some(i);
            }
            i = i + 1;
        }
        None
    }
}

// ---------------------------------------------------------------------------
// Specification transitions
// ---------------------------------------------------------------------------

/// Destroy an entity: it leaves the table, and if it carried the
/// replicate marker its id is recorded for the next snapshot's despawns.
pub open spec fn despawn_spec(w: WorldView, id: u64) -> WorldView {
    if w.has(id) {
        let i = w.index_of(id);
        WorldView {
            entities: w.entities.remove(i),
            despawned: if w.entities[i].replicate {
                w.despawned.push(id)
            } else {
                w.despawned
            },
            ..w
        }
    } else {
        w
    }
}

/// Install a live component value on an entity.
pub open spec fn set_component_spec(w: WorldView, id: u64, rep: int, data: Seq<u8>) -> WorldView {
    if w.has(id) && 0 <= rep < w.n_components {
        let i = w.index_of(id);
        let e = w.entities[i];
        WorldView {
            entities: w.entities.update(
                i,
                EntityView { components: e.components.update(rep, Some(data)), ..e },
            ),
            ..w
        }
    } else {
        w
    }
}

/// Remove a live component value from an entity; an actual removal is
/// recorded for the next snapshot emit.
pub open spec fn remove_component_spec(w: WorldView, id: u64, rep: int) -> WorldView {
    if w.has(id) && 0 <= rep < w.n_components && w.entity(id).components[rep] is Some {
        let i = w.index_of(id);
        let e = w.entities[i];
        WorldView {
            entities: w.entities.update(
                i,
                EntityView { components: e.components.update(rep, None), ..e },
            ),
            removed: w.removed.push((id, rep as u32)),
            ..w
        }
    } else {
        w
    }
}

/// Remove a live component value without recording the removal.
pub open spec fn remove_component_silent_spec(w: WorldView, id: u64, rep: int) -> WorldView {
    if w.has(id) && 0 <= rep < w.n_components {
        let i = w.index_of(id);
        let e = w.entities[i];
        WorldView {
            entities: w.entities.update(
                i,
                EntityView { components: e.components.update(rep, None), ..e },
            ),
            ..w
        }
    } else {
        w
    }
}

/// Write a decoded component value into the entity's shadow slot; it
/// becomes live only when the staged values are committed at resync.
pub open spec fn stage_component_spec(w: WorldView, id: u64, rep: int, data: Seq<u8>) -> WorldView {
    if w.has(id) && 0 <= rep < w.n_components {
        let i = w.index_of(id);
        let e = w.entities[i];
        WorldView {
            entities: w.entities.update(
                i,
                EntityView { staged: e.staged.update(rep, Some(data)), ..e },
            ),
            ..w
        }
    } else {
        w
    }
}

/// One entity after the resync commit: every staged value becomes live
/// and the shadow slots empty.
pub open spec fn commit_entity(e: EntityView) -> EntityView {
    EntityView {
        components: Seq::new(
            e.components.len(),
            |k: int| if e.staged[k] is Some {
                e.staged[k]
            } else {
                e.components[k]
            },
        ),
        staged: Seq::new(e.staged.len(), |k: int| None),
        ..e
    }
}

/// The whole world after the resync commit.
pub open spec fn commit_staged_spec(w: WorldView) -> WorldView {
    WorldView { entities: w.entities.map_values(|e: EntityView| commit_entity(e)), ..w }
}

/// The entities that survive a rollback purge: every entity carrying the
/// replicate marker (a client's speculative spawn) is destroyed.
pub open spec fn keep_unreplicated(s: Seq<EntityView>) -> Seq<EntityView>
    decreases s.len(),
{
    if s.len() == 0 {
        Seq::empty()
    } else if s[0].replicate {
        keep_unreplicated(s.drop_first())
    } else {
        seq![s[0]] + keep_unreplicated(s.drop_first())
    }
}

pub open spec fn purge_replicate_spec(w: WorldView) -> WorldView {
    WorldView { entities: keep_unreplicated(w.entities), ..w }
}

/// The ids of the entities whose live slot for `rep` is filled, in table
/// order.
pub open spec fn ids_with(s: Seq<EntityView>, rep: int) -> Seq<u64>
    decreases s.len(),
{
    if s.len() == 0 {
        Seq::empty()
    } else if 0 <= rep < s[0].components.len() && s[0].components[rep] is Some {
        seq![s[0].id] + ids_with(s.drop_first(), rep)
    } else {
        ids_with(s.drop_first(), rep)
    }
}

proof fn lemma_keep_unreplicated_wf(s: Seq<EntityView>, nc: usize, next: u64)
    requires
        forall|i: int| 0 <= i < s.len() ==> entity_wf(#[trigger] s[i], nc, next),
        forall|i: int, j: int| 0 <= i < j < s.len() ==> (#[trigger] s[i]).id != (#[trigger] s[j]).id,
    ensures
        keep_unreplicated(s).len() <= s.len(),
        forall|i: int|
            0 <= i < keep_unreplicated(s).len() ==> entity_wf(
                #[trigger] keep_unreplicated(s)[i],
                nc,
                next,
            ),
        forall|i: int|
            0 <= i < keep_unreplicated(s).len() ==> s.contains(#[trigger] keep_unreplicated(s)[i]),
        forall|i: int, j: int|
            0 <= i < j < keep_unreplicated(s).len() ==> (#[trigger] keep_unreplicated(s)[i]).id != (
            #[trigger] keep_unreplicated(s)[j]).id,
        forall|i: int| 0 <= i < keep_unreplicated(s).len() ==> !(#[trigger] keep_unreplicated(s)[i]).replicate,
    decreases s.len(),
{
    if s.len() == 0 {
    } else {
        let rest = s.drop_first();
        lemma_keep_unreplicated_wf(rest, nc, next);
        let ks = keep_unreplicated(s);
        let kr = keep_unreplicated(rest);
        assert forall|i: int| 0 <= i < kr.len() implies s.contains(#[trigger] kr[i]) by {
            assert(rest.contains(kr[i]));
            let j = choose|j: int| 0 <= j < rest.len() && rest[j] == kr[i];
            assert(s[j + 1] == kr[i]);
        }
        if !s[0].replicate {
            assert(ks =~= seq![s[0]] + kr);
            assert forall|a: int, b: int| 0 <= a < b < ks.len() implies (#[trigger] ks[a]).id != (
            #[trigger] ks[b]).id by {
                if a == 0 {
                    assert(ks[b] == kr[b - 1]);
                    assert(rest.contains(kr[b - 1]));
                    let j = choose|j: int| 0 <= j < rest.len() && rest[j] == kr[b - 1];
                    assert(s[j + 1] == kr[b - 1]);
                    assert(s[0].id != s[j + 1].id);
                } else {
                    assert(ks[a] == kr[a - 1] && ks[b] == kr[b - 1]);
                }
            }
        }
    }
}

impl World {
    /// Destroy the entity with the given id; the result says whether it
    /// existed.
    pub fn despawn(&mut self, id: u64) -> (found: bool)
        requires
            old(self)@.wf(),
            old(self)@.despawned.len() < u32::MAX,
        ensures
            final(self)@.wf(),
            final(self)@ == despawn_spec(old(self)@, id),
            found == old(self)@.has(id),
    {
        let idx = match self.find_index(id) {
            Some(i) => i,
            None => {
                return false;
            },
        };
        let ghost w0 = self@;
        proof {
            let ci = w0.index_of(id);
            assert(0 <= ci < w0.entities.len() && w0.entities[ci].id == id);
            assert(ci == idx as int);
        }
        let replicate = self.entities[idx].replicate;
        self.entities.remove(idx);
        if replicate {
            self.despawned.push(id);
        }
        proof {
            assert(self@.entities =~= w0.entities.remove(idx as int));
            assert(self@ =~= despawn_spec(w0, id));
            let v = self@;
            assert forall|a: int| 0 <= a < v.entities.len() implies #[trigger] v.entities[a] == (
            if a < idx as int {
                w0.entities[a]
            } else {
                w0.entities[a + 1]
            }) by {}
            assert forall|a: int, b: int| 0 <= a < b < v.entities.len() implies (
            #[trigger] v.entities[a]).id != (#[trigger] v.entities[b]).id by {}
        }
        true
    }

    /// Install a live component value; the result says whether the entity
    /// exists and the replication id is registered.
    pub fn set_component(&mut self, id: u64, rep: usize, data: Vec<u8>) -> (ok: bool)
        requires
            old(self)@.wf(),
            data@.len() <= u32::MAX,
        ensures
            final(self)@.wf(),
            final(self)@ == set_component_spec(old(self)@, id, rep as int, data@),
            ok == (old(self)@.has(id) && rep < old(self)@.n_components),
    {
        let idx = match self.find_index(id) {
            Some(i) => i,
            None => {
                return false;
            },
        };
        if rep >= self.n_components {
            return false;
        }
        let ghost w0 = self@;
        proof {
            let ci = w0.index_of(id);
            assert(0 <= ci < w0.entities.len() && w0.entities[ci].id == id);
            assert(ci == idx as int);
            assert(w0.entities[idx as int].components.len() == w0.n_components);
        }
        let e = &mut self.entities[idx];
        e.components.set(rep, Some(data));
        proof {
            let e0 = w0.entities[idx as int];
            assert(data.deep_view() =~= data@);
            assert(self.entities@[idx as int]@.components =~~= e0.components.update(
                rep as int,
                Some(data@),
            ));
            assert(self.entities@[idx as int]@ =~= (EntityView {
                components: e0.components.update(rep as int, Some(data@)),
                ..e0
            }));
            assert(self@.entities =~= w0.entities.update(
                idx as int,
                EntityView { components: e0.components.update(rep as int, Some(data@)), ..e0 },
            ));
            assert(self@ =~= set_component_spec(w0, id, rep as int, data@));
        }
        true
    }

    /// Remove a live component value, recording the removal for the next
    /// snapshot emit; the result says whether a value was present.
    pub fn remove_component(&mut self, id: u64, rep: usize) -> (was_present: bool)
        requires
            old(self)@.wf(),
            old(self)@.removed.len() < u32::MAX,
        ensures
            final(self)@.wf(),
            final(self)@ == remove_component_spec(old(self)@, id, rep as int),
            was_present == (old(self)@.has(id) && rep < old(self)@.n_components && old(
                self,
            )@.entity(id).components[rep as int] is Some),
    {
        let idx = match self.find_index(id) {
            Some(i) => i,
            None => {
                return false;
            },
        };
        if rep >= self.n_components {
            return false;
        }
        let ghost w0 = self@;
        proof {
            let ci = w0.index_of(id);
            assert(0 <= ci < w0.entities.len() && w0.entities[ci].id == id);
            assert(ci == idx as int);
            assert(w0.entities[idx as int].components.len() == w0.n_components);
            assert(w0.entity(id) == w0.entities[idx as int]);
        }
        let e = &mut self.entities[idx];
        let present = match &e.components[rep] {
            Some(_) => true,
            None => false,
        };
        if !present {
            proof {
                assert(self@ =~= w0);
            }
            return false;
        }
        e.components.set(rep, None);
        self.removed.push((id, rep as u32));
        proof {
            let e0 = w0.entities[idx as int];
            assert(self.entities@[idx as int]@.components =~= e0.components.update(rep as int, None));
            assert(self.entities@[idx as int]@ =~= (EntityView {
                components: e0.components.update(rep as int, None),
                ..e0
            }));
            assert(self@.entities =~= w0.entities.update(
                idx as int,
                EntityView { components: e0.components.update(rep as int, None), ..e0 },
            ));
            assert(self@ =~= remove_component_spec(w0, id, rep as int));
        }
        true
    }

    /// Remove a live component value without recording the removal: the
    /// form used when a snapshot's removal list is applied on a client,
    /// which never emits snapshots of its own.
    pub fn remove_component_silent(&mut self, id: u64, rep: usize)
        requires
            old(self)@.wf(),
        ensures
            final(self)@.wf(),
            final(self)@ == remove_component_silent_spec(old(self)@, id, rep as int),
    {
        let idx = match self.find_index(id) {
            Some(i) => i,
            None => {
                return ;
            },
        };
        if rep >= self.n_components {
            return ;
        }
        let ghost w0 = self@;
        proof {
            let ci = w0.index_of(id);
            assert(0 <= ci < w0.entities.len() && w0.entities[ci].id == id);
            assert(ci == idx as int);
            assert(w0.entities[idx as int].components.len() == w0.n_components);
        }
        let e = &mut self.entities[idx];
        e.components.set(rep, None);
        proof {
            let e0 = w0.entities[idx as int];
            assert(self.entities@[idx as int]@.components =~~= e0.components.update(
                rep as int,
                None,
            ));
            assert(self.entities@[idx as int]@ =~= (EntityView {
                components: e0.components.update(rep as int, None),
                ..e0
            }));
            assert(self@.entities =~= w0.entities.update(
                idx as int,
                EntityView { components: e0.components.update(rep as int, None), ..e0 },
            ));
            assert(self@ =~= remove_component_silent_spec(w0, id, rep as int));
        }
    }

    /// Write a decoded component value into an entity's shadow slot.
    pub fn stage_component(&mut self, id: u64, rep: usize, data: Vec<u8>) -> (ok: bool)
        requires
            old(self)@.wf(),
            data@.len() <= u32::MAX,
        ensures
            final(self)@.wf(),
            final(self)@ == stage_component_spec(old(self)@, id, rep as int, data@),
            ok == (old(self)@.has(id) && rep < old(self)@.n_components),
    {
        let idx = match self.find_index(id) {
            Some(i) => i,
            None => {
                return false;
            },
        };
        if rep >= self.n_components {
            return false;
        }
        let ghost w0 = self@;
        proof {
            let ci = w0.index_of(id);
            assert(0 <= ci < w0.entities.len() && w0.entities[ci].id == id);
            assert(ci == idx as int);
            assert(w0.entities[idx as int].staged.len() == w0.n_components);
        }
        let e = &mut self.entities[idx];
        e.staged.set(rep, Some(data));
        proof {
            let e0 = w0.entities[idx as int];
            assert(data.deep_view() =~= data@);
            assert(self.entities@[idx as int]@.staged =~~= e0.staged.update(rep as int, Some(data@)));
            assert(self.entities@[idx as int]@ =~= (EntityView {
                staged: e0.staged.update(rep as int, Some(data@)),
                ..e0
            }));
            assert(self@.entities =~= w0.entities.update(
                idx as int,
                EntityView { staged: e0.staged.update(rep as int, Some(data@)), ..e0 },
            ));
            assert(self@ =~= stage_component_spec(w0, id, rep as int, data@));
        }
        true
    }

    /// The resync commit: apply every staged shadow value in one pass.
    pub fn commit_staged(&mut self)
        requires
            old(self)@.wf(),
        ensures
            final(self)@.wf(),
            final(self)@ == commit_staged_spec(old(self)@),
    {
        let ghost w0 = self@;
        let n = self.entities.len();
        let mut i: usize = 0;
        while i < n
            invariant
                i <= n,
                n == self.entities@.len(),
                self.entities@.len() == w0.entities.len(),
                self.n_components == w0.n_components,
                self.next_id == w0.next_id,
                self.removed@ == w0.removed,
                self.despawned@ == w0.despawned,
                forall|j: int|
                    0 <= j < i ==> self.entities@[j]@ == commit_entity(#[trigger] w0.entities[j]),
                forall|j: int| i <= j < n ==> self.entities@[j]@ == #[trigger] w0.entities[j],
                w0.wf(),
            decreases n - i,
        {
            let ghost e0 = w0.entities[i as int];
            let nc = self.entities[i].staged.len();
            proof {
                assert(e0.staged.len() == w0.n_components);
                assert(e0.components.len() == w0.n_components);
            }
            let mut k: usize = 0;
            while k < nc
                invariant
                    k <= nc,
                    i < n,
                    n == self.entities@.len(),
                    nc == e0.staged.len(),
                    nc == e0.components.len(),
                    e0 == w0.entities[i as int],
                    self.entities@.len() == w0.entities.len(),
                    self.n_components == w0.n_components,
                    self.next_id == w0.next_id,
                    self.removed@ == w0.removed,
                    self.despawned@ == w0.despawned,
                    forall|j: int|
                        0 <= j < i ==> self.entities@[j]@ == commit_entity(
                            #[trigger] w0.entities[j],
                        ),
                    forall|j: int| i < j < n ==> self.entities@[j]@ == #[trigger] w0.entities[j],
                    self.entities@[i as int]@.id == e0.id,
                    self.entities@[i as int]@.replicate == e0.replicate,
                    self.entities@[i as int]@.control == e0.control,
                    self.entities@[i as int]@.history == e0.history,
                    self.entities@[i as int]@.actions == e0.actions,
                    self.entities@[i as int]@.components.len() == nc,
                    self.entities@[i as int]@.staged.len() == nc,
                    forall|m: int|
                        0 <= m < k ==> (#[trigger] self.entities@[i as int]@.components[m]) == (
                        if e0.staged[m] is Some {
                            e0.staged[m]
                        } else {
                            e0.components[m]
                        }),
                    forall|m: int|
                        0 <= m < k ==> (#[trigger] self.entities@[i as int]@.staged[m]) is None,
                    forall|m: int|
                        k <= m < nc ==> (#[trigger] self.entities@[i as int]@.components[m])
                            == e0.components[m],
                    forall|m: int|
                        k <= m < nc ==> (#[trigger] self.entities@[i as int]@.staged[m])
                            == e0.staged[m],
                    w0.wf(),
                decreases nc - k,
            {
                let ghost pre_entity = self.entities@[i as int]@;
                let ghost pre_staged_k = self.entities@[i as int]@.staged[k as int];
                let ghost pre_comp_k = self.entities@[i as int]@.components[k as int];
                let e = &mut self.entities[i];
                let taken = e.staged[k].take();
                proof {
                    assert(taken.deep_view() == pre_staged_k);
                    assert(pre_staged_k == e0.staged[k as int]);
                    assert(pre_comp_k == e0.components[k as int]);
                }
                match taken {
                    Some(v) => {
                        proof {
                            assert(e0.staged[k as int] == Some(v.deep_view()));
                        }
                        e.components.set(k, Some(v));
                    },
                    None => {
                        proof {
                            assert(e0.staged[k as int] is None);
                        }
                    },
                }
                proof {
                    let ev = self.entities@[i as int]@;
                    assert(ev.staged[k as int] is None);
                    assert(ev.components[k as int] == (if e0.staged[k as int] is Some {
                        e0.staged[k as int]
                    } else {
                        e0.components[k as int]
                    }));
                    assert forall|m: int| 0 <= m < nc && m != k as int implies (
                    #[trigger] ev.staged[m]) == pre_entity.staged[m] by {}
                    assert forall|m: int| 0 <= m < nc && m != k as int implies (
                    #[trigger] ev.components[m]) == pre_entity.components[m] by {}
                }
                k = k + 1;
            }
            proof {
                assert(self.entities@[i as int]@ =~= commit_entity(e0));
            }
            i = i + 1;
        }
        proof {
            assert(self@.entities =~= w0.entities.map_values(|e: EntityView| commit_entity(e)));
            assert(self@ =~= commit_staged_spec(w0));
            let v = self@;
            assert forall|a: int| 0 <= a < v.entities.len() implies entity_wf(
                #[trigger] v.entities[a],
                v.n_components,
                v.next_id,
            ) by {
                assert(v.entities[a] == commit_entity(w0.entities[a]));
                assert(entity_wf(w0.entities[a], w0.n_components, w0.next_id));
            }
        }
    }

    /// The rollback purge: destroy every entity carrying the replicate
    /// marker (on a client these are exactly the speculative spawns).
    pub fn purge_replicate(&mut self)
        requires
            old(self)@.wf(),
        ensures
            final(self)@.wf(),
            final(self)@ == purge_replicate_spec(old(self)@),
    {
        let ghost w0 = self@;
        let ghost orig = self.entities@;
        let mut out: Vec<Entity> = Vec::new();
        let n = self.entities.len();
        proof {
            assert(w0.entities.skip(0) =~= w0.entities);
            assert(out@.map_values(|e: Entity| e@) =~= Seq::<EntityView>::empty());
            assert(keep_unreplicated(w0.entities) =~= out@.map_values(|e: Entity| e@)
                + keep_unreplicated(w0.entities.skip(0)));
        }
        let mut i: usize = 0;
        while i < n
            invariant
                i <= n,
                n == self.entities@.len(),
                self.entities@ == orig,
                w0.entities == orig.map_values(|e: Entity| e@),
                keep_unreplicated(w0.entities) == out@.map_values(|e: Entity| e@)
                    + keep_unreplicated(w0.entities.skip(i as int)),
            decreases n - i,
        {
            proof {
                assert(w0.entities.skip(i as int).drop_first() =~= w0.entities.skip(i as int + 1));
                assert(w0.entities.skip(i as int)[0] == w0.entities[i as int]);
            }
            let replicate = self.entities[i].replicate;
            if !replicate {
                let ghost before = out@;
                let e = clone_entity(&self.entities[i]);
                out.push(e);
                proof {
                    assert(out@.map_values(|e: Entity| e@) =~= before.map_values(|e: Entity| e@)
                        + seq![w0.entities[i as int]]);
                    assert(out@.map_values(|e: Entity| e@) + keep_unreplicated(
                        w0.entities.skip(i as int + 1),
                    ) =~= before.map_values(|e: Entity| e@) + keep_unreplicated(
                        w0.entities.skip(i as int),
                    ));
                }
            }
            i = i + 1;
        }
        proof {
            assert(w0.entities.skip(n as int) =~= Seq::<EntityView>::empty());
            assert(out@.map_values(|e: Entity| e@) + Seq::<EntityView>::empty() =~= out@.map_values(
                |e: Entity| e@,
            ));
        }
        self.entities = out;
        proof {
            assert(self@.entities =~= keep_unreplicated(w0.entities));
            assert(self@ =~= purge_replicate_spec(w0));
            lemma_keep_unreplicated_wf(w0.entities, w0.n_components, w0.next_id);
        }
    }

    /// Forget the removal and despawn records that the last snapshot emit
    /// reported.
    pub fn clear_emit_records(&mut self)
        requires
            old(self)@.wf(),
        ensures
            final(self)@.wf(),
            final(self)@ == (WorldView {
                removed: Seq::empty(),
                despawned: Seq::empty(),
                ..old(self)@
            }),
    {
        self.removed.clear();
        self.despawned.clear();
        proof {
            assert(self@ =~= (WorldView {
                removed: Seq::empty(),
                despawned: Seq::empty(),
                ..old(self)@
            }));
        }
    }

    /// The ids of the entities whose live slot for `rep` is filled.
    pub fn ids_with_component(&self, rep: usize) -> (r: Vec<u64>)
        requires
            self@.wf(),
        ensures
            r@ == ids_with(self@.entities, rep as int),
    {
        let ghost w0 = self@;
        let mut out: Vec<u64> = Vec::new();
        let n = self.entities.len();
        proof {
            assert(w0.entities.skip(0) =~= w0.entities);
            assert(out@ =~= Seq::<u64>::empty());
            assert(ids_with(w0.entities, rep as int) =~= out@ + ids_with(
                w0.entities.skip(0),
                rep as int,
            ));
        }
        let mut i: usize = 0;
        while i < n
            invariant
                i <= n,
                n == self@.entities.len(),
                self@ == w0,
                ids_with(w0.entities, rep as int) == out@ + ids_with(
                    w0.entities.skip(i as int),
                    rep as int,
                ),
            decreases n - i,
        {
            proof {
                assert(w0.entities.skip(i as int).drop_first() =~= w0.entities.skip(i as int + 1));
                assert(w0.entities.skip(i as int)[0] == w0.entities[i as int]);
            }
            let present = if rep < self.entities[i].components.len() {
                match &self.entities[i].components[rep] {
                    Some(_) => true,
                    None => false,
                }
            } else {
                false
            };
            if present {
                let ghost before = out@;
                out.push(self.entities[i].id);
                proof {
                    assert(out@ + ids_with(w0.entities.skip(i as int + 1), rep as int)
                        =~= before + ids_with(w0.entities.skip(i as int), rep as int));
                }
            }
            i = i + 1;
        }
        proof {
            assert(w0.entities.skip(n as int) =~= Seq::<EntityView>::empty());
            assert(out@ + Seq::<u64>::empty() =~= out@);
        }
        out
    }

    /// How many entities carry a live value for the component `rep`.
    pub fn count_with_component(&self, rep: usize) -> (r: usize)
        requires
            self@.wf(),
        ensures
            r == ids_with(self@.entities, rep as int).len(),
    {
        let ids = self.ids_with_component(rep);
        ids.len()
    }

    /// The live payload of one component of one entity.
    pub fn component_bytes(&self, id: u64, rep: usize) -> (r: Option<&Vec<u8>>)
        requires
            self@.wf(),
        ensures
            (match r {
                Some(v) => self@.component(id, rep as int) == Some(v@),
                None => self@.component(id, rep as int) is None,
            }),
    {
        let idx = match self.find_index(id) {
            Some(i) => i,
            None => {
                return None;
            },
        };
        proof {
            let ci = self@.index_of(id);
            assert(0 <= ci < self@.entities.len() && self@.entities[ci].id == id);
            assert(ci == idx as int);
            assert(self@.entity(id) == self@.entities[idx as int]);
        }
        if rep >= self.entities[idx].components.len() {
            return None;
        }
        match &self.entities[idx].components[rep] {
            Some(v) => Some(v),
            None => None,
        }
    }
}

/// A verified deep copy of one entity.
pub fn clone_entity(e: &Entity) -> (r: Entity)
    ensures
        r@ == e@,
{
    let mut components: Vec<Option<Vec<u8>>> = Vec::new();
    let n = e.components.len();
    let mut i: usize = 0;
    while i < n
        invariant
            i <= n,
            n == e.components@.len(),
            components@.len() == i,
            forall|j: int| 0 <= j < i ==> components@[j].deep_view() == e.components@[j].deep_view(),
        decreases n - i,
    {
        let c = match &e.components[i] {
            Some(v) => Some(clone_bytes(v)),
            None => None,
        };
        components.push(c);
        i = i + 1;
    }
    let mut staged: Vec<Option<Vec<u8>>> = Vec::new();
    let m = e.staged.len();
    let mut j: usize = 0;
    while j < m
        invariant
            j <= m,
            m == e.staged@.len(),
            staged@.len() == j,
            forall|k: int| 0 <= k < j ==> staged@[k].deep_view() == e.staged@[k].deep_view(),
        decreases m - j,
    {
        let c = match &e.staged[j] {
            Some(v) => Some(clone_bytes(v)),
            None => None,
        };
        staged.push(c);
        j = j + 1;
    }
    let history = match &e.history {
        Some(h) => Some(clone_history(h)),
        None => None,
    };
    let actions = match &e.actions {
        Some(a) => Some(a.clone()),
        None => None,
    };
    let r = Entity {
        id: e.id,
        replicate: e.replicate,
        control: e.control,
        components,
        staged,
        history,
        actions,
    };
    proof {
        assert(r@.components =~= e@.components);
        assert(r@.staged =~= e@.staged);
        assert(r@ =~= e@);
    }
    r
}

/// A verified deep copy of an input history.
pub fn clone_history(h: &ActionHistory) -> (r: ActionHistory)
    ensures
        r@ == h@,
{
    let mut q: std::collections::VecDeque<ActionState> = std::collections::VecDeque::new();
    let n = h.history.len();
    let mut i: usize = 0;
    while i < n
        invariant
            i <= n,
            n == h.history@.len(),
            q@.len() == i,
            forall|j: int| 0 <= j < i ==> (#[trigger] q@[j])@ == h.history@[j]@,
        decreases n - i,
    {
        let a = h.history[i].clone();
        q.push_back(a);
        i = i + 1;
    }
    let r = ActionHistory { tick: h.tick, history: q };
    proof {
        assert(r@.entries =~= h@.entries);
        assert(r@ =~= h@);
    }
    r
}

/// A verified byte-for-byte copy; the model stores payloads by value, so
/// gathering them into a packet copies them.
pub fn clone_bytes(v: &Vec<u8>) -> (r: Vec<u8>)
    ensures
        r@ == v@,
{
    let mut r: Vec<u8> = Vec::new();
    let n = v.len();
    let mut i: usize = 0;
    while i < n
        invariant
            i <= n,
            n == v@.len(),
            r@ == v@.take(i as int),
        decreases n - i,
    {
        r.push(v[i]);
        proof {
            assert(r@ =~= v@.take(i as int + 1));
        }
        i = i + 1;
    }
    proof {
        assert(v@.take(n as int) =~= v@);
    }
    r
}

} // verus!
