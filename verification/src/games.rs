//! The extension point for gameplay: a game is a deterministic transform
//! of the world, run once in the update phase of every tick pass. The
//! simulation core is generic over it, and rollback re-runs it against
//! past worlds, so its exec body must follow its own specification
//! function exactly — that functional contract is what makes
//! resimulation reproduce the original execution.

use vstd::prelude::*;
use vstd::bytes::{spec_u64_to_le_bytes, spec_u64_from_le_bytes, u64_from_le_bytes, u64_to_le_bytes};

use crate::world::{can_spawn, fresh_entity_view, set_component_spec, EntityView, World, WorldView};

verus! {

/// One tick of gameplay simulation. Implementations must be pure
/// functions of the world: the contract pins the exec body to
/// `update_spec`, and rollback correctness rests on it.
pub trait GameLogic {
    /// What one update-phase run does to the world.
    spec fn update_spec(&self, w: WorldView) -> WorldView;

    /// Run one update-phase pass.
    fn update(&self, world: &mut World)
        requires
            old(world)@.wf(),
        ensures
            final(world)@ == self.update_spec(old(world)@),
            final(world)@.wf(),
            final(world)@.n_components == old(world)@.n_components,
            final(world)@.next_id >= old(world)@.next_id,
    ;
}

/// A game with no rules of its own: replication and prediction alone.
pub struct NullGame;

impl GameLogic for NullGame {
    open spec fn update_spec(&self, w: WorldView) -> WorldView {
        w
    }

    fn update(&self, world: &mut World) {
    }
}

/// A little-endian 64-bit counter payload, stepped by one with wraparound.
pub open spec fn stepped_counter(d: Seq<u8>) -> Seq<u8> {
    spec_u64_to_le_bytes(((spec_u64_from_le_bytes(d) + 1) as u64) as u64)
}

/// One entity after a `CounterGame` tick.
pub open spec fn count_up_entity(e: EntityView, rep: int) -> EntityView {
    if 0 <= rep < e.components.len() && e.components[rep] is Some && e.components[rep]->Some_0.len()
        == 8 {
        EntityView {
            components: e.components.update(rep, Some(stepped_counter(e.components[rep]->Some_0))),
            ..e
        }
    } else {
        e
    }
}

/// A game whose single rule is: every entity carrying the counter
/// component steps it by one each tick.
pub struct CounterGame {
    pub rep: usize,
}

impl GameLogic for CounterGame {
    open spec fn update_spec(&self, w: WorldView) -> WorldView {
        WorldView {
            entities: w.entities.map_values(|e: EntityView| count_up_entity(e, self.rep as int)),
            ..w
        }
    }

    fn update(&self, world: &mut World) {
        let ghost w0 = world@;
        let rep = self.rep;
        let n = world.entities.len();
        let mut i: usize = 0;
        while i < n
            invariant
                i <= n,
                n == world@.entities.len(),
                world@.n_components == w0.n_components,
                world@.next_id == w0.next_id,
                world@.removed == w0.removed,
                world@.despawned == w0.despawned,
                rep == self.rep,
                w0.wf(),
                forall|j: int|
                    0 <= j < i ==> world@.entities[j] == count_up_entity(
                        #[trigger] w0.entities[j],
                        rep as int,
                    ),
                forall|j: int| i <= j < n ==> world@.entities[j] == #[trigger] w0.entities[j],
            decreases n - i,
        {
            let ghost e0 = world@.entities[i as int];
            let stepped: Option<u64> = if rep < world.entities[i].components.len() {
                match &world.entities[i].components[rep] {
                    Some(d) => {
                        if d.len() == 8 {
                            proof {
                                assert(d@ =~= d.deep_view());
                                assert(e0.components[rep as int] == Some(d.deep_view()));
                            }
                            let v = u64_from_le_bytes(d.as_slice());
                            proof {
                                if v == u64::MAX {
                                    assert(((v + 1) as u64) == 0u64) by (bit_vector)
                                        requires
                                            v == 0xffff_ffff_ffff_ffffu64,
                                    ;
                                }
                            }
                            Some(if v == u64::MAX {
                                0
                            } else {
                                v + 1
                            })
                        } else {
                            None
                        }
                    },
                    None => None,
                }
            } else {
                None
            };
            match stepped {
                Some(v2) => {
                    let data = u64_to_le_bytes(v2);
                    let ghost dv = data@;
                    let e = &mut world.entities[i];
                    e.components.set(rep, Some(data));
                    proof {
                        vstd::bytes::lemma_auto_spec_u64_to_from_le_bytes();
                        assert(dv == stepped_counter(e0.components[rep as int]->Some_0));
                        assert(world@.entities[i as int].components =~~= e0.components.update(
                            rep as int,
                            Some(stepped_counter(e0.components[rep as int]->Some_0)),
                        ));
                        assert(world@.entities[i as int] =~= count_up_entity(e0, rep as int));
                    }
                },
                None => {
                    proof {
                        assert(world@.entities[i as int] == count_up_entity(e0, rep as int));
                    }
                },
            }
            i = i + 1;
        }
        proof {
            assert(world@.entities =~= w0.entities.map_values(
                |e: EntityView| count_up_entity(e, rep as int),
            ));
            assert(world@ =~= self.update_spec(w0));
            assert forall|a: int| 0 <= a < world@.entities.len() implies crate::world::entity_wf(
                #[trigger] world@.entities[a],
                world@.n_components,
                world@.next_id,
            ) by {
                assert(crate::world::entity_wf(w0.entities[a], w0.n_components, w0.next_id));
                vstd::bytes::lemma_auto_spec_u64_to_from_le_bytes();
                let e0a = w0.entities[a];
                let ea = world@.entities[a];
                assert forall|k: int|
                    0 <= k < ea.components.len() && (#[trigger] ea.components[k]) is Some implies
                    ea.components[k]->Some_0.len() <= u32::MAX by {
                    if ea.components[k] != e0a.components[k] {
                        assert(ea.components[k]->Some_0.len() == 8);
                    }
                }
            }
        }
    }
}

/// How many entities currently ask for a speculative spawn: those whose
/// installed input state holds the spawn action down.
pub open spec fn spawn_requests(s: Seq<EntityView>, action: int, i: int) -> int
    decreases s.len() - i,
{
    if i < 0 || i >= s.len() {
        0
    } else {
        (if s[i].actions is Some && 0 <= action < s[i].actions->Some_0.len()
            && s[i].actions->Some_0[action].is_pressed_spec() {
            1int
        } else {
            0int
        }) + spawn_requests(s, action, i + 1)
    }
}

/// The world after `n` marker entities are spawned, each bearing the
/// replicate marker and an empty payload for the marker component.
pub open spec fn spawn_markers(w: WorldView, marker: int, n: int) -> WorldView
    decreases n,
{
    if n <= 0 {
        w
    } else if can_spawn(w) {
        let id = w.next_id;
        let w1 = WorldView {
            next_id: (w.next_id + 1) as u64,
            entities: w.entities.push(fresh_entity_view(id, true, false, w.n_components)),
            ..w
        };
        spawn_markers(set_component_spec(w1, id, marker, Seq::empty()), marker, n - 1)
    } else {
        w
    }
}

/// A game whose single rule is: every entity whose input holds the spawn
/// action down spawns one replicate-marked marker entity this tick.
pub struct SpawnOnPressGame {
    pub action: usize,
    pub marker: usize,
}

impl GameLogic for SpawnOnPressGame {
    open spec fn update_spec(&self, w: WorldView) -> WorldView {
        spawn_markers(w, self.marker as int, spawn_requests(w.entities, self.action as int, 0))
    }

    fn update(&self, world: &mut World) {
        let ghost w0 = world@;
        let n = world.entities.len();
        let mut wanted: usize = 0;
        let mut i: usize = 0;
        while i < n
            invariant
                i <= n,
                n == world@.entities.len(),
                world@ == w0,
                wanted <= i,
                spawn_requests(w0.entities, self.action as int, 0) == wanted + spawn_requests(
                    w0.entities,
                    self.action as int,
                    i as int,
                ),
            decreases n - i,
        {
            let pressed = match &world.entities[i].actions {
                Some(a) => a.pressed(self.action),
                None => false,
            };
            if pressed {
                wanted = wanted + 1;
            }
            i = i + 1;
        }
        proof {
            assert(spawn_requests(w0.entities, self.action as int, n as int) == 0);
        }
        let mut k: usize = 0;
        while k < wanted
            invariant
                k <= wanted,
                world@.wf(),
                world@.n_components == w0.n_components,
                world@.next_id >= w0.next_id,
                self.update_spec(w0) == spawn_markers(
                    world@,
                    self.marker as int,
                    wanted - k,
                ),
            decreases wanted - k,
        {
            if world.next_id < u64::MAX && world.entities.len() < (u32::MAX as usize) {
                let ghost wk = world@;
                let id = world.spawn(true, false);
                let payload: Vec<u8> = Vec::new();
                let ghost pv = payload@;
                world.set_component(id, self.marker, payload);
                proof {
                    assert(pv =~= Seq::<u8>::empty());
                    assert(world@ == set_component_spec(
                        WorldView {
                            next_id: (wk.next_id + 1) as u64,
                            entities: wk.entities.push(
                                fresh_entity_view(wk.next_id, true, false, wk.n_components),
                            ),
                            ..wk
                        },
                        id,
                        self.marker as int,
                        Seq::empty(),
                    ));
                }
            } else {
                proof {
                    assert(!can_spawn(world@));
                    assert(spawn_markers(world@, self.marker as int, wanted - k) == world@);
                    assert(spawn_markers(world@, self.marker as int, wanted - k - 1) == world@);
                }
            }
            k = k + 1;
        }
    }
}

} // verus!
