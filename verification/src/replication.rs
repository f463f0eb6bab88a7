//! State replication: the server gathers a whole-world snapshot of every
//! replicate-marked entity each tick, and a client applies incoming
//! snapshots to its own world through the net id map, staging component
//! values for the resync commit.

use vstd::prelude::*;

use crate::codec::{EntityUpdates, EntityUpdatesView, ReplicationPacket, ReplicationPacketView,
    UpdateComponent, UpdateComponentView};
use crate::entity_map::{has_local, has_net, has_pair, local_of, NetworkEntities};
use crate::tick::NetworkTick;
use crate::world::{can_spawn, clone_bytes, despawn_spec, entity_wf, stage_component_spec,
    remove_component_silent_spec, fresh_entity_view, EntityView, World, WorldView};

verus! {

// ---------------------------------------------------------------------------
// Server emit
// ---------------------------------------------------------------------------

/// The component updates gathered from one entity: one update for every
/// live component value, in replication id order, starting at id `k`.
pub open spec fn updates_of(comps: Seq<Option<Seq<u8>>>, k: int) -> Seq<UpdateComponentView>
    decreases comps.len() - k,
{
    if k < 0 || k >= comps.len() {
        Seq::empty()
    } else if comps[k] is Some {
        seq![UpdateComponentView { replication_id: k as u32, data: comps[k]->Some_0 }]
            + updates_of(comps, k + 1)
    } else {
        updates_of(comps, k + 1)
    }
}

/// The replication ids recorded as removed from entity `id`, in record
/// order, starting at record `i`.
pub open spec fn removals_for(removed: Seq<(u64, u32)>, id: u64, i: int) -> Seq<u32>
    decreases removed.len() - i,
{
    if i < 0 || i >= removed.len() {
        Seq::empty()
    } else if removed[i].0 == id {
        seq![removed[i].1] + removals_for(removed, id, i + 1)
    } else {
        removals_for(removed, id, i + 1)
    }
}

/// What the snapshot says about one entity.
pub open spec fn gather_entity(e: EntityView, removed: Seq<(u64, u32)>) -> EntityUpdatesView {
    EntityUpdatesView {
        entity: e.id,
        updates: updates_of(e.components, 0),
        removals: removals_for(removed, e.id, 0),
    }
}

/// The per-entity blocks of the snapshot: one for every entity bearing
/// the replicate marker, in table order, starting at table index `i`.
pub open spec fn gather_entities(entities: Seq<EntityView>, removed: Seq<(u64, u32)>, i: int) -> Seq<
    EntityUpdatesView,
>
    decreases entities.len() - i,
{
    if i < 0 || i >= entities.len() {
        Seq::empty()
    } else if entities[i].replicate {
        seq![gather_entity(entities[i], removed)] + gather_entities(entities, removed, i + 1)
    } else {
        gather_entities(entities, removed, i + 1)
    }
}

/// The snapshot the server emits from a world at a tick.
pub open spec fn emit_spec(w: WorldView, tick: NetworkTick) -> ReplicationPacketView {
    ReplicationPacketView {
        tick,
        updates: gather_entities(w.entities, w.removed, 0),
        despawns: w.despawned,
    }
}

proof fn lemma_updates_of_wf(comps: Seq<Option<Seq<u8>>>, k: int)
    requires
        comps.len() <= u32::MAX,
        forall|m: int|
            0 <= m < comps.len() ==> (#[trigger] comps[m]) is Some ==> comps[m]->Some_0.len()
                <= u32::MAX,
    ensures
        updates_of(comps, k).len() <= comps.len() - k || updates_of(comps, k).len() == 0,
        forall|j: int|
            0 <= j < updates_of(comps, k).len() ==> (#[trigger] updates_of(comps, k)[j]).wf(),
    decreases comps.len() - k,
{
    if k < 0 || k >= comps.len() {
    } else {
        lemma_updates_of_wf(comps, k + 1);
    }
}

proof fn lemma_removals_for_len(removed: Seq<(u64, u32)>, id: u64, i: int)
    ensures
        removals_for(removed, id, i).len() <= removed.len() - i || removals_for(
            removed,
            id,
            i,
        ).len() == 0,
    decreases removed.len() - i,
{
    if i < 0 || i >= removed.len() {
    } else {
        lemma_removals_for_len(removed, id, i + 1);
    }
}

proof fn lemma_gather_entities_wf(w: WorldView, i: int)
    requires
        w.wf(),
    ensures
        gather_entities(w.entities, w.removed, i).len() <= w.entities.len() - i || gather_entities(
            w.entities,
            w.removed,
            i,
        ).len() == 0,
        forall|j: int|
            0 <= j < gather_entities(w.entities, w.removed, i).len() ==> (#[trigger] gather_entities(
                w.entities,
                w.removed,
                i,
            )[j]).wf(),
    decreases w.entities.len() - i,
{
    if i < 0 || i >= w.entities.len() {
    } else {
        lemma_gather_entities_wf(w, i + 1);
        if w.entities[i].replicate {
            let e = w.entities[i];
            assert(entity_wf(e, w.n_components, w.next_id));
            lemma_updates_of_wf(e.components, 0);
            lemma_removals_for_len(w.removed, e.id, 0);
        }
    }
}

/// Whether every block of the snapshot is well formed for the wire.
pub proof fn lemma_emit_wf(w: WorldView, tick: NetworkTick)
    requires
        w.wf(),
    ensures
        emit_spec(w, tick).wf(),
{
    lemma_gather_entities_wf(w, 0);
}

/// Build the snapshot for this tick: one block per replicate-marked
/// entity, carrying every live component value and every removal recorded
/// since the previous emit, plus the recorded despawns. The emit records
/// are then cleared, so the next snapshot reports only what changes after
/// this one.
pub fn emit_packet(world: &mut World, tick: NetworkTick) -> (pk: ReplicationPacket)
    requires
        old(world)@.wf(),
    ensures
        final(world)@.wf(),
        final(world)@ == (WorldView {
            removed: Seq::empty(),
            despawned: Seq::empty(),
            ..old(world)@
        }),
        pk@ == emit_spec(old(world)@, tick),
        pk@.wf(),
{
    let ghost w0 = world@;
    let mut updates: Vec<EntityUpdates> = Vec::new();
    let n = world.entities.len();
    let mut i: usize = 0;
    proof {
        assert(updates@.map_values(|e: EntityUpdates| e@) =~= Seq::<EntityUpdatesView>::empty());
    }
    while i < n
        invariant
            i <= n,
            n == world@.entities.len(),
            world@ == w0,
            w0.wf(),
            gather_entities(w0.entities, w0.removed, 0) == updates@.map_values(
                |e: EntityUpdates| e@,
            ) + gather_entities(w0.entities, w0.removed, i as int),
        decreases n - i,
    {
        let replicate = world.entities[i].replicate;
        if replicate {
            let ghost before = updates@;
            let block = gather_entity_exec(world, i);
            updates.push(block);
            proof {
                assert(updates@.map_values(|e: EntityUpdates| e@) =~= before.map_values(
                    |e: EntityUpdates| e@,
                ).push(gather_entity(w0.entities[i as int], w0.removed)));
                assert(updates@.map_values(|e: EntityUpdates| e@) + gather_entities(
                    w0.entities,
                    w0.removed,
                    i as int + 1,
                ) =~= before.map_values(|e: EntityUpdates| e@) + gather_entities(
                    w0.entities,
                    w0.removed,
                    i as int,
                ));
            }
        }
        i = i + 1;
    }
    proof {
        assert(updates@.map_values(|e: EntityUpdates| e@) + Seq::<EntityUpdatesView>::empty()
            =~= updates@.map_values(|e: EntityUpdates| e@));
    }
    let mut despawns: Vec<u64> = Vec::new();
    let nd = world.despawned.len();
    let mut j: usize = 0;
    while j < nd
        invariant
            j <= nd,
            nd == world@.despawned.len(),
            world@ == w0,
            despawns@ == w0.despawned.take(j as int),
        decreases nd - j,
    {
        despawns.push(world.despawned[j]);
        proof {
            assert(despawns@ =~= w0.despawned.take(j as int + 1));
        }
        j = j + 1;
    }
    proof {
        assert(w0.despawned.take(nd as int) =~= w0.despawned);
    }
    world.clear_emit_records();
    let pk = ReplicationPacket { tick, updates, despawns };
    proof {
        assert(pk@ =~= emit_spec(w0, tick));
        lemma_emit_wf(w0, tick);
    }
    pk
}

// ---------------------------------------------------------------------------
// Client apply
// ---------------------------------------------------------------------------

/// The client-side protocol state that snapshots act on: the world and
/// the net id map, with every mapped local entity below the id counter.
pub open spec fn client_wf(w: WorldView, m: Seq<(u64, u64)>) -> bool {
    &&& w.wf()
    &&& forall|i: int, j: int|
        0 <= i < j < m.len() ==> (#[trigger] m[i]).0 != (#[trigger] m[j]).0 && m[i].1 != m[j].1
    &&& forall|i: int| 0 <= i < m.len() ==> (#[trigger] m[i]).1 < w.next_id
}

/// One despawn from a snapshot: resolve the net id, destroy the local
/// entity, retire the net id. An unknown net id is ignored.
pub open spec fn apply_despawn_spec(w: WorldView, m: Seq<(u64, u64)>, net: u64) -> (WorldView, Seq<
    (u64, u64),
>) {
    if has_net(m, net) {
        (despawn_spec(w, local_of(m, net)), crate::entity_map::map_remove_spec(m, net))
    } else {
        (w, m)
    }
}

/// One removal from a snapshot: drop the live component of the mapped
/// local entity. An unknown net id is ignored.
pub open spec fn apply_removal_spec(w: WorldView, m: Seq<(u64, u64)>, net: u64, rep: int) -> WorldView {
    if has_net(m, net) {
        remove_component_silent_spec(w, local_of(m, net), rep)
    } else {
        w
    }
}

/// One component update from a snapshot: stage the value on the mapped
/// local entity, spawning a fresh local entity first when the net id is
/// unknown.
pub open spec fn apply_update_spec(w: WorldView, m: Seq<(u64, u64)>, net: u64, rep: int, data: Seq<u8>) -> (
    WorldView,
    Seq<(u64, u64)>,
) {
    if has_net(m, net) {
        (stage_component_spec(w, local_of(m, net), rep, data), m)
    } else if can_spawn(w) {
        let id = w.next_id;
        let w1 = WorldView {
            next_id: (w.next_id + 1) as u64,
            entities: w.entities.push(fresh_entity_view(id, false, false, w.n_components)),
            ..w
        };
        (stage_component_spec(w1, id, rep, data), m.push((net, id)))
    } else {
        (w, m)
    }
}

pub open spec fn apply_removals_spec(w: WorldView, m: Seq<(u64, u64)>, net: u64, removals: Seq<u32>, i: int) -> WorldView
    decreases removals.len() - i,
{
    if i < 0 || i >= removals.len() {
        w
    } else {
        apply_removals_spec(apply_removal_spec(w, m, net, removals[i] as int), m, net, removals, i + 1)
    }
}

pub open spec fn apply_updates_spec(
    w: WorldView,
    m: Seq<(u64, u64)>,
    net: u64,
    updates: Seq<UpdateComponentView>,
    i: int,
) -> (WorldView, Seq<(u64, u64)>)
    decreases updates.len() - i,
{
    if i < 0 || i >= updates.len() {
        (w, m)
    } else {
        let (w1, m1) = apply_update_spec(w, m, net, updates[i].replication_id as int, updates[i].data);
        apply_updates_spec(w1, m1, net, updates, i + 1)
    }
}

/// One entity block of a snapshot: its removals, then its updates.
pub open spec fn apply_entity_spec(w: WorldView, m: Seq<(u64, u64)>, e: EntityUpdatesView) -> (
    WorldView,
    Seq<(u64, u64)>,
) {
    let w1 = apply_removals_spec(w, m, e.entity, e.removals, 0);
    apply_updates_spec(w1, m, e.entity, e.updates, 0)
}

pub open spec fn apply_entities_spec(
    w: WorldView,
    m: Seq<(u64, u64)>,
    blocks: Seq<EntityUpdatesView>,
    i: int,
) -> (WorldView, Seq<(u64, u64)>)
    decreases blocks.len() - i,
{
    if i < 0 || i >= blocks.len() {
        (w, m)
    } else {
        let (w1, m1) = apply_entity_spec(w, m, blocks[i]);
        apply_entities_spec(w1, m1, blocks, i + 1)
    }
}

pub open spec fn apply_despawns_spec(w: WorldView, m: Seq<(u64, u64)>, ds: Seq<u64>, i: int) -> (
    WorldView,
    Seq<(u64, u64)>,
)
    decreases ds.len() - i,
{
    if i < 0 || i >= ds.len() {
        (w, m)
    } else {
        let (w1, m1) = apply_despawn_spec(w, m, ds[i]);
        apply_despawns_spec(w1, m1, ds, i + 1)
    }
}

/// A whole snapshot applied to a client's state: despawns first, then the
/// per-entity blocks in order.
pub open spec fn apply_packet_spec(w: WorldView, m: Seq<(u64, u64)>, pk: ReplicationPacketView) -> (
    WorldView,
    Seq<(u64, u64)>,
) {
    let (w1, m1) = apply_despawns_spec(w, m, pk.despawns, 0);
    apply_entities_spec(w1, m1, pk.updates, 0)
}

/// Whether every replication id cited by the snapshot is registered and
/// every payload fits the wire: the condition under which applying it is
/// not a protocol error.
pub open spec fn valid_packet(pk: ReplicationPacketView, nc: usize) -> bool {
    forall|b: int|
        0 <= b < pk.updates.len() ==> {
            let e = #[trigger] pk.updates[b];
            (forall|u: int|
                0 <= u < e.updates.len() ==> (#[trigger] e.updates[u]).replication_id < nc
                    && e.updates[u].data.len() <= u32::MAX) && (forall|r: int|
                0 <= r < e.removals.len() ==> (#[trigger] e.removals[r]) < nc)
        }
}

/// Check a decoded snapshot against the registry size.
fn validate_packet(nc: usize, pk: &ReplicationPacket) -> (ok: bool)
    ensures
        ok == valid_packet(pk@, nc),
{
    let nb = pk.updates.len();
    let mut b: usize = 0;
    while b < nb
        invariant
            b <= nb,
            nb == pk@.updates.len(),
            forall|x: int|
                0 <= x < b ==> {
                    let e = #[trigger] pk@.updates[x];
                    (forall|u: int|
                        0 <= u < e.updates.len() ==> (#[trigger] e.updates[u]).replication_id < nc
                            && e.updates[u].data.len() <= u32::MAX) && (forall|r: int|
                        0 <= r < e.removals.len() ==> (#[trigger] e.removals[r]) < nc)
                },
        decreases nb - b,
    {
        let block = &pk.updates[b];
        let ghost ev = pk@.updates[b as int];
        let nu = block.updates.len();
        let mut u: usize = 0;
        while u < nu
            invariant
                u <= nu,
                nu == ev.updates.len(),
                ev == block@,
                0 <= b < pk@.updates.len(),
                ev == pk@.updates[b as int],
                forall|x: int|
                    0 <= x < u ==> (#[trigger] ev.updates[x]).replication_id < nc
                        && ev.updates[x].data.len() <= u32::MAX,
            decreases nu - u,
        {
            proof {
                assert(ev.updates[u as int] == block.updates@[u as int]@);
            }
            if (block.updates[u].replication_id as usize) >= nc {
                proof {
                    assert(!valid_packet(pk@, nc)) by {
                        if valid_packet(pk@, nc) {
                            assert((pk@.updates[b as int]).updates[u as int].replication_id < nc);
                        }
                    }
                }
                return false;
            }
            if block.updates[u].data.len() > u32::MAX as usize {
                proof {
                    assert(!valid_packet(pk@, nc)) by {
                        if valid_packet(pk@, nc) {
                            assert((pk@.updates[b as int]).updates[u as int].data.len()
                                <= u32::MAX);
                        }
                    }
                }
                return false;
            }
            u = u + 1;
        }
        let nr = block.removals.len();
        let mut r: usize = 0;
        while r < nr
            invariant
                r <= nr,
                nr == ev.removals.len(),
                ev == block@,
                0 <= b < pk@.updates.len(),
                ev == pk@.updates[b as int],
                forall|x: int| 0 <= x < r ==> (#[trigger] ev.removals[x]) < nc,
            decreases nr - r,
        {
            if (block.removals[r] as usize) >= nc {
                proof {
                    assert(!valid_packet(pk@, nc)) by {
                        if valid_packet(pk@, nc) {
                            assert((pk@.updates[b as int]).removals[r as int] < nc);
                        }
                    }
                }
                return false;
            }
            r = r + 1;
        }
        b = b + 1;
    }
    true
}

/// Apply one snapshot to a client's world and net id map. A snapshot
/// citing an unregistered replication id is refused whole, with the state
/// unchanged; unknown net ids inside a valid snapshot are ignored.
pub fn apply_packet(world: &mut World, map: &mut NetworkEntities, pk: &ReplicationPacket) -> (r:
    Result<(), crate::ProtocolError>)
    requires
        client_wf(old(world)@, old(map).pairs@),
        old(world)@.despawned.len() + pk@.despawns.len() <= u32::MAX,
    ensures
        client_wf(final(world)@, final(map).pairs@),
        final(world)@.n_components == old(world)@.n_components,
        (match r {
            Ok(_) => valid_packet(pk@, old(world)@.n_components) && (final(world)@,
                final(map).pairs@) == apply_packet_spec(old(world)@, old(map).pairs@, pk@),
            Err(e) => {
                &&& e == crate::ProtocolError::ReplicationIdOutOfRange
                &&& !valid_packet(pk@, old(world)@.n_components)
                &&& final(world)@ == old(world)@
                &&& final(map).pairs@ == old(map).pairs@
            },
        }),
{
    if !validate_packet(world.n_components, pk) {
        return Err(crate::ProtocolError::ReplicationIdOutOfRange);
    }
    let ghost w0 = world@;
    let ghost m0 = map.pairs@;
    let nd = pk.despawns.len();
    let mut d: usize = 0;
    while d < nd
        invariant
            d <= nd,
            nd == pk@.despawns.len(),
            client_wf(world@, map.pairs@),
            world@.n_components == w0.n_components,
            world@.despawned.len() <= w0.despawned.len() + d,
            w0.despawned.len() + nd <= u32::MAX,
            apply_despawns_spec(w0, m0, pk@.despawns, 0) == apply_despawns_spec(
                world@,
                map.pairs@,
                pk@.despawns,
                d as int,
            ),
        decreases nd - d,
    {
        let net = pk.despawns[d];
        proof {
            assert(pk@.despawns[d as int] == net);
        }
        match map.get(net) {
            Some(local) => {
                proof {
                    assert(has_net(map.pairs@, net));
                    let ci = crate::entity_map::net_index(map.pairs@, net);
                    assert(0 <= ci < map.pairs@.len() && map.pairs@[ci].0 == net);
                    let wi = choose|i: int|
                        0 <= i < map.pairs@.len() && map.pairs@[i] == (net, local);
                    assert(ci == wi);
                    assert(local_of(map.pairs@, net) == local);
                }
                world.despawn(local);
                map.remove(net);
            },
            None => {},
        }
        d = d + 1;
    }
    let ghost (w_mid, m_mid) = apply_despawns_spec(w0, m0, pk@.despawns, 0);
    proof {
        assert(apply_despawns_spec(world@, map.pairs@, pk@.despawns, nd as int) == (
        world@,
        map.pairs@,
        ));
        assert(w_mid == world@ && m_mid == map.pairs@);
    }
    let nb = pk.updates.len();
    let mut b: usize = 0;
    while b < nb
        invariant
            b <= nb,
            nb == pk@.updates.len(),
            valid_packet(pk@, w0.n_components),
            client_wf(world@, map.pairs@),
            world@.n_components == w0.n_components,
            apply_entities_spec(w_mid, m_mid, pk@.updates, 0) == apply_entities_spec(
                world@,
                map.pairs@,
                pk@.updates,
                b as int,
            ),
        decreases nb - b,
    {
        let ghost wb = world@;
        let ghost mb = map.pairs@;
        let block = &pk.updates[b];
        let ghost ev = pk@.updates[b as int];
        proof {
            assert(ev == block@);
        }
        let net = block.entity;
        let nr = block.removals.len();
        let mut rj: usize = 0;
        while rj < nr
            invariant
                rj <= nr,
                nr == ev.removals.len(),
                ev == block@,
                net == ev.entity,
                valid_packet(pk@, w0.n_components),
                0 <= b < pk@.updates.len(),
                ev == pk@.updates[b as int],
                client_wf(world@, map.pairs@),
                world@.n_components == w0.n_components,
                map.pairs@ == mb,
                apply_removals_spec(wb, mb, net, ev.removals, 0) == apply_removals_spec(
                    world@,
                    mb,
                    net,
                    ev.removals,
                    rj as int,
                ),
            decreases nr - rj,
        {
            let rep = block.removals[rj];
            proof {
                assert(ev.removals[rj as int] == rep);
                assert(rep < w0.n_components);
            }
            match map.get(net) {
                Some(local) => {
                    proof {
                        let wi = choose|i: int|
                            0 <= i < map.pairs@.len() && map.pairs@[i] == (net, local);
                        let ci = choose|i: int|
                            0 <= i < map.pairs@.len() && (#[trigger] map.pairs@[i]).0 == net;
                        assert(ci == wi);
                        assert(local_of(map.pairs@, net) == local);
                    }
                    world.remove_component_silent(local, rep as usize);
                },
                None => {},
            }
            rj = rj + 1;
        }
        proof {
            assert(apply_removals_spec(world@, mb, net, ev.removals, nr as int) == world@);
        }
        let ghost wr = world@;
        let nu = block.updates.len();
        let mut uj: usize = 0;
        while uj < nu
            invariant
                uj <= nu,
                nu == ev.updates.len(),
                ev == block@,
                net == ev.entity,
                valid_packet(pk@, w0.n_components),
                0 <= b < pk@.updates.len(),
                ev == pk@.updates[b as int],
                client_wf(world@, map.pairs@),
                world@.n_components == w0.n_components,
                world@.despawned == wr.despawned,
                apply_updates_spec(wr, mb, net, ev.updates, 0) == apply_updates_spec(
                    world@,
                    map.pairs@,
                    net,
                    ev.updates,
                    uj as int,
                ),
            decreases nu - uj,
        {
            let rep = block.updates[uj].replication_id;
            let data = clone_bytes(&block.updates[uj].data);
            proof {
                assert(ev.updates[uj as int] == block.updates@[uj as int]@);
                assert(ev.updates[uj as int].replication_id == rep);
                assert(ev.updates[uj as int].data == data@);
                assert(rep < w0.n_components);
                assert(data@.len() <= u32::MAX);
            }
            match map.get(net) {
                Some(local) => {
                    proof {
                        let wi = choose|i: int|
                            0 <= i < map.pairs@.len() && map.pairs@[i] == (net, local);
                        let ci = choose|i: int|
                            0 <= i < map.pairs@.len() && (#[trigger] map.pairs@[i]).0 == net;
                        assert(ci == wi);
                        assert(local_of(map.pairs@, net) == local);
                    }
                    world.stage_component(local, rep as usize, data);
                },
                None => {
                    if world.next_id < u64::MAX && world.entities.len() < (u32::MAX as usize) {
                        let id = world.spawn(false, false);
                        proof {
                            assert(!has_local(map.pairs@, id));
                        }
                        map.insert(net, id);
                        world.stage_component(id, rep as usize, data);
                    }
                },
            }
            uj = uj + 1;
        }
        proof {
            assert(apply_updates_spec(world@, map.pairs@, net, ev.updates, nu as int) == (
            world@,
            map.pairs@,
            ));
            assert(apply_entity_spec(wb, mb, ev) == (world@, map.pairs@));
        }
        b = b + 1;
    }
    proof {
        assert(apply_entities_spec(world@, map.pairs@, pk@.updates, nb as int) == (
        world@,
        map.pairs@,
        ));
    }
    Ok(())
}

// ---------------------------------------------------------------------------
// Snapshot authority: an applied snapshot's component values win
// ---------------------------------------------------------------------------

/// Every update of the list cites a registered id and a payload that
/// fits the wire.
pub open spec fn updates_valid(ups: Seq<UpdateComponentView>, nc: usize) -> bool {
    forall|j: int|
        0 <= j < ups.len() ==> (#[trigger] ups[j]).replication_id < nc && ups[j].data.len()
            <= u32::MAX
}

/// No replication id appears twice in the list.
pub open spec fn distinct_reps(ups: Seq<UpdateComponentView>) -> bool {
    forall|a: int, b: int|
        0 <= a < b < ups.len() ==> (#[trigger] ups[a]).replication_id != (
        #[trigger] ups[b]).replication_id
}

/// No net id appears twice among the blocks.
pub open spec fn distinct_nets(blocks: Seq<EntityUpdatesView>) -> bool {
    forall|a: int, b: int|
        0 <= a < b < blocks.len() ==> (#[trigger] blocks[a]).entity != (
        #[trigger] blocks[b]).entity
}

/// What one block's update list does to the already-mapped local entity:
/// every cited shadow slot holds the snapshot's payload, every other
/// slot, every other field, every other entity and the map itself are
/// untouched.
pub proof fn lemma_apply_updates_mapped(
    w: WorldView,
    m: Seq<(u64, u64)>,
    net: u64,
    ups: Seq<UpdateComponentView>,
    i: int,
)
    requires
        client_wf(w, m),
        updates_valid(ups, w.n_components),
        distinct_reps(ups),
        has_net(m, net),
        w.has(local_of(m, net)),
        0 <= i,
    ensures
        ({
            let (w1, m1) = apply_updates_spec(w, m, net, ups, i);
            let local = local_of(m, net);
            &&& m1 == m
            &&& client_wf(w1, m1)
            &&& w1.n_components == w.n_components
            &&& w1.next_id == w.next_id
            &&& w1.removed == w.removed
            &&& w1.despawned == w.despawned
            &&& w1.entities.len() == w.entities.len()
            &&& (forall|j: int|
                0 <= j < w.entities.len() ==> (#[trigger] w1.entities[j]).id == w.entities[j].id)
            &&& (forall|j: int|
                0 <= j < w.entities.len() && w.entities[j].id != local ==> (
                #[trigger] w1.entities[j]) == w.entities[j])
            &&& w1.has(local)
            &&& w1.entity(local).id == w.entity(local).id
            &&& w1.entity(local).replicate == w.entity(local).replicate
            &&& w1.entity(local).control == w.entity(local).control
            &&& w1.entity(local).components == w.entity(local).components
            &&& w1.entity(local).history == w.entity(local).history
            &&& w1.entity(local).actions == w.entity(local).actions
            &&& w1.entity(local).staged.len() == w.entity(local).staged.len()
            &&& (forall|j: int|
                i <= j < ups.len() ==> w1.entity(local).staged[(#[trigger] ups[j]).replication_id
                    as int] == Some(ups[j].data))
            &&& (forall|r: int|
                0 <= r < w.entity(local).staged.len() && (forall|j: int|
                    i <= j < ups.len() ==> (#[trigger] ups[j]).replication_id != r) ==> (
                #[trigger] w1.entity(local).staged[r]) == w.entity(local).staged[r])
        }),
    decreases ups.len() - i,
{
    let local = local_of(m, net);
    let li = w.index_of(local);
    assert(0 <= li < w.entities.len() && w.entities[li].id == local);
    if i >= ups.len() {
    } else {
        let rep = ups[i].replication_id as int;
        let data = ups[i].data;
        let wp = stage_component_spec(w, local, rep, data);
        assert(apply_update_spec(w, m, net, rep, data) == (wp, m));
        let e0 = w.entities[li];
        let e1 = EntityView { staged: e0.staged.update(rep, Some(data)), ..e0 };
        assert(wp.entities =~= w.entities.update(li, e1));
        assert(wp.entities[li] == e1);
        assert forall|j: int| 0 <= j < wp.entities.len() implies (#[trigger] wp.entities[j]).id
            == w.entities[j].id by {}
        assert(client_wf(wp, m)) by {
            assert forall|a: int| 0 <= a < wp.entities.len() implies entity_wf(
                #[trigger] wp.entities[a],
                wp.n_components,
                wp.next_id,
            ) by {
                assert(entity_wf(w.entities[a], w.n_components, w.next_id));
            }
        }
        assert(wp.has(local)) by {
            assert(wp.entities[li].id == local);
        }
        assert(wp.index_of(local) == li) by {
            let ci = wp.index_of(local);
            assert(0 <= ci < wp.entities.len() && wp.entities[ci].id == local);
        }
        assert(local_of(m, net) == local);
        lemma_apply_updates_mapped(wp, m, net, ups, i + 1);
        let (w1, m1) = apply_updates_spec(wp, m, net, ups, i + 1);
        assert(apply_updates_spec(w, m, net, ups, i) == (w1, m1));
        assert(w.index_of(local) == li);
        // the head update's slot survives the tail: its rep is distinct
        assert(w1.entity(local).staged[rep] == Some(data)) by {
            assert forall|j: int| i + 1 <= j < ups.len() implies (#[trigger] ups[j]).replication_id
                != rep by {
                assert(ups[i].replication_id != ups[j].replication_id);
            }
            assert(wp.entity(local).staged[rep] == Some(data));
        }
        assert forall|j: int|
            i <= j < ups.len() implies w1.entity(local).staged[(#[trigger] ups[j]).replication_id
                as int] == Some(ups[j].data) by {
            if j == i {
            } else {
            }
        }
        assert forall|r: int|
            0 <= r < w.entity(local).staged.len() && (forall|j: int|
                i <= j < ups.len() ==> (#[trigger] ups[j]).replication_id != r) implies (
        #[trigger] w1.entity(local).staged[r]) == w.entity(local).staged[r] by {
            assert(ups[i].replication_id != r);
            assert(wp.entity(local).staged[r] == w.entity(local).staged[r]);
        }
    }
}

/// Every mapped net id points at an entity that exists; gameplay that
/// never destroys server-owned entities on the client preserves this.
pub open spec fn map_targets_live(w: WorldView, m: Seq<(u64, u64)>) -> bool {
    forall|i: int| 0 <= i < m.len() ==> w.has((#[trigger] m[i]).1)
}

/// A snapshot's removal list only clears live component slots of the one
/// mapped local entity; shadow slots, every other field and every other
/// entity are untouched.
pub proof fn lemma_apply_removals_frame(
    w: WorldView,
    m: Seq<(u64, u64)>,
    net: u64,
    rems: Seq<u32>,
    i: int,
)
    requires
        client_wf(w, m),
        0 <= i,
    ensures
        ({
            let w1 = apply_removals_spec(w, m, net, rems, i);
            &&& client_wf(w1, m)
            &&& w1.n_components == w.n_components
            &&& w1.next_id == w.next_id
            &&& w1.removed == w.removed
            &&& w1.despawned == w.despawned
            &&& w1.entities.len() == w.entities.len()
            &&& (forall|j: int|
                0 <= j < w.entities.len() ==> (#[trigger] w1.entities[j]).id == w.entities[j].id
                    && w1.entities[j].replicate == w.entities[j].replicate
                    && w1.entities[j].control == w.entities[j].control
                    && w1.entities[j].staged == w.entities[j].staged
                    && w1.entities[j].history == w.entities[j].history
                    && w1.entities[j].actions == w.entities[j].actions
                    && w1.entities[j].components.len() == w.entities[j].components.len())
            &&& (forall|j: int|
                0 <= j < w.entities.len() && (!has_net(m, net) || w.entities[j].id != local_of(
                    m,
                    net,
                )) ==> (#[trigger] w1.entities[j]) == w.entities[j])
        }),
    decreases rems.len() - i,
{
    if i >= rems.len() {
    } else {
        let wp = apply_removal_spec(w, m, net, rems[i] as int);
        if has_net(m, net) {
            let local = local_of(m, net);
            let repi = rems[i] as int;
            if w.has(local) && 0 <= repi && repi < w.n_components as int {
                let li = w.index_of(local);
                assert(0 <= li < w.entities.len() && w.entities[li].id == local);
                let e0 = w.entities[li];
                let e1 = EntityView { components: e0.components.update(repi, None), ..e0 };
                assert(wp.entities =~= w.entities.update(li, e1));
                assert(client_wf(wp, m)) by {
                    assert forall|a: int| 0 <= a < wp.entities.len() implies entity_wf(
                        #[trigger] wp.entities[a],
                        wp.n_components,
                        wp.next_id,
                    ) by {
                        assert(entity_wf(w.entities[a], w.n_components, w.next_id));
                    }
                }
            } else {
                assert(wp == w);
            }
        } else {
            assert(wp == w);
        }
        lemma_apply_removals_frame(wp, m, net, rems, i + 1);
        if has_net(m, net) {
            assert(local_of(m, net) == local_of(m, net));
        }
    }
}

/// What one whole entity block does: afterwards its net id is mapped, the
/// mapped local entity exists, and every shadow slot the block's updates
/// cite holds the snapshot's payload.
pub proof fn lemma_apply_entity_effect(w: WorldView, m: Seq<(u64, u64)>, e: EntityUpdatesView, u: int)
    requires
        client_wf(w, m),
        map_targets_live(w, m),
        updates_valid(e.updates, w.n_components),
        distinct_reps(e.updates),
        w.next_id < u64::MAX,
        w.entities.len() < u32::MAX,
    ensures
        ({
            let (w1, m1) = apply_entity_spec(w, m, e);
            let local = local_of(m1, e.entity);
            &&& client_wf(w1, m1)
            &&& map_targets_live(w1, m1)
            &&& w1.n_components == w.n_components
            &&& w.next_id <= w1.next_id <= w.next_id + 1
            &&& w.entities.len() <= w1.entities.len() <= w.entities.len() + 1
            &&& (forall|k: u64, v: u64|
                #![trigger has_pair(m, k, v)]
                has_pair(m, k, v) ==> has_pair(m1, k, v))
            &&& (forall|k: u64, v: u64|
                #![trigger has_pair(m, k, v)]
                has_pair(m, k, v) && k != e.entity ==> w1.has(v) && w1.entity(v) == w.entity(v))
            &&& ((has_net(m, e.entity) || e.updates.len() > 0) ==> has_net(m1, e.entity)
                && w1.has(local) && w1.entity(local).staged.len() == w.n_components)
            &&& ((0 <= u < e.updates.len()) ==> has_net(m1, e.entity) && w1.has(local)
                && w1.entity(local).staged[e.updates[u].replication_id as int] == Some(
                e.updates[u].data,
            ))
        }),
{
    let net = e.entity;
    lemma_apply_removals_frame(w, m, net, e.removals, 0);
    let wr = apply_removals_spec(w, m, net, e.removals, 0);
    if has_net(m, net) {
        let local = local_of(m, net);
        let wi = choose|x: int| 0 <= x < m.len() && (#[trigger] m[x]).0 == net;
        assert(w.has(m[wi].1));
        assert(wr.has(local)) by {
            let li = w.index_of(local);
            assert(0 <= li < w.entities.len() && w.entities[li].id == local);
            assert(wr.entities[li].id == local);
        }
        assert(wr.entity(local).staged.len() == w.n_components) by {
            let li = wr.index_of(local);
            assert(entity_wf(wr.entities[li], wr.n_components, wr.next_id));
        }
        lemma_apply_updates_mapped(wr, m, net, e.updates, 0);
        let (w1, m1) = apply_updates_spec(wr, m, net, e.updates, 0);
        assert(apply_entity_spec(w, m, e) == (w1, m1));
        assert(has_net(m1, net));
        assert(local_of(m1, net) == local);
        assert(map_targets_live(w1, m1)) by {
            assert forall|x: int| 0 <= x < m1.len() implies w1.has((#[trigger] m1[x]).1) by {
                assert(w.has(m1[x].1));
                let xi = w.index_of(m1[x].1);
                assert(0 <= xi < w.entities.len() && w.entities[xi].id == m1[x].1);
                assert(w1.entities[xi].id == m1[x].1);
            }
        }
        assert forall|k: u64, v: u64|
            has_pair(m, k, v) && k != e.entity implies w1.has(v) && w1.entity(v) == w.entity(
            v,
        ) by {
            let x = choose|x: int| 0 <= x < m.len() && m[x] == (k, v);
            let ci = choose|c: int| 0 <= c < m.len() && (#[trigger] m[c]).0 == net;
            assert(m[ci].1 == local);
            assert(x != ci);
            assert(v != local);
            assert(w.has(v));
            let vi = w.index_of(v);
            assert(0 <= vi < w.entities.len() && w.entities[vi].id == v);
            assert(wr.entities[vi] == w.entities[vi]);
            assert(w1.entities[vi] == wr.entities[vi]);
            assert(w1.entities[vi].id == v);
            assert(w1.has(v));
            let cvi = w1.index_of(v);
            assert(0 <= cvi < w1.entities.len() && w1.entities[cvi].id == v);
            assert(w1.entities[cvi].id == w.entities[cvi].id);
            assert(cvi == vi);
            assert(w1.entity(v) == w.entities[vi]);
            assert(w.entity(v) == w.entities[vi]);
        }
    } else {
        assert(wr == w);
        if e.updates.len() == 0 {
            assert(apply_updates_spec(w, m, net, e.updates, 0) == (w, m));
            assert(apply_entity_spec(w, m, e) == (w, m));
            return ;
        }
        // the first update spawns the local entity and maps the net id
        let rep0 = e.updates[0].replication_id as int;
        let data0 = e.updates[0].data;
        let id = w.next_id;
        let ws = WorldView {
            next_id: (w.next_id + 1) as u64,
            entities: w.entities.push(fresh_entity_view(id, false, false, w.n_components)),
            ..w
        };
        let wp = stage_component_spec(ws, id, rep0, data0);
        let mp = m.push((net, id));
        assert(ws.has(id)) by {
            assert(ws.entities[w.entities.len() as int].id == id);
        }
        assert(ws.index_of(id) == w.entities.len() as int) by {
            let ci = ws.index_of(id);
            assert(0 <= ci < ws.entities.len() && ws.entities[ci].id == id);
            if ci < w.entities.len() as int {
                assert(w.entities[ci].id == id);
                assert(entity_wf(w.entities[ci], w.n_components, w.next_id));
            }
        }
        assert(ws.wf()) by {
            assert forall|a: int| 0 <= a < ws.entities.len() implies entity_wf(
                #[trigger] ws.entities[a],
                ws.n_components,
                ws.next_id,
            ) by {
                if a < w.entities.len() as int {
                    assert(entity_wf(w.entities[a], w.n_components, w.next_id));
                } else {
                    assert(ws.entities[a] == fresh_entity_view(id, false, false, w.n_components));
                }
            }
            assert forall|a: int, b: int| 0 <= a < b < ws.entities.len() implies (
            #[trigger] ws.entities[a]).id != (#[trigger] ws.entities[b]).id by {
                if b == w.entities.len() as int {
                    assert(entity_wf(w.entities[a], w.n_components, w.next_id));
                }
            }
        }
        assert(apply_update_spec(w, m, net, rep0, data0) == (wp, mp));
        assert(has_net(mp, net)) by {
            assert(mp[m.len() as int].0 == net);
        }
        assert(local_of(mp, net) == id) by {
            let ci = choose|x: int| 0 <= x < mp.len() && (#[trigger] mp[x]).0 == net;
            if ci < m.len() as int {
                assert(m[ci].0 == net);
            }
        }
        assert(client_wf(wp, mp)) by {
            let si = ws.index_of(id);
            let es = ws.entities[si];
            assert(wp.entities =~= ws.entities.update(
                si,
                EntityView { staged: es.staged.update(rep0, Some(data0)), ..es },
            ));
            assert forall|a: int| 0 <= a < wp.entities.len() implies entity_wf(
                #[trigger] wp.entities[a],
                wp.n_components,
                wp.next_id,
            ) by {
                assert(entity_wf(ws.entities[a], ws.n_components, ws.next_id));
            }
            assert forall|a: int, b: int| 0 <= a < b < mp.len() implies (#[trigger] mp[a]).0 != (
            #[trigger] mp[b]).0 && mp[a].1 != mp[b].1 by {
                if b == m.len() as int {
                    assert(!has_net(m, net));
                    assert(m[a] == mp[a]);
                    if mp[a].0 == net {
                        assert(has_net(m, net));
                    }
                }
            }
            assert forall|a: int| 0 <= a < mp.len() implies (#[trigger] mp[a]).1 < wp.next_id by {
                if a < m.len() as int {
                }
            }
        }
        assert(wp.has(id)) by {
            let si = ws.index_of(id);
            assert(wp.entities[si].id == id);
        }
        assert(wp.index_of(id) == ws.index_of(id)) by {
            let ci = wp.index_of(id);
            assert(0 <= ci < wp.entities.len() && wp.entities[ci].id == id);
            assert(wp.entities[ci].id == ws.entities[ci].id);
        }
        lemma_apply_updates_mapped(wp, mp, net, e.updates, 1);
        let (w1, m1) = apply_updates_spec(wp, mp, net, e.updates, 1);
        assert(apply_updates_spec(w, m, net, e.updates, 0) == (w1, m1));
        assert(apply_entity_spec(w, m, e) == (w1, m1));
        assert(local_of(m1, net) == id);
        if 0 <= u < e.updates.len() {
            assert(w1.entity(id).staged[e.updates[u].replication_id as int] == Some(
                e.updates[u].data,
            )) by {
                if u == 0 {
                assert forall|j: int|
                    1 <= j < e.updates.len() implies (#[trigger] e.updates[j]).replication_id
                        != e.updates[0].replication_id by {
                    assert(e.updates[0].replication_id != e.updates[j].replication_id);
                }
                    assert(wp.entity(id).staged[rep0] == Some(data0)) by {
                        let si = ws.index_of(id);
                        assert(ws.entities[si] == fresh_entity_view(
                            id,
                            false,
                            false,
                            w.n_components,
                        ));
                        assert(wp.entity(id) == wp.entities[si]);
                    }
                }
            }
        }
        assert(map_targets_live(w1, m1)) by {
            assert forall|x: int| 0 <= x < m1.len() implies w1.has((#[trigger] m1[x]).1) by {
                if x < m.len() as int {
                    assert(w.has(m[x].1));
                    let xi = w.index_of(m[x].1);
                    assert(0 <= xi < w.entities.len() && w.entities[xi].id == m[x].1);
                    assert(wp.entities[xi].id == m[x].1);
                    assert(w1.entities[xi].id == m[x].1);
                } else {
                    assert(m1[x].1 == id);
                    assert(w1.has(id));
                }
            }
        }
        assert forall|k: u64, v: u64| has_pair(m, k, v) implies has_pair(m1, k, v) by {
            let x = choose|x: int| 0 <= x < m.len() && m[x] == (k, v);
            assert(mp[x] == (k, v));
        }
        assert(wp.entity(id).staged.len() == w.n_components) by {
            let si = wp.index_of(id);
            assert(entity_wf(wp.entities[si], wp.n_components, wp.next_id));
        }
        assert forall|k: u64, v: u64|
            has_pair(m, k, v) && k != e.entity implies w1.has(v) && w1.entity(v) == w.entity(
            v,
        ) by {
            let x = choose|x: int| 0 <= x < m.len() && m[x] == (k, v);
            assert(v < w.next_id);
            assert(v != id);
            assert(w.has(v));
            let vi = w.index_of(v);
            assert(0 <= vi < w.entities.len() && w.entities[vi].id == v);
            assert(ws.entities[vi] == w.entities[vi]);
            assert(wp.entities[vi] == ws.entities[vi]);
            assert(w1.entities[vi] == wp.entities[vi]);
            assert(w1.entities[vi].id == v);
            assert(w1.has(v));
            let cvi = w1.index_of(v);
            assert(0 <= cvi < w1.entities.len() && w1.entities[cvi].id == v);
            if cvi < w.entities.len() as int {
                assert(w1.entities[cvi].id == w.entities[cvi].id);
                assert(cvi == vi);
            } else {
                assert(w1.entities[cvi].id == wp.entities[cvi].id);
                assert(wp.entities[cvi].id == id);
            }
            assert(cvi == vi);
            assert(w1.entity(v) == w.entities[vi]);
            assert(w.entity(v) == w.entities[vi]);
        }
    }
}

/// Blocks that do not cite a net id leave its mapping and its local
/// entity exactly as they were.
pub proof fn lemma_apply_entities_frame(
    w: WorldView,
    m: Seq<(u64, u64)>,
    blocks: Seq<EntityUpdatesView>,
    i: int,
    net: u64,
    local: u64,
)
    requires
        client_wf(w, m),
        map_targets_live(w, m),
        forall|j: int|
            0 <= j < blocks.len() ==> updates_valid((#[trigger] blocks[j]).updates, w.n_components)
                && distinct_reps(blocks[j].updates),
        forall|j: int| i <= j < blocks.len() ==> (#[trigger] blocks[j]).entity != net,
        has_pair(m, net, local),
        w.next_id + (blocks.len() - i) <= u64::MAX,
        w.entities.len() + (blocks.len() - i) <= u32::MAX,
        0 <= i,
    ensures
        ({
            let (w1, m1) = apply_entities_spec(w, m, blocks, i);
            &&& client_wf(w1, m1)
            &&& map_targets_live(w1, m1)
            &&& w1.n_components == w.n_components
            &&& has_pair(m1, net, local)
            &&& has_net(m1, net)
            &&& local_of(m1, net) == local
            &&& w1.has(local)
            &&& w1.entity(local) == w.entity(local)
        }),
    decreases blocks.len() - i,
{
    let xi = choose|x: int| 0 <= x < m.len() && m[x] == (net, local);
    assert(w.has(m[xi].1));
    assert(w.has(local));
    if i >= blocks.len() {
        assert(has_net(m, net)) by {
            assert(m[xi].0 == net);
        }
        assert(local_of(m, net) == local) by {
            let ci = choose|c: int| 0 <= c < m.len() && (#[trigger] m[c]).0 == net;
            assert(ci == xi);
        }
    } else {
        lemma_apply_entity_effect(w, m, blocks[i], -1);
        let (wp, mp) = apply_entity_spec(w, m, blocks[i]);
        assert(has_pair(mp, net, local));
        assert(wp.has(local) && wp.entity(local) == w.entity(local));
        lemma_apply_entities_frame(wp, mp, blocks, i + 1, net, local);
        assert forall|j: int|
            0 <= j < blocks.len() implies updates_valid(
            (#[trigger] blocks[j]).updates,
            wp.n_components,
        ) && distinct_reps(blocks[j].updates) by {
            assert(updates_valid(blocks[j].updates, w.n_components));
        }
        let (w1, m1) = apply_entities_spec(wp, mp, blocks, i + 1);
        assert(apply_entities_spec(w, m, blocks, i) == (w1, m1));
    }
}

/// Applying a snapshot's entity blocks stages every cited component
/// value on the mapped local entity of the block that cited it.
pub proof fn lemma_apply_entities_effect(
    w: WorldView,
    m: Seq<(u64, u64)>,
    blocks: Seq<EntityUpdatesView>,
    i: int,
    b: int,
    u: int,
)
    requires
        client_wf(w, m),
        map_targets_live(w, m),
        forall|j: int|
            0 <= j < blocks.len() ==> updates_valid((#[trigger] blocks[j]).updates, w.n_components)
                && distinct_reps(blocks[j].updates),
        distinct_nets(blocks),
        0 <= i <= b < blocks.len(),
        0 <= u < blocks[b].updates.len(),
        w.next_id + (blocks.len() - i) <= u64::MAX,
        w.entities.len() + (blocks.len() - i) <= u32::MAX,
    ensures
        ({
            let (w1, m1) = apply_entities_spec(w, m, blocks, i);
            let net = blocks[b].entity;
            let local = local_of(m1, net);
            &&& client_wf(w1, m1)
            &&& w1.n_components == w.n_components
            &&& has_net(m1, net)
            &&& w1.has(local)
            &&& w1.entity(local).staged[blocks[b].updates[u].replication_id as int] == Some(
                blocks[b].updates[u].data,
            )
        }),
    decreases blocks.len() - i,
{
    let net = blocks[b].entity;
    lemma_apply_entity_effect(w, m, blocks[i], if i == b { u } else { -1 });
    let (wp, mp) = apply_entity_spec(w, m, blocks[i]);
    if i == b {
        let local = local_of(mp, net);
        assert(has_net(mp, net) && wp.has(local));
        assert(has_pair(mp, net, local)) by {
            let ci = choose|c: int| 0 <= c < mp.len() && (#[trigger] mp[c]).0 == net;
            assert(mp[ci] == (net, local));
        }
        assert forall|j: int|
            i + 1 <= j < blocks.len() implies (#[trigger] blocks[j]).entity != net by {
            assert(blocks[i].entity != blocks[j].entity);
        }
        assert forall|j: int|
            0 <= j < blocks.len() implies updates_valid(
            (#[trigger] blocks[j]).updates,
            wp.n_components,
        ) && distinct_reps(blocks[j].updates) by {
            assert(updates_valid(blocks[j].updates, w.n_components));
        }
        lemma_apply_entities_frame(wp, mp, blocks, i + 1, net, local);
        let (w1, m1) = apply_entities_spec(wp, mp, blocks, i + 1);
        assert(apply_entities_spec(w, m, blocks, i) == (w1, m1));
        assert(local_of(m1, net) == local);
        assert(w1.entity(local) == wp.entity(local));
    } else {
        assert forall|j: int|
            0 <= j < blocks.len() implies updates_valid(
            (#[trigger] blocks[j]).updates,
            wp.n_components,
        ) && distinct_reps(blocks[j].updates) by {
            assert(updates_valid(blocks[j].updates, w.n_components));
        }
        lemma_apply_entities_effect(wp, mp, blocks, i + 1, b, u);
        let (w1, m1) = apply_entities_spec(wp, mp, blocks, i + 1);
        assert(apply_entities_spec(w, m, blocks, i) == (w1, m1));
    }
}

/// The resync commit turns a filled shadow slot into the live value.
pub proof fn lemma_commit_materializes(w: WorldView, id: u64, rep: int)
    requires
        w.wf(),
        w.has(id),
        0 <= rep < w.entity(id).staged.len(),
        w.entity(id).staged[rep] is Some,
    ensures
        crate::world::commit_staged_spec(w).has(id),
        crate::world::commit_staged_spec(w).entity(id).components[rep] == w.entity(id).staged[rep],
{
    let wc = crate::world::commit_staged_spec(w);
    let i = w.index_of(id);
    assert(0 <= i < w.entities.len() && w.entities[i].id == id);
    assert(entity_wf(w.entities[i], w.n_components, w.next_id));
    assert(wc.entities[i] == crate::world::commit_entity(w.entities[i]));
    assert(wc.entities[i].id == id);
    assert(wc.has(id));
    let ci = wc.index_of(id);
    assert(0 <= ci < wc.entities.len() && wc.entities[ci].id == id);
    assert(wc.entities[ci].id == w.entities[ci].id) by {
        assert(wc.entities[ci] == crate::world::commit_entity(w.entities[ci]));
    }
    assert(ci == i);
    assert(wc.entity(id).components[rep] == w.entity(id).staged[rep]);
}

proof fn lemma_updates_of_shape(comps: Seq<Option<Seq<u8>>>, k: int)
    requires
        comps.len() <= u32::MAX,
    ensures
        forall|j: int|
            0 <= j < updates_of(comps, k).len() ==> k <= (#[trigger] updates_of(comps, k)[
                j]).replication_id < comps.len(),
        distinct_reps(updates_of(comps, k)),
    decreases comps.len() - k,
{
    if k < 0 || k >= comps.len() {
    } else {
        lemma_updates_of_shape(comps, k + 1);
        let us = updates_of(comps, k);
        let rest = updates_of(comps, k + 1);
        if comps[k] is Some {
            assert forall|a: int, b: int|
                0 <= a < b < us.len() implies (#[trigger] us[a]).replication_id != (
                #[trigger] us[b]).replication_id by {
                if a == 0 {
                    assert(us[b] == rest[b - 1]);
                    assert(k + 1 <= rest[b - 1].replication_id);
                } else {
                    assert(us[a] == rest[a - 1] && us[b] == rest[b - 1]);
                }
            }
        }
        assert forall|j: int|
            0 <= j < us.len() implies k <= (#[trigger] us[j]).replication_id < comps.len() by {
            if comps[k] is Some {
                if j > 0 {
                    assert(us[j] == rest[j - 1]);
                }
            } else {
                assert(us[j] == rest[j]);
            }
        }
    }
}

/// The server's snapshot is well shaped for authority: its blocks carry
/// distinct net ids, and each block's updates carry distinct, registered
/// replication ids.
pub proof fn lemma_emit_shape(w: WorldView, i: int)
    requires
        w.wf(),
    ensures
        distinct_nets(gather_entities(w.entities, w.removed, i)),
        forall|j: int|
            0 <= j < gather_entities(w.entities, w.removed, i).len() ==> updates_valid(
                (#[trigger] gather_entities(w.entities, w.removed, i)[j]).updates,
                w.n_components,
            ) && distinct_reps(gather_entities(w.entities, w.removed, i)[j].updates),
        forall|j: int|
            0 <= j < gather_entities(w.entities, w.removed, i).len() ==> exists|idx: int|
                i <= idx < w.entities.len() && (#[trigger] gather_entities(w.entities, w.removed, i)[
                    j]).entity == w.entities[idx].id,
    decreases w.entities.len() - i,
{
    if i < 0 || i >= w.entities.len() {
    } else {
        lemma_emit_shape(w, i + 1);
        let gs = gather_entities(w.entities, w.removed, i);
        let rest = gather_entities(w.entities, w.removed, i + 1);
        if w.entities[i].replicate {
            let e = w.entities[i];
            assert(entity_wf(e, w.n_components, w.next_id));
            lemma_updates_of_shape(e.components, 0);
            lemma_updates_of_wf(e.components, 0);
            assert(gs[0] == gather_entity(e, w.removed));
            assert(gs[0].entity == w.entities[i].id);
            assert(updates_valid(gs[0].updates, w.n_components)) by {
                assert forall|x: int|
                    0 <= x < gs[0].updates.len() implies (#[trigger] gs[0].updates[
                    x]).replication_id < w.n_components && gs[0].updates[x].data.len()
                    <= u32::MAX by {
                    assert(gs[0].updates[x].wf());
                }
            }
            assert forall|a: int, b: int|
                0 <= a < b < gs.len() implies (#[trigger] gs[a]).entity != (
                #[trigger] gs[b]).entity by {
                if a == 0 {
                    assert(gs[b] == rest[b - 1]);
                    let idx = choose|idx: int|
                        i + 1 <= idx < w.entities.len() && (#[trigger] rest[b - 1]).entity
                            == w.entities[idx].id;
                    assert(w.entities[i].id != w.entities[idx].id);
                } else {
                    assert(gs[a] == rest[a - 1] && gs[b] == rest[b - 1]);
                }
            }
            assert forall|j: int|
                0 <= j < gs.len() implies exists|idx: int|
                    i <= idx < w.entities.len() && (#[trigger] gs[j]).entity == w.entities[
                    idx].id by {
                if j == 0 {
                    assert(i <= i < w.entities.len() && gs[0].entity == w.entities[i].id);
                } else {
                    let idx = choose|idx: int|
                        i + 1 <= idx < w.entities.len() && (#[trigger] rest[j - 1]).entity
                            == w.entities[idx].id;
                    assert(i <= idx < w.entities.len() && gs[j].entity == w.entities[idx].id);
                }
            }
        }
    }
}

/// Snapshot authority over components: after the client applies a
/// well-shaped snapshot's entity blocks — one per replicated entity,
/// as the server emits them — and the resync commit materializes the
/// staged values, every component the snapshot carried reads exactly the
/// snapshot's payload on the mapped local entity.
pub proof fn lemma_snapshot_components_authoritative(
    w: WorldView,
    m: Seq<(u64, u64)>,
    blocks: Seq<EntityUpdatesView>,
    b: int,
    u: int,
)
    requires
        client_wf(w, m),
        map_targets_live(w, m),
        forall|j: int|
            0 <= j < blocks.len() ==> updates_valid((#[trigger] blocks[j]).updates, w.n_components)
                && distinct_reps(blocks[j].updates),
        distinct_nets(blocks),
        0 <= b < blocks.len(),
        0 <= u < blocks[b].updates.len(),
        w.next_id + blocks.len() <= u64::MAX,
        w.entities.len() + blocks.len() <= u32::MAX,
    ensures
        ({
            let (w1, m1) = apply_entities_spec(w, m, blocks, 0);
            let local = local_of(m1, blocks[b].entity);
            let wc = crate::world::commit_staged_spec(w1);
            &&& has_net(m1, blocks[b].entity)
            &&& wc.has(local)
            &&& wc.entity(local).components[blocks[b].updates[u].replication_id as int] == Some(
                blocks[b].updates[u].data,
            )
        }),
{
    lemma_apply_entities_effect(w, m, blocks, 0, b, u);
    let (w1, m1) = apply_entities_spec(w, m, blocks, 0);
    let local = local_of(m1, blocks[b].entity);
    let rep = blocks[b].updates[u].replication_id as int;
    assert(client_wf(w1, m1));
    assert(0 <= rep < w1.entity(local).staged.len()) by {
        let li = w1.index_of(local);
        assert(0 <= li < w1.entities.len() && w1.entities[li].id == local);
        assert(entity_wf(w1.entities[li], w1.n_components, w1.next_id));
        assert(updates_valid(blocks[b].updates, w.n_components));
    }
    lemma_commit_materializes(w1, local, rep);
}

/// Gather one entity's block of the snapshot.
fn gather_entity_exec(world: &World, i: usize) -> (block: EntityUpdates)
    requires
        world@.wf(),
        i < world@.entities.len(),
    ensures
        block@ == gather_entity(world@.entities[i as int], world@.removed),
{
    let ghost ev = world@.entities[i as int];
    let e = &world.entities[i];
    let id = e.id;
    let mut updates: Vec<UpdateComponent> = Vec::new();
    let nc = e.components.len();
    proof {
        assert(ev.components.len() == nc);
        assert(updates@.map_values(|u: UpdateComponent| u@) =~= Seq::<UpdateComponentView>::empty());
        assert(updates@.map_values(|u: UpdateComponent| u@) + updates_of(ev.components, 0)
            =~= updates_of(ev.components, 0));
    }
    let mut k: usize = 0;
    while k < nc
        invariant
            k <= nc,
            nc == ev.components.len(),
            ev == world@.entities[i as int],
            i < world@.entities.len(),
            world@.wf(),
            updates_of(ev.components, 0) == updates@.map_values(|u: UpdateComponent| u@)
                + updates_of(ev.components, k as int),
        decreases nc - k,
    {
        let c = match &world.entities[i].components[k] {
            Some(v) => Some(clone_bytes(v)),
            None => None,
        };
        match c {
            Some(data) => {
                let ghost before = updates@;
                proof {
                    assert(ev.components[k as int] == Some(data@));
                }
                updates.push(UpdateComponent { replication_id: k as u32, data });
                proof {
                    assert(updates@.map_values(|u: UpdateComponent| u@) =~= before.map_values(
                        |u: UpdateComponent| u@,
                    ).push(UpdateComponentView {
                        replication_id: k as u32,
                        data: ev.components[k as int]->Some_0,
                    }));
                    assert(updates@.map_values(|u: UpdateComponent| u@) + updates_of(
                        ev.components,
                        k as int + 1,
                    ) =~= before.map_values(|u: UpdateComponent| u@) + updates_of(
                        ev.components,
                        k as int,
                    ));
                }
            },
            None => {
                proof {
                    assert(ev.components[k as int] is None);
                }
            },
        }
        k = k + 1;
    }
    proof {
        assert(updates_of(ev.components, nc as int) =~= Seq::<UpdateComponentView>::empty());
        assert(updates@.map_values(|u: UpdateComponent| u@) + Seq::<UpdateComponentView>::empty()
            =~= updates@.map_values(|u: UpdateComponent| u@));
    }
    let mut removals: Vec<u32> = Vec::new();
    let nr = world.removed.len();
    proof {
        assert(world@.removed.len() == nr);
        assert(removals@ + removals_for(world@.removed, ev.id, 0) =~= removals_for(
            world@.removed,
            ev.id,
            0,
        ));
    }
    let mut m: usize = 0;
    while m < nr
        invariant
            m <= nr,
            nr == world@.removed.len(),
            ev == world@.entities[i as int],
            i < world@.entities.len(),
            id == ev.id,
            removals_for(world@.removed, ev.id, 0) == removals@ + removals_for(
                world@.removed,
                ev.id,
                m as int,
            ),
        decreases nr - m,
    {
        let (rid, rep) = world.removed[m];
        if rid == id {
            let ghost before = removals@;
            removals.push(rep);
            proof {
                assert(removals@ =~= before.push(world@.removed[m as int].1));
                assert(removals@ + removals_for(world@.removed, ev.id, m as int + 1)
                    =~= before + removals_for(world@.removed, ev.id, m as int));
            }
        }
        m = m + 1;
    }
    proof {
        assert(removals_for(world@.removed, ev.id, nr as int) =~= Seq::<u32>::empty());
        assert(removals@ + Seq::<u32>::empty() =~= removals@);
    }
    let block = EntityUpdates { entity: id, updates, removals };
    proof {
        assert(block@ =~= gather_entity(ev, world@.removed));
    }
    block
}

} // verus!
