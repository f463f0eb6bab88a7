//! The tick scheduler and the prediction/rollback core: one state
//! machine per peer that receives packets, advances the fixed-tick
//! clock, runs the ordered phase sequence, detects desync on snapshot
//! arrival, and rewinds and resimulates the client's speculative future.

use vstd::prelude::*;

use crate::codec::{decode_input_packet, decode_replication_packet, dec_input_packet,
    dec_replication_packet, enc_input_packet, InputPacket, InputPacketView};
use crate::entity_map::{has_local, has_net, has_pair, net_of, NetworkEntities};
use crate::games::GameLogic;
use crate::history::{ActionHistory, ActionState, ButtonState, HistoryView, with_edges_spec};
use crate::registry::Registry;
use crate::replication::{apply_packet, apply_packet_spec, client_wf, valid_packet};
use crate::tick::{FixedTimestep, NetworkTick, TickStrategy};
use crate::world::{clone_history, EntityView, World, WorldView};
use crate::ProtocolError;

verus! {

/// Which side of the connection this peer is.
#[derive(Clone, Copy, Debug, PartialEq, Eq, Structural)]
pub enum Role {
    Server,
    Client,
}

/// How many input states one entity retains at most; old entries beyond
/// the last acknowledged server tick are trimmed anyway, and this cap
/// keeps the history bounded while the server is silent.
pub const INPUT_HISTORY_CAP: u64 = 1024;

/// The simulation core of one peer.
pub struct SimCore {
    pub role: Role,
    pub strategy: TickStrategy,
    pub tick: NetworkTick,
    pub fixed_time: FixedTimestep,
    /// An explicit request to run one tick under the manual strategy.
    pub do_tick: bool,
    /// The tick of the latest applied snapshot.
    pub synced_server_tick: Option<NetworkTick>,
    /// Whether a snapshot arrived since the scheduler last ran.
    pub new_snapshot: bool,
    /// Whether the client's transport is connected: input packets are
    /// sent only then.
    pub connected: bool,
    /// Whether the phase sequence is re-running past ticks after a
    /// rollback; input sampling and sends are suppressed then.
    pub resimulating: bool,
    pub registry: Registry,
    pub world: World,
    pub net_entities: NetworkEntities,
    /// How many tick passes have run (diagnostics).
    pub passes: u64,
    /// Encoded packets waiting to be handed to the transport.
    pub outbox: Vec<Vec<u8>>,
}

#[verifier::ext_equal]
pub struct SimView {
    pub role: Role,
    pub strategy: TickStrategy,
    pub tick: NetworkTick,
    pub fixed_time: FixedTimestep,
    pub do_tick: bool,
    pub synced_server_tick: Option<NetworkTick>,
    pub new_snapshot: bool,
    pub connected: bool,
    pub resimulating: bool,
    pub registry: Seq<u64>,
    pub world: WorldView,
    pub net_entities: Seq<(u64, u64)>,
    pub passes: u64,
    pub outbox: Seq<Seq<u8>>,
}

impl View for SimCore {
    type V = SimView;

    open spec fn view(&self) -> SimView {
        SimView {
            role: self.role,
            strategy: self.strategy,
            tick: self.tick,
            fixed_time: self.fixed_time,
            do_tick: self.do_tick,
            synced_server_tick: self.synced_server_tick,
            new_snapshot: self.new_snapshot,
            connected: self.connected,
            resimulating: self.resimulating,
            registry: self.registry.tags@,
            world: self.world@,
            net_entities: self.net_entities.pairs@,
            passes: self.passes,
            outbox: self.outbox@.map_values(|m: Vec<u8>| m@),
        }
    }
}

/// The byte-sequence views of a list of messages.
pub open spec fn msg_views(msgs: Seq<Vec<u8>>) -> Seq<Seq<u8>> {
    msgs.map_values(|m: Vec<u8>| m@)
}

/// Well-formedness of a peer's whole state.
pub open spec fn sim_wf(s: SimView) -> bool {
    &&& s.fixed_time.wf()
    &&& s.registry.len() <= u32::MAX
    &&& s.world.n_components == s.registry.len()
    &&& client_wf(s.world, s.net_entities)
}

impl SimCore {
    /// A fresh peer with an empty world.
    pub fn new(role: Role, strategy: TickStrategy, period_ns: u64, registry: Registry) -> (r: SimCore)
        requires
            registry.wf(),
            0 < period_ns <= crate::tick::MAX_PERIOD_NS,
        ensures
            sim_wf(r@),
            r@.role == role,
            r@.strategy == strategy,
            r@.tick.0 == 0,
            r@.passes == 0,
            (r@.synced_server_tick is None),
            r@.world.entities.len() == 0,
            r@.registry == registry.tags@,
            r@.outbox.len() == 0,
            r@.do_tick == false,
            r@.new_snapshot == false,
            r@.resimulating == false,
            r@.connected == false,
            r@.fixed_time == (FixedTimestep { period_ns, accumulated_ns: 0 }),
    {
        let n = registry.len();
        let r = SimCore {
            role,
            strategy,
            tick: NetworkTick(0),
            fixed_time: FixedTimestep::new(period_ns),
            do_tick: false,
            synced_server_tick: None,
            new_snapshot: false,
            connected: false,
            resimulating: false,
            world: World::new(n),
            registry,
            net_entities: NetworkEntities::new(),
            passes: 0,
            outbox: Vec::new(),
        };
        proof {
            assert(r@.outbox =~= Seq::<Seq<u8>>::empty());
        }
        r
    }

    /// Whether this peer is the authoritative server.
    pub fn is_server(&self) -> (r: bool)
        ensures
            r == (self@.role == Role::Server),
    {
        match self.role {
            Role::Server => true,
            Role::Client => false,
        }
    }

    /// Whether this peer is a client.
    pub fn is_client(&self) -> (r: bool)
        ensures
            r == (self@.role == Role::Client),
    {
        match self.role {
            Role::Server => false,
            Role::Client => true,
        }
    }

    /// Whether the phase sequence is re-running past ticks after a
    /// rollback; side-effecting systems gate on this.
    pub fn resimulating(&self) -> (r: bool)
        ensures
            r == self@.resimulating,
    {
        self.resimulating
    }

    /// The desync predicate, consulted when a new snapshot has arrived:
    /// this core takes the permissive policy and treats every new
    /// snapshot as a desync, which is always sound — the stricter
    /// component-by-component comparison only saves rollbacks.
    pub fn is_desynced(&self) -> (r: bool)
        ensures
            r,
    {
        true
    }

    /// Ask the manual-strategy scheduler to run exactly one tick on the
    /// next update.
    pub fn queue_do_tick(&mut self)
        ensures
            final(self)@ == (SimView { do_tick: true, ..old(self)@ }),
    {
        self.do_tick = true;
        proof {
            assert(self@ =~= (SimView { do_tick: true, ..old(self)@ }));
        }
    }
}

// ---------------------------------------------------------------------------
// Receiving packets
// ---------------------------------------------------------------------------

/// Install a received input history on the entity the packet names; an
/// unknown or foreign entity id is silently ignored.
pub open spec fn install_history_spec(w: WorldView, id: u64, h: HistoryView) -> WorldView {
    if w.has(id) {
        let i = w.index_of(id);
        WorldView {
            entities: w.entities.update(i, EntityView { history: Some(h), ..w.entities[i] }),
            ..w
        }
    } else {
        w
    }
}

fn install_history(world: &mut World, id: u64, h: ActionHistory)
    requires
        old(world)@.wf(),
        h@.wf(),
    ensures
        final(world)@.wf(),
        final(world)@ == install_history_spec(old(world)@, id, h@),
{
    let idx = match world.find_index(id) {
        Some(i) => i,
        None => {
            return ;
        },
    };
    let ghost w0 = world@;
    proof {
        let ci = w0.index_of(id);
        assert(0 <= ci < w0.entities.len() && w0.entities[ci].id == id);
        assert(ci == idx as int);
    }
    let e = &mut world.entities[idx];
    e.history = Some(h);
    proof {
        let e0 = w0.entities[idx as int];
        assert(world.entities@[idx as int]@ =~= (EntityView { history: Some(h@), ..e0 }));
        assert(world@.entities =~= w0.entities.update(
            idx as int,
            EntityView { history: Some(h@), ..e0 },
        ));
        assert(world@ =~= install_history_spec(w0, id, h@));
    }
}

/// What one incoming message does to a peer.
///
/// On a client the message is a snapshot: one whose tick does not exceed
/// the last applied snapshot's tick is dropped (defence against duplicate
/// delivery; the applied ticks are thereby strictly increasing), any
/// other is applied whole, becomes the synced server tick, and raises the
/// new-snapshot flag for the scheduler.
///
/// On the server the message is an input packet: its history is installed
/// on the entity it names, and an unknown entity id is ignored.
pub open spec fn receive_spec(s: SimView, msg: Seq<u8>) -> Result<SimView, ProtocolError> {
    match s.role {
        Role::Client => match dec_replication_packet(msg, 0) {
            Some((pk, _)) => {
                if s.synced_server_tick is Some && pk.tick.0 <= s.synced_server_tick->Some_0.0 {
                    Ok(s)
                } else if !valid_packet(pk, s.world.n_components) {
                    Err(ProtocolError::ReplicationIdOutOfRange)
                } else {
                    let w0 = WorldView { removed: Seq::empty(), despawned: Seq::empty(), ..s.world };
                    let (w1, m1) = apply_packet_spec(w0, s.net_entities, pk);
                    Ok(SimView {
                        world: w1,
                        net_entities: m1,
                        synced_server_tick: Some(pk.tick),
                        new_snapshot: true,
                        ..s
                    })
                }
            },
            None => Err(ProtocolError::Decode),
        },
        Role::Server => match dec_input_packet(msg, 0) {
            Some((ip, _)) => Ok(
                SimView { world: install_history_spec(s.world, ip.entity, ip.history), ..s },
            ),
            None => Err(ProtocolError::Decode),
        },
    }
}

impl SimCore {
    /// Take one message from the transport. A snapshot with a stale tick
    /// is dropped; a payload that cannot be decoded, or that cites an
    /// unregistered replication id, is a fatal protocol error and leaves
    /// the state unchanged.
    pub fn receive_message(&mut self, msg: &Vec<u8>) -> (r: Result<(), ProtocolError>)
        requires
            sim_wf(old(self)@),
        ensures
            sim_wf(final(self)@),
            (match r {
                Ok(_) => receive_spec(old(self)@, msg@) == Ok::<SimView, ProtocolError>(
                    final(self)@,
                ),
                Err(e) => receive_spec(old(self)@, msg@) == Err::<SimView, ProtocolError>(e),
            }),
    {
        let ghost s0 = self@;
        match self.role {
            Role::Client => {
                let pk = match decode_replication_packet(msg) {
                    Ok(p) => p,
                    Err(e) => {
                        proof {
                            assert(self@ =~= s0);
                        }
                        return Err(e);
                    },
                };
                let stale = match &self.synced_server_tick {
                    Some(st) => pk.tick.0 <= st.0,
                    None => false,
                };
                if stale {
                    proof {
                        assert(self@ =~= s0);
                    }
                    return Ok(());
                }
                self.world.clear_emit_records();
                match apply_packet(&mut self.world, &mut self.net_entities, &pk) {
                    Ok(_) => {},
                    Err(e) => {
                        proof {
                            assert(e == ProtocolError::ReplicationIdOutOfRange);
                            assert(self@.world == (WorldView {
                                removed: Seq::empty(),
                                despawned: Seq::empty(),
                                ..s0.world
                            }));
                        }
                        // fatal: the connection is dropped
                        return Err(e);
                    },
                }
                self.synced_server_tick = Some(pk.tick);
                self.new_snapshot = true;
                proof {
                    let w0 = WorldView {
                        removed: Seq::empty(),
                        despawned: Seq::empty(),
                        ..s0.world
                    };
                    let (w1, m1) = apply_packet_spec(w0, s0.net_entities, pk@);
                    assert(self@ =~= (SimView {
                        world: w1,
                        net_entities: m1,
                        synced_server_tick: Some(pk@.tick),
                        new_snapshot: true,
                        ..s0
                    }));
                }
                Ok(())
            },
            Role::Server => {
                let ip = match decode_input_packet(msg) {
                    Ok(p) => p,
                    Err(e) => {
                        proof {
                            assert(self@ =~= s0);
                        }
                        return Err(e);
                    },
                };
                let ghost ipv = ip@;
                let InputPacket { entity, tick: _tick, history } = ip;
                install_history(&mut self.world, entity, history);
                proof {
                    assert(self@ =~= (SimView {
                        world: install_history_spec(s0.world, ipv.entity, ipv.history),
                        ..s0
                    }));
                }
                Ok(())
            },
        }
    }
}

// ---------------------------------------------------------------------------
// The phase pass
// ---------------------------------------------------------------------------

/// One entity after the input-replay step: the input recorded for this
/// tick, if any, becomes the installed input state (used on the server
/// every pass, and on a client during resimulation, so gameplay sees
/// exactly the edges originally observed).
pub open spec fn copy_hist_entity(e: EntityView, t: NetworkTick) -> EntityView {
    match e.history {
        Some(h) => match h.at(t) {
            Some(a) => EntityView { actions: Some(a), ..e },
            None => e,
        },
        None => e,
    }
}

pub open spec fn copy_histories_spec(w: WorldView, t: NetworkTick) -> WorldView {
    WorldView { entities: w.entities.map_values(|e: EntityView| copy_hist_entity(e, t)), ..w }
}

fn copy_histories(world: &mut World, t: NetworkTick)
    requires
        old(world)@.wf(),
    ensures
        final(world)@.wf(),
        final(world)@ == copy_histories_spec(old(world)@, t),
{
    let ghost w0 = world@;
    let n = world.entities.len();
    let mut i: usize = 0;
    while i < n
        invariant
            i <= n,
            n == world@.entities.len(),
            n == w0.entities.len(),
            world@.n_components == w0.n_components,
            world@.next_id == w0.next_id,
            world@.removed == w0.removed,
            world@.despawned == w0.despawned,
            w0.wf(),
            forall|j: int|
                0 <= j < i ==> world@.entities[j] == copy_hist_entity(#[trigger] w0.entities[j], t),
            forall|j: int| i <= j < n ==> world@.entities[j] == #[trigger] w0.entities[j],
        decreases n - i,
    {
        let ghost e0 = world@.entities[i as int];
        let a_opt = match &world.entities[i].history {
            Some(h) => h.at_tick(t),
            None => None,
        };
        match a_opt {
            Some(a) => {
                let ghost av = a@;
                let e = &mut world.entities[i];
                e.actions = Some(a);
                proof {
                    assert(world@.entities[i as int] =~= copy_hist_entity(e0, t));
                }
            },
            None => {
                proof {
                    assert(world@.entities[i as int] == copy_hist_entity(e0, t));
                }
            },
        }
        i = i + 1;
    }
    proof {
        assert(world@.entities =~= w0.entities.map_values(|e: EntityView| copy_hist_entity(e, t)));
        assert(world@ =~= copy_histories_spec(w0, t));
        assert forall|a: int| 0 <= a < world@.entities.len() implies crate::world::entity_wf(
            #[trigger] world@.entities[a],
            world@.n_components,
            world@.next_id,
        ) by {
            assert(crate::world::entity_wf(w0.entities[a], w0.n_components, w0.next_id));
            let ea = world@.entities[a];
            let e0a = w0.entities[a];
            if ea != e0a {
                assert(e0a.history is Some);
                let h = e0a.history->Some_0;
                assert(h.at(t) is Some);
                assert(ea.actions == Some(h.entries[h.tick.0 - t.0]));
            }
        }
    }
}

/// The oldest tick an input history keeps after this tick's trim: the
/// last acknowledged server tick, but never more than the retention cap
/// below the head.
pub open spec fn trim_oldest(t: NetworkTick, synced: Option<NetworkTick>) -> u64 {
    let cap_old: u64 = if t.0 >= INPUT_HISTORY_CAP - 1 {
        (t.0 - (INPUT_HISTORY_CAP - 1)) as u64
    } else {
        0
    };
    let acked: u64 = match synced {
        Some(st) => st.0,
        None => 0,
    };
    if acked >= cap_old {
        acked
    } else {
        cap_old
    }
}

fn trim_oldest_exec(t: NetworkTick, synced: Option<NetworkTick>) -> (r: u64)
    ensures
        r == trim_oldest(t, synced),
{
    let cap_old: u64 = if t.0 >= INPUT_HISTORY_CAP - 1 {
        t.0 - (INPUT_HISTORY_CAP - 1)
    } else {
        0
    };
    let acked: u64 = match synced {
        Some(st) => st.0,
        None => 0,
    };
    if acked >= cap_old {
        acked
    } else {
        cap_old
    }
}

/// An input history after its old entries are dropped against `oldest`.
pub open spec fn trimmed(h: HistoryView, oldest: u64) -> HistoryView {
    HistoryView {
        tick: h.tick,
        entries: h.entries.take(
            vstd::math::min(
                1 + if h.tick.0 >= oldest {
                    h.tick.0 - oldest
                } else {
                    0
                },
                h.entries.len() as int,
            ),
        ),
    }
}

/// One entity after the input-recording step of a live (non-resimulating)
/// client tick: the current input state, with press/release edges
/// synthesized against the previous entry, becomes the history entry for
/// this tick, and entries older than the acknowledged server tick are
/// trimmed.
pub open spec fn record_entity(e: EntityView, t: NetworkTick, synced: Option<NetworkTick>) -> EntityView {
    if e.control && e.actions is Some {
        let a = e.actions->Some_0;
        let oldest = trim_oldest(t, synced);
        match e.history {
            Some(h) => {
                if h.entries.len() > 0 && h.tick.0 < t.0 {
                    let edged = with_edges_spec(a, h.entries[0]);
                    EntityView {
                        history: Some(
                            trimmed(HistoryView { tick: t, entries: seq![edged] + h.entries }, oldest),
                        ),
                        ..e
                    }
                } else if h.entries.len() == 0 {
                    EntityView {
                        history: Some(
                            trimmed(HistoryView { tick: t, entries: seq![a] }, oldest),
                        ),
                        ..e
                    }
                } else {
                    e
                }
            },
            None => EntityView {
                history: Some(trimmed(HistoryView { tick: t, entries: seq![a] }, oldest)),
                ..e
            },
        }
    } else {
        e
    }
}

pub open spec fn record_inputs_spec(w: WorldView, t: NetworkTick, synced: Option<NetworkTick>) -> WorldView {
    WorldView {
        entities: w.entities.map_values(|e: EntityView| record_entity(e, t, synced)),
        ..w
    }
}

/// Bound on the retained length after a trim: at most the retention cap.
proof fn lemma_trimmed_len(h: HistoryView, t: NetworkTick, synced: Option<NetworkTick>)
    requires
        h.tick == t,
    ensures
        trimmed(h, trim_oldest(t, synced)).entries.len() <= INPUT_HISTORY_CAP,
{
}

fn record_inputs(world: &mut World, t: NetworkTick, synced: Option<NetworkTick>)
    requires
        old(world)@.wf(),
    ensures
        final(world)@.wf(),
        final(world)@ == record_inputs_spec(old(world)@, t, synced),
{
    let ghost w0 = world@;
    let n = world.entities.len();
    let mut i: usize = 0;
    while i < n
        invariant
            i <= n,
            n == world@.entities.len(),
            n == w0.entities.len(),
            world@.n_components == w0.n_components,
            world@.next_id == w0.next_id,
            world@.removed == w0.removed,
            world@.despawned == w0.despawned,
            w0.wf(),
            forall|j: int|
                0 <= j < i ==> world@.entities[j] == record_entity(
                    #[trigger] w0.entities[j],
                    t,
                    synced,
                ),
            forall|j: int| i <= j < n ==> world@.entities[j] == #[trigger] w0.entities[j],
        decreases n - i,
    {
        let ghost e0 = world@.entities[i as int];
        let oldest = trim_oldest_exec(t, synced);
        let e = &mut world.entities[i];
        if e.control {
            let a_opt = match &e.actions {
                Some(a0) => Some(a0.clone()),
                None => None,
            };
            match a_opt {
                Some(a) => {
                    let ghost av = a@;
                    proof {
                        assert(av == e0.actions->Some_0);
                    }
                    match &mut e.history {
                        Some(h) => {
                            let hlen = h.history.len();
                            if hlen > 0 && h.tick.0 < t.0 {
                                let prev = h.history[0].clone();
                                proof {
                                    assert(prev@ == e0.history->Some_0.entries[0]);
                                }
                                let edged = a.with_edges_from(&prev);
                                h.add_for_tick(t, edged);
                                h.remove_old_history(NetworkTick(oldest));
                            } else if hlen == 0 {
                                h.add_for_tick(t, a);
                                h.remove_old_history(NetworkTick(oldest));
                            }
                        },
                        None => {
                            let mut nh = ActionHistory::new();
                            nh.add_for_tick(t, a);
                            nh.remove_old_history(NetworkTick(oldest));
                            e.history = Some(nh);
                        },
                    }
                },
                None => {},
            }
        }
        proof {
            assert(world@.entities[i as int] =~= record_entity(e0, t, synced));
            assert(e0 == w0.entities[i as int]);
            assert(crate::world::entity_wf(w0.entities[i as int], w0.n_components, w0.next_id));
            assert(crate::world::entity_wf(e0, w0.n_components, w0.next_id));
            let ea = world@.entities[i as int];
            if ea != e0 {
                assert(ea.history is Some);
                let h2 = ea.history->Some_0;
                lemma_trimmed_len(
                    HistoryView { tick: t, entries: h2.entries },
                    t,
                    synced,
                );
                assert(h2.wf()) by {
                    assert(h2.entries.len() <= INPUT_HISTORY_CAP);
                    assert forall|k: int| 0 <= k < h2.entries.len() implies crate::codec::state_wf(
                        #[trigger] h2.entries[k],
                    ) by {
                        match e0.history {
                            Some(h0) => {
                                if k > 0 {
                                    assert(h2.entries[k] == h0.entries[k - 1]);
                                }
                            },
                            None => {},
                        }
                    }
                }
                assert(crate::world::entity_wf(ea, w0.n_components, w0.next_id));
            }
        }
        i = i + 1;
    }
    proof {
        assert(world@.entities =~= w0.entities.map_values(
            |e: EntityView| record_entity(e, t, synced),
        ));
        assert(world@ =~= record_inputs_spec(w0, t, synced));
    }
}

/// The encoded input packets a connected client sends in one live tick:
/// one per controlled entity whose server identity is known, carrying the
/// full retained history.
pub open spec fn input_packets_spec(
    entities: Seq<EntityView>,
    m: Seq<(u64, u64)>,
    t: NetworkTick,
    i: int,
) -> Seq<Seq<u8>>
    decreases entities.len() - i,
{
    if i < 0 || i >= entities.len() {
        Seq::empty()
    } else {
        let e = entities[i];
        let rest = input_packets_spec(entities, m, t, i + 1);
        if e.control && e.history is Some && has_local(m, e.id) {
            seq![
                enc_input_packet(
                    InputPacketView {
                        entity: net_of(m, e.id),
                        tick: t,
                        history: e.history->Some_0,
                    },
                ),
            ] + rest
        } else {
            rest
        }
    }
}

fn collect_input_packets(world: &World, map: &NetworkEntities, t: NetworkTick) -> (r: Vec<Vec<u8>>)
    requires
        world@.wf(),
        forall|i: int, j: int|
            0 <= i < j < map.pairs@.len() ==> (#[trigger] map.pairs@[i]).0 != (
            #[trigger] map.pairs@[j]).0 && map.pairs@[i].1 != map.pairs@[j].1,
    ensures
        r@.map_values(|m2: Vec<u8>| m2@) == input_packets_spec(world@.entities, map.pairs@, t, 0),
{
    let ghost w0 = world@;
    let mut out: Vec<Vec<u8>> = Vec::new();
    let n = world.entities.len();
    proof {
        assert(out@.map_values(|m2: Vec<u8>| m2@) =~= Seq::<Seq<u8>>::empty());
        assert(out@.map_values(|m2: Vec<u8>| m2@) + input_packets_spec(
            w0.entities,
            map.pairs@,
            t,
            0,
        ) =~= input_packets_spec(w0.entities, map.pairs@, t, 0));
    }
    let mut i: usize = 0;
    while i < n
        invariant
            i <= n,
            n == world@.entities.len(),
            world@ == w0,
            w0.wf(),
            forall|a: int, b: int|
                0 <= a < b < map.pairs@.len() ==> (#[trigger] map.pairs@[a]).0 != (
                #[trigger] map.pairs@[b]).0 && map.pairs@[a].1 != map.pairs@[b].1,
            input_packets_spec(w0.entities, map.pairs@, t, 0) == out@.map_values(
                |m2: Vec<u8>| m2@,
            ) + input_packets_spec(w0.entities, map.pairs@, t, i as int),
        decreases n - i,
    {
        let ghost e0 = w0.entities[i as int];
        let e = &world.entities[i];
        let wanted = e.control && match &e.history {
            Some(_) => true,
            None => false,
        };
        if wanted {
            match map.get_by_local(e.id) {
                Some(net) => {
                    proof {
                        let wi = choose|x: int|
                            0 <= x < map.pairs@.len() && map.pairs@[x] == (net, e0.id);
                        let ci = choose|x: int|
                            0 <= x < map.pairs@.len() && (#[trigger] map.pairs@[x]).1 == e0.id;
                        assert(ci == wi);
                        assert(net_of(map.pairs@, e0.id) == net);
                        assert(has_local(map.pairs@, e0.id));
                    }
                    let history = match &e.history {
                        Some(h) => clone_history(h),
                        None => ActionHistory::new(),
                    };
                    let packet = InputPacket { entity: net, tick: t, history };
                    proof {
                        assert(crate::world::entity_wf(e0, w0.n_components, w0.next_id));
                        assert(packet@.wf());
                        assert(packet@ =~= (InputPacketView {
                            entity: net_of(map.pairs@, e0.id),
                            tick: t,
                            history: e0.history->Some_0,
                        }));
                    }
                    let bytes = crate::codec::encode_input_packet(&packet);
                    let ghost before = out@;
                    out.push(bytes);
                    proof {
                        assert(out@.map_values(|m2: Vec<u8>| m2@) =~= before.map_values(
                            |m2: Vec<u8>| m2@,
                        ).push(enc_input_packet(packet@)));
                        assert(out@.map_values(|m2: Vec<u8>| m2@) + input_packets_spec(
                            w0.entities,
                            map.pairs@,
                            t,
                            i as int + 1,
                        ) =~= before.map_values(|m2: Vec<u8>| m2@) + input_packets_spec(
                            w0.entities,
                            map.pairs@,
                            t,
                            i as int,
                        ));
                    }
                },
                None => {
                    proof {
                        assert(!has_local(map.pairs@, e0.id));
                    }
                },
            }
        }
        i = i + 1;
    }
    proof {
        assert(input_packets_spec(w0.entities, map.pairs@, t, n as int) =~= Seq::<Seq<u8>>::empty());
        assert(out@.map_values(|m2: Vec<u8>| m2@) + Seq::<Seq<u8>>::empty() =~= out@.map_values(
            |m2: Vec<u8>| m2@,
        ));
    }
    out
}

/// One pass of the ordered phase sequence: the tick increments; inputs
/// are recorded (live client) or replayed from history (server, or a
/// resimulating client); a live connected client sends its input
/// packets; and the game's update phase runs. Outbound sends are
/// suppressed during resimulation.
pub open spec fn pass_spec<G: GameLogic>(g: &G, s: SimView) -> SimView {
    let t2 = NetworkTick((s.tick.0 + 1) as u64);
    let w1 = if s.role == Role::Server || s.resimulating {
        copy_histories_spec(s.world, t2)
    } else {
        record_inputs_spec(s.world, t2, s.synced_server_tick)
    };
    let out1 = if s.role == Role::Client && !s.resimulating && s.connected {
        s.outbox + input_packets_spec(w1.entities, s.net_entities, t2, 0)
    } else {
        s.outbox
    };
    SimView {
        tick: t2,
        world: g.update_spec(w1),
        outbox: out1,
        passes: ((s.passes + 1) as u64),
        ..s
    }
}

impl SimCore {
    /// Run one pass of the phase sequence.
    pub fn run_pass<G: GameLogic>(&mut self, game: &G)
        requires
            sim_wf(old(self)@),
            old(self)@.tick.0 < u64::MAX,
        ensures
            sim_wf(final(self)@),
            final(self)@ == pass_spec(game, old(self)@),
    {
        let ghost s0 = self@;
        let t2 = NetworkTick(self.tick.0 + 1);
        self.tick = t2;
        let is_server = match self.role {
            Role::Server => true,
            Role::Client => false,
        };
        if is_server || self.resimulating {
            copy_histories(&mut self.world, t2);
        } else {
            record_inputs(&mut self.world, t2, self.synced_server_tick);
        }
        if !is_server && !self.resimulating && self.connected {
            let mut pkts = collect_input_packets(&self.world, &self.net_entities, t2);
            let ghost pv = pkts@.map_values(|m2: Vec<u8>| m2@);
            let ghost before = self.outbox@.map_values(|m2: Vec<u8>| m2@);
            self.outbox.append(&mut pkts);
            proof {
                assert(self.outbox@.map_values(|m2: Vec<u8>| m2@) =~= before + pv);
            }
        }
        game.update(&mut self.world);
        let ghost p0 = self.passes;
        self.passes = if self.passes == u64::MAX {
            0
        } else {
            self.passes + 1
        };
        proof {
            if p0 == u64::MAX {
                assert(((p0 + 1) as u64) == 0u64) by (bit_vector)
                    requires
                        p0 == 0xffff_ffff_ffff_ffffu64,
                ;
            }
            assert(self@ =~= pass_spec(game, s0));
        }
    }
}

// ---------------------------------------------------------------------------
// The scheduler: budget, rollback, and the wall-clock update
// ---------------------------------------------------------------------------

/// Whether one more tick pass should run now: under the automatic
/// strategy, when a full period is banked; under the manual strategy,
/// when a tick was explicitly requested.
pub open spec fn should_run_spec(s: SimView) -> bool {
    s.tick.0 < u64::MAX && (match s.strategy {
        TickStrategy::Automatic => s.fixed_time.period_ns > 0 && s.fixed_time.accumulated_ns
            >= s.fixed_time.period_ns,
        TickStrategy::Manual => s.do_tick,
    })
}

/// Spend the budget for the pass that is about to run.
pub open spec fn take_budget_spec(s: SimView) -> SimView {
    match s.strategy {
        TickStrategy::Automatic => SimView {
            fixed_time: FixedTimestep {
                period_ns: s.fixed_time.period_ns,
                accumulated_ns: (s.fixed_time.accumulated_ns - s.fixed_time.period_ns) as u64,
            },
            ..s
        },
        TickStrategy::Manual => SimView { do_tick: false, ..s },
    }
}

/// Run tick passes while the budget allows: the catch-up loop of the
/// fixed-timestep scheduler.
pub open spec fn drive_spec<G: GameLogic>(g: &G, s: SimView) -> SimView
    decreases s.fixed_time.accumulated_ns, (if s.do_tick { 1int } else { 0int }),
    when s.fixed_time.period_ns > 0 || s.strategy == TickStrategy::Manual
{
    if should_run_spec(s) {
        drive_spec(g, pass_spec(g, take_budget_spec(s)))
    } else {
        s
    }
}

/// Rollback resimulation: run whole phase passes, without touching the
/// accumulator, until the clock is back at the present target.
pub open spec fn resim_spec<G: GameLogic>(g: &G, s: SimView, target: u64) -> SimView
    decreases target - s.tick.0,
{
    if s.tick.0 >= target {
        s
    } else {
        resim_spec(g, pass_spec(g, s), target)
    }
}

/// The resync boundary, run when a snapshot has newly arrived: staged
/// component values are committed in one pass, every speculative
/// replicate-marked entity is purged, and the clock is set to the
/// snapshot's tick. If the clock had run ahead of the snapshot, the
/// discarded future is re-simulated under the resimulating flag up to
/// the present target.
pub open spec fn resync_spec<G: GameLogic>(g: &G, s: SimView) -> SimView
    recommends
        s.synced_server_tick is Some,
{
    let st = s.synced_server_tick->Some_0;
    let current = s.tick;
    let w1 = crate::world::purge_replicate_spec(crate::world::commit_staged_spec(s.world));
    let s1 = SimView { world: w1, tick: st, ..s };
    if current.0 > st.0 {
        let s2 = resim_spec(g, SimView { resimulating: true, ..s1 }, current.0);
        SimView { resimulating: false, ..s2 }
    } else {
        s1
    }
}

/// The wall-clock budget after one update: the elapsed time, plus, on a
/// client that just observed a new server tick, the synchronization bias
/// that keeps it running ahead of the server.
pub open spec fn auto_advance_spec(s: SimView, delta_ns: u64, rtt_ns: u64) -> SimView {
    let p = s.fixed_time.period_ns;
    let acc1 = vstd::math::min(s.fixed_time.accumulated_ns + delta_ns, u64::MAX as int);
    let acc2 = if s.role == Role::Client && s.new_snapshot && s.synced_server_tick is Some {
        let bias = crate::tick::sync_bias_spec(
            s.synced_server_tick->Some_0.0 as int,
            s.tick.0 as int,
            p as int,
            rtt_ns as int,
        );
        vstd::math::min(acc1 + bias, u64::MAX as int)
    } else {
        acc1
    };
    SimView { fixed_time: FixedTimestep { period_ns: p, accumulated_ns: acc2 as u64 }, ..s }
}

/// The server's per-update snapshot broadcast: the whole world, keyed by
/// replication ids, bundled with the current tick.
pub open spec fn server_emit_spec(s: SimView) -> SimView {
    if s.role == Role::Server {
        let pk = crate::replication::emit_spec(s.world, s.tick);
        SimView {
            world: WorldView { removed: Seq::empty(), despawned: Seq::empty(), ..s.world },
            outbox: s.outbox.push(crate::codec::enc_replication_packet(pk)),
            ..s
        }
    } else {
        s
    }
}

/// All pending incoming messages, applied in arrival order.
pub open spec fn receive_all_spec(s: SimView, msgs: Seq<Seq<u8>>, i: int) -> Result<SimView, ProtocolError>
    decreases msgs.len() - i,
{
    if i < 0 || i >= msgs.len() {
        Ok(s)
    } else {
        match receive_spec(s, msgs[i]) {
            Ok(s1) => receive_all_spec(s1, msgs, i + 1),
            Err(e) => Err(e),
        }
    }
}

/// One whole wall-clock update of a peer, given the elapsed time, the
/// transport's round-trip estimate and the incoming messages; the result
/// carries the messages to hand to the transport. The order is that of
/// the per-tick data flow: drain incoming packets; bank wall-clock time
/// (plus the client's sync bias); if a new snapshot arrived, resync and,
/// when the clock had run ahead, roll back and resimulate; run the tick
/// passes the budget allows; and, on the server, broadcast the snapshot.
pub open spec fn update_spec<G: GameLogic>(
    g: &G,
    s: SimView,
    delta_ns: u64,
    rtt_ns: u64,
    msgs: Seq<Seq<u8>>,
) -> Result<(SimView, Seq<Seq<u8>>), ProtocolError> {
    match receive_all_spec(s, msgs, 0) {
        Ok(s1) => {
            let s2 = if s1.strategy == TickStrategy::Automatic {
                auto_advance_spec(s1, delta_ns, rtt_ns)
            } else {
                s1
            };
            let s3 = if s2.role == Role::Client && s2.new_snapshot && s2.synced_server_tick
                is Some {
                resync_spec(g, s2)
            } else {
                s2
            };
            let s4 = SimView { new_snapshot: false, ..s3 };
            let s5 = server_emit_spec(drive_spec(g, s4));
            Ok((SimView { outbox: Seq::empty(), ..s5 }, s5.outbox))
        },
        Err(e) => Err(e),
    }
}

impl SimCore {
    /// Whether a tick pass should run now.
    fn should_run_now(&self) -> (r: bool)
        ensures
            r == should_run_spec(self@),
    {
        self.tick.0 < u64::MAX && (match self.strategy {
            TickStrategy::Automatic => self.fixed_time.period_ns > 0 && self.fixed_time.ready(),
            TickStrategy::Manual => self.do_tick,
        })
    }

    /// Drain the transport's pending messages in arrival order.
    fn drain_incoming(&mut self, msgs: &Vec<Vec<u8>>) -> (r: Result<(), ProtocolError>)
        requires
            sim_wf(old(self)@),
        ensures
            sim_wf(final(self)@),
            (match r {
                Ok(_) => receive_all_spec(old(self)@, msg_views(msgs@), 0) == Ok::<
                    SimView,
                    ProtocolError,
                >(final(self)@),
                Err(e) => receive_all_spec(old(self)@, msg_views(msgs@), 0) == Err::<
                    SimView,
                    ProtocolError,
                >(e),
            }),
    {
        let ghost s0 = self@;
        let ghost msgsv = msg_views(msgs@);
        let nm = msgs.len();
        let mut mi: usize = 0;
        while mi < nm
            invariant
                mi <= nm,
                nm == msgsv.len(),
                msgsv == msg_views(msgs@),
                s0 == old(self)@,
                sim_wf(self@),
                receive_all_spec(s0, msgsv, 0) == receive_all_spec(self@, msgsv, mi as int),
            decreases nm - mi,
        {
            proof {
                assert(msgsv[mi as int] == msgs@[mi as int]@);
            }
            let ghost sb = self@;
            match self.receive_message(&msgs[mi]) {
                Ok(_) => {
                    proof {
                        assert(receive_all_spec(sb, msgsv, mi as int) == receive_all_spec(
                            self@,
                            msgsv,
                            mi as int + 1,
                        ));
                    }
                },
                Err(e) => {
                    proof {
                        assert(receive_all_spec(sb, msgsv, mi as int) == Err::<
                            SimView,
                            ProtocolError,
                        >(e));
                    }
                    return Err(e);
                },
            }
            mi = mi + 1;
        }
        Ok(())
    }

    /// The resync boundary and, when the clock had run ahead, the
    /// rollback resimulation; see `resync_spec`.
    fn resync_and_rollback<G: GameLogic>(&mut self, game: &G)
        requires
            sim_wf(old(self)@),
            (old(self)@.synced_server_tick is Some),
        ensures
            sim_wf(final(self)@),
            final(self)@ == resync_spec(game, old(self)@),
    {
        let ghost s2 = self@;
        let st = match &self.synced_server_tick {
            Some(st) => NetworkTick(st.0),
            None => NetworkTick(0),
        };
        let current = self.tick;
        self.world.commit_staged();
        self.world.purge_replicate();
        self.tick = st;
        proof {
            assert(self@ =~= (SimView {
                world: crate::world::purge_replicate_spec(
                    crate::world::commit_staged_spec(s2.world),
                ),
                tick: st,
                ..s2
            }));
        }
        if current.0 > st.0 {
            self.resimulating = true;
            let ghost sr = self@;
            proof {
                assert(sr =~= (SimView {
                    resimulating: true,
                    ..(SimView {
                        world: crate::world::purge_replicate_spec(
                            crate::world::commit_staged_spec(s2.world),
                        ),
                        tick: st,
                        ..s2
                    })
                }));
            }
            while self.tick.0 < current.0
                invariant
                    sim_wf(self@),
                    self@.tick.0 <= current.0,
                    resim_spec(game, sr, current.0) == resim_spec(game, self@, current.0),
                decreases current.0 - self@.tick.0,
            {
                self.run_pass(game);
            }
            let ghost sloopend = self@;
            self.resimulating = false;
            proof {
                assert(sloopend.tick.0 >= current.0);
                assert(resim_spec(game, sloopend, current.0) == sloopend);
                assert(resim_spec(game, sr, current.0) == sloopend);
                assert(self@ =~= (SimView { resimulating: false, ..sloopend }));
                assert(self@ =~= resync_spec(game, s2));
            }
        } else {
            proof {
                assert(self@ =~= resync_spec(game, s2));
            }
        }
    }

    /// The catch-up loop: run the passes the budget allows; see
    /// `drive_spec`.
    fn drive<G: GameLogic>(&mut self, game: &G)
        requires
            sim_wf(old(self)@),
        ensures
            sim_wf(final(self)@),
            final(self)@ == drive_spec(game, old(self)@),
    {
        let ghost s4 = self@;
        while self.should_run_now()
            invariant
                sim_wf(self@),
                drive_spec(game, s4) == drive_spec(game, self@),
            decreases self@.fixed_time.accumulated_ns, (if self@.do_tick { 1int } else { 0int }),
        {
            let ghost sb = self@;
            match self.strategy {
                TickStrategy::Automatic => {
                    let _ = self.fixed_time.expend();
                },
                TickStrategy::Manual => {
                    self.do_tick = false;
                },
            }
            proof {
                assert(self@ =~= take_budget_spec(sb));
            }
            self.run_pass(game);
        }
    }

    /// One whole wall-clock update; see `update_spec`.
    #[verifier::rlimit(100)]
    pub fn update<G: GameLogic>(
        &mut self,
        game: &G,
        delta_ns: u64,
        rtt_ns: u64,
        msgs: &Vec<Vec<u8>>,
    ) -> (r: Result<Vec<Vec<u8>>, ProtocolError>)
        requires
            sim_wf(old(self)@),
        ensures
            sim_wf(final(self)@),
            (match r {
                Ok(out) => update_spec(game, old(self)@, delta_ns, rtt_ns, msg_views(msgs@))
                    == Ok::<(SimView, Seq<Seq<u8>>), ProtocolError>(
                    (final(self)@, msg_views(out@)),
                ),
                Err(e) => update_spec(game, old(self)@, delta_ns, rtt_ns, msg_views(msgs@))
                    == Err::<(SimView, Seq<Seq<u8>>), ProtocolError>(e),
            }),
    {
        let ghost s0 = self@;
        let ghost msgsv = msg_views(msgs@);

        // drain the transport
        match self.drain_incoming(msgs) {
            Ok(_) => {},
            Err(e) => {
                return Err(e);
            },
        }
        let ghost s1 = self@;

        // bank wall-clock time, with the client's synchronization bias
        let is_auto = match self.strategy {
            TickStrategy::Automatic => true,
            TickStrategy::Manual => false,
        };
        if is_auto {
            self.fixed_time.advance(delta_ns);
            let is_client = match self.role {
                Role::Server => false,
                Role::Client => true,
            };
            if is_client && self.new_snapshot {
                match &self.synced_server_tick {
                    Some(st) => {
                        let bias = crate::tick::sync_bias(
                            st.0,
                            self.tick.0,
                            self.fixed_time.period_ns,
                            rtt_ns,
                        );
                        self.fixed_time.advance(bias);
                    },
                    None => {},
                }
            }
            proof {
                assert(self@ =~= auto_advance_spec(s1, delta_ns, rtt_ns));
            }
        }
        let ghost s2 = if s1.strategy == TickStrategy::Automatic {
            auto_advance_spec(s1, delta_ns, rtt_ns)
        } else {
            s1
        };
        proof {
            assert(self@ == s2);
        }

        // resync and rollback on a newly arrived snapshot
        let is_client = self.is_client();
        if is_client && self.new_snapshot && self.is_desynced()
            && self.synced_server_tick.is_some() {
            self.resync_and_rollback(game);
        }
        let ghost s3 = if s2.role == Role::Client && s2.new_snapshot && s2.synced_server_tick
            is Some {
            resync_spec(game, s2)
        } else {
            s2
        };
        proof {
            assert(self@ == s3);
        }
        self.new_snapshot = false;
        let ghost s4 = SimView { new_snapshot: false, ..s3 };
        proof {
            assert(self@ =~= s4);
        }

        // the catch-up loop
        self.drive(game);
        let ghost s5pre = self@;

        // the server broadcasts its snapshot every update
        let is_server = match self.role {
            Role::Server => true,
            Role::Client => false,
        };
        if is_server {
            let tick_now = self.tick;
            let pk = crate::replication::emit_packet(&mut self.world, tick_now);
            let bytes = crate::codec::encode_replication_packet(&pk);
            let ghost before = self.outbox@.map_values(|m: Vec<u8>| m@);
            self.outbox.push(bytes);
            proof {
                assert(self.outbox@.map_values(|m: Vec<u8>| m@) =~= before.push(
                    crate::codec::enc_replication_packet(crate::replication::emit_spec(
                        s5pre.world,
                        s5pre.tick,
                    )),
                ));
            }
        }
        let ghost s5 = server_emit_spec(s5pre);
        proof {
            assert(self@ =~= s5);
        }

        // drain the outbox
        let mut out: Vec<Vec<u8>> = Vec::new();
        core::mem::swap(&mut out, &mut self.outbox);
        proof {
            assert(self@ =~= (SimView { outbox: Seq::empty(), ..s5 }));
            assert(self@.outbox =~= Seq::<Seq<u8>>::empty());
            assert(msg_views(out@) == s5.outbox);
        }
        Ok(out)
    }
}

// ---------------------------------------------------------------------------
// Proved properties of the scheduler
// ---------------------------------------------------------------------------

/// Resimulation runs the phase sequence up to exactly the present target.
pub proof fn lemma_resim_reaches_target<G: GameLogic>(g: &G, s: SimView, target: u64)
    requires
        s.tick.0 <= target,
    ensures
        resim_spec(g, s, target).tick.0 == target,
    decreases target - s.tick.0,
{
    if s.tick.0 < target {
        lemma_resim_reaches_target(g, pass_spec(g, s), target);
    }
}

/// After a snapshot with tick `st` triggers a resync, the clock never
/// reads below `st`: either it was reset exactly to `st`, or it rolled
/// back and resimulated to the strictly later present.
pub proof fn lemma_resync_tick_bound<G: GameLogic>(g: &G, s: SimView)
    requires
        s.synced_server_tick is Some,
    ensures
        resync_spec(g, s).tick.0 >= s.synced_server_tick->Some_0.0,
{
    let st = s.synced_server_tick->Some_0;
    if s.tick.0 > st.0 {
        let w1 = crate::world::purge_replicate_spec(crate::world::commit_staged_spec(s.world));
        let s1 = SimView { world: w1, tick: st, ..s };
        lemma_resim_reaches_target(g, SimView { resimulating: true, ..s1 }, s.tick.0);
    }
}

/// Manual tick pacing: one queued tick advances the clock by exactly one
/// and runs exactly one pass.
pub proof fn lemma_manual_single_step<G: GameLogic>(g: &G, s: SimView)
    requires
        s.strategy == TickStrategy::Manual,
        s.do_tick,
        s.tick.0 < u64::MAX,
        s.passes < u64::MAX,
    ensures
        drive_spec(g, s).tick.0 == s.tick.0 + 1,
        drive_spec(g, s).passes == s.passes + 1,
{
    let s1 = pass_spec(g, take_budget_spec(s));
    assert(should_run_spec(s));
    assert(drive_spec(g, s) == drive_spec(g, s1));
    assert(!should_run_spec(s1));
    assert(drive_spec(g, s1) == s1);
}

/// Without a queued tick the manual scheduler does nothing.
pub proof fn lemma_manual_idle<G: GameLogic>(g: &G, s: SimView)
    requires
        s.strategy == TickStrategy::Manual,
        !s.do_tick,
    ensures
        drive_spec(g, s) == s,
{
}

/// Determinism of resimulation: the phase sequence is a pure function of
/// the rewound state — the world at the synced server tick and the
/// recorded input histories inside it — so re-executing from equal
/// states, over the same game, yields equal states at the target tick.
pub proof fn lemma_resimulation_deterministic<G: GameLogic>(
    g: &G,
    s1: SimView,
    s2: SimView,
    target: u64,
)
    requires
        s1 == s2,
    ensures
        resim_spec(g, s1, target) == resim_spec(g, s2, target),
{
}

/// Strict monotonicity of applied snapshots: whenever a received snapshot
/// is applied (raising the new-snapshot flag), its tick strictly exceeds
/// the tick of every snapshot applied before it.
pub proof fn lemma_applied_ticks_strictly_increase(s: SimView, msg: Seq<u8>, s2: SimView)
    requires
        s.role == Role::Client,
        receive_spec(s, msg) == Ok::<SimView, ProtocolError>(s2),
        s2.synced_server_tick != s.synced_server_tick,
    ensures
        s2.synced_server_tick is Some,
        s.synced_server_tick is Some ==> s2.synced_server_tick->Some_0.0
            > s.synced_server_tick->Some_0.0,
{
}

} // verus!
