use netsim::codec::{encode_replication_packet, EntityUpdates, ReplicationPacket, UpdateComponent};
use netsim::entity_map::NetworkEntities;
use netsim::games::NullGame;
use netsim::history::{ActionHistory, ActionState, ButtonState};
use netsim::registry::Registry;
use netsim::sim::{Role, SimCore};
use netsim::tick::{sync_bias, FixedTimestep, NetworkTick, TickStrategy};
use netsim::ProtocolError;

#[test]
fn history_retained_range_is_total() {
    let mut h = ActionHistory::new();
    for t in 1..=5u64 {
        h.add_for_tick(NetworkTick(t), ActionState { buttons: vec![ButtonState::Released] });
    }
    // every tick in [head - (len-1), head] answers
    for t in 1..=5u64 {
        assert!(h.at_tick(NetworkTick(t)).is_some());
    }
    assert!(h.at_tick(NetworkTick(0)).is_none());
    assert!(h.at_tick(NetworkTick(6)).is_none());

    h.remove_old_history(NetworkTick(4));
    assert!(h.at_tick(NetworkTick(3)).is_none());
    assert!(h.at_tick(NetworkTick(4)).is_some());
    assert!(h.at_tick(NetworkTick(5)).is_some());
}

#[test]
fn edges_are_synthesized_against_previous_entry() {
    let prev = ActionState { buttons: vec![ButtonState::Released, ButtonState::Pressed] };
    let cur = ActionState { buttons: vec![ButtonState::Pressed, ButtonState::Released] };
    let edged = cur.with_edges_from(&prev);
    assert_eq!(edged.buttons, vec![ButtonState::JustPressed, ButtonState::JustReleased]);

    // a held button stays held: the edge is recorded exactly once
    let cur2 = ActionState { buttons: vec![ButtonState::Pressed, ButtonState::Released] };
    let edged2 = cur2.with_edges_from(&edged);
    assert_eq!(edged2.buttons, vec![ButtonState::Pressed, ButtonState::Released]);
    assert!(edged.just_pressed(0));
    assert!(!edged2.just_pressed(0));
}

#[test]
fn entity_map_is_a_partial_bijection() {
    let mut map = NetworkEntities::new();
    map.insert(10, 0);
    map.insert(11, 1);
    assert_eq!(map.get(10), Some(0));
    assert_eq!(map.get(11), Some(1));
    assert_eq!(map.get(12), None);
    assert_eq!(map.get_by_local(1), Some(11));
    assert_eq!(map.get_by_local(2), None);
    map.remove(10);
    assert_eq!(map.get(10), None);
    assert_eq!(map.get_by_local(0), None);
    assert_eq!(map.get(11), Some(1));
}

#[test]
fn registry_compatibility_check() {
    let mut a = Registry::new();
    a.register(1);
    a.register(2);
    let mut b = Registry::new();
    b.register(1);
    b.register(2);
    assert!(a.compatible(&b));
    b.register(3);
    assert!(!a.compatible(&b));
    let mut c = Registry::new();
    c.register(2);
    c.register(1);
    assert!(!a.compatible(&c));
}

#[test]
fn fixed_timestep_budget() {
    let mut ft = FixedTimestep::new(10);
    ft.advance(25);
    assert!(ft.expend());
    assert!(ft.expend());
    assert!(!ft.expend());
    assert_eq!(ft.accumulated_ns, 5);
}

#[test]
fn sync_bias_values() {
    // ahead of the server by a lot: no speed-up
    assert_eq!(sync_bias(5, 10, 1000, 100), 0);
    // behind the server: clamped to two periods per update
    assert_eq!(sync_bias(10, 5, 1000, 0), 2000);
    // one tick behind with some round-trip lead, below the clamp
    assert_eq!(sync_bias(6, 5, 1000, 100), 1400);
}

#[test]
fn unregistered_replication_id_is_fatal() {
    let mut reg = Registry::new();
    reg.register(0);
    let mut client = SimCore::new(Role::Client, TickStrategy::Manual, 10_000_000, reg);
    client.connected = true;
    let pk = ReplicationPacket {
        tick: NetworkTick(1),
        updates: vec![EntityUpdates {
            entity: 1,
            updates: vec![UpdateComponent { replication_id: 5, data: vec![] }],
            removals: vec![],
        }],
        despawns: vec![],
    };
    let bytes = encode_replication_packet(&pk);
    assert_eq!(client.receive_message(&bytes), Err(ProtocolError::ReplicationIdOutOfRange));
}

#[test]
fn unknown_net_id_despawn_is_ignored() {
    let mut reg = Registry::new();
    reg.register(0);
    let mut client = SimCore::new(Role::Client, TickStrategy::Manual, 10_000_000, reg);
    client.connected = true;
    let pk = ReplicationPacket { tick: NetworkTick(1), updates: vec![], despawns: vec![77] };
    let bytes = encode_replication_packet(&pk);
    assert_eq!(client.receive_message(&bytes), Ok(()));
    assert_eq!(client.world.entities.len(), 0);
}

#[test]
fn stale_snapshot_is_dropped() {
    let mut reg = Registry::new();
    reg.register(0);
    let mut client = SimCore::new(Role::Client, TickStrategy::Manual, 10_000_000, reg);
    client.connected = true;

    let mk = |tick: u64, data: u8| ReplicationPacket {
        tick: NetworkTick(tick),
        updates: vec![EntityUpdates {
            entity: 1,
            updates: vec![UpdateComponent { replication_id: 0, data: vec![data] }],
            removals: vec![],
        }],
        despawns: vec![],
    };

    assert_eq!(client.receive_message(&encode_replication_packet(&mk(5, 1))), Ok(()));
    assert_eq!(client.synced_server_tick, Some(NetworkTick(5)));

    // a duplicate or reordered snapshot with an older tick is dropped
    assert_eq!(client.receive_message(&encode_replication_packet(&mk(5, 2))), Ok(()));
    assert_eq!(client.receive_message(&encode_replication_packet(&mk(4, 3))), Ok(()));
    assert_eq!(client.synced_server_tick, Some(NetworkTick(5)));

    // a strictly newer one is applied: the applied ticks increase strictly
    assert_eq!(client.receive_message(&encode_replication_packet(&mk(6, 4))), Ok(()));
    assert_eq!(client.synced_server_tick, Some(NetworkTick(6)));

    // run the resync so the staged value becomes live
    let none: Vec<Vec<u8>> = vec![];
    client.update(&NullGame, 0, 0, &none).unwrap();
    let ids = client.world.ids_with_component(0);
    assert_eq!(ids.len(), 1);
    assert_eq!(client.world.component_bytes(ids[0], 0), Some(&vec![4u8]));
}
