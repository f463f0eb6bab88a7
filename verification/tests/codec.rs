use netsim::codec::{decode_input_packet, decode_replication_packet, encode_input_packet,
    encode_replication_packet, EntityUpdates, InputPacket, ReplicationPacket, UpdateComponent};
use netsim::history::{ActionHistory, ActionState, ButtonState};
use netsim::tick::NetworkTick;
use std::collections::VecDeque;

fn sample_packet() -> ReplicationPacket {
    ReplicationPacket {
        tick: NetworkTick(42),
        updates: vec![
            EntityUpdates {
                entity: 7,
                updates: vec![
                    UpdateComponent { replication_id: 0, data: vec![1, 2, 3] },
                    UpdateComponent { replication_id: 2, data: vec![] },
                ],
                removals: vec![1],
            },
            EntityUpdates { entity: 9, updates: vec![], removals: vec![] },
        ],
        despawns: vec![3, 4],
    }
}

#[test]
fn replication_packet_roundtrip() {
    let pk = sample_packet();
    let bytes = encode_replication_packet(&pk);
    let back = decode_replication_packet(&bytes).unwrap();
    assert_eq!(back, pk);
}

#[test]
fn replication_packet_exact_bytes() {
    // an empty snapshot at tick 7: the tick, a zero entity count, and a
    // zero despawn count, all little-endian
    let pk = ReplicationPacket { tick: NetworkTick(7), updates: vec![], despawns: vec![] };
    let bytes = encode_replication_packet(&pk);
    assert_eq!(bytes, vec![7, 0, 0, 0, 0, 0, 0, 0, 0, 0, 0, 0, 0, 0, 0, 0]);
}

#[test]
fn input_packet_roundtrip() {
    let mut history = ActionHistory::new();
    history.add_for_tick(
        NetworkTick(5),
        ActionState { buttons: vec![ButtonState::JustPressed, ButtonState::Released] },
    );
    history.add_for_tick(
        NetworkTick(6),
        ActionState { buttons: vec![ButtonState::Pressed, ButtonState::Released] },
    );
    let pk = InputPacket { entity: 11, tick: NetworkTick(6), history };
    let bytes = encode_input_packet(&pk);
    let back = decode_input_packet(&bytes).unwrap();
    assert_eq!(back, pk);
}

#[test]
fn truncated_packet_is_decode_error() {
    let pk = sample_packet();
    let mut bytes = encode_replication_packet(&pk);
    bytes.pop();
    assert!(decode_replication_packet(&bytes).is_err());
    let empty: Vec<u8> = vec![];
    assert!(decode_replication_packet(&empty).is_err());
    assert!(decode_input_packet(&vec![1, 2, 3]).is_err());
}

#[test]
fn garbage_button_state_is_decode_error() {
    // an input packet whose action-state byte is not a known button state
    let mut history = ActionHistory::new();
    history.add_for_tick(NetworkTick(1), ActionState { buttons: vec![ButtonState::Pressed] });
    let pk = InputPacket { entity: 1, tick: NetworkTick(1), history };
    let mut bytes = encode_input_packet(&pk);
    let last = bytes.len() - 1;
    bytes[last] = 99;
    assert!(decode_input_packet(&bytes).is_err());
    let _ = VecDeque::<ActionState>::new();
}
