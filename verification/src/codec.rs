//! The snapshot and input-packet wire format: a deterministic,
//! self-delimiting binary encoding, little-endian and length-prefixed
//! field by field, with a proved round trip.

use vstd::prelude::*;
use std::collections::VecDeque;
use vstd::bytes::{spec_u32_to_le_bytes, spec_u32_from_le_bytes, spec_u64_to_le_bytes,
    spec_u64_from_le_bytes, lemma_auto_spec_u32_to_from_le_bytes,
    lemma_auto_spec_u64_to_from_le_bytes, u32_to_le_bytes, u64_to_le_bytes, u32_from_le_bytes,
    u64_from_le_bytes};

use crate::history::{ActionHistory, ActionState, ButtonState, HistoryView};
use crate::tick::NetworkTick;

verus! {

// ---------------------------------------------------------------------------
// Packet data model
// ---------------------------------------------------------------------------

/// One replicated component value for one entity: the registry index of
/// the component and its serialized payload.
#[derive(Debug, PartialEq, Eq)]
pub struct UpdateComponent {
    pub replication_id: u32,
    pub data: Vec<u8>,
}

#[verifier::ext_equal]
pub struct UpdateComponentView {
    pub replication_id: u32,
    pub data: Seq<u8>,
}

impl View for UpdateComponent {
    type V = UpdateComponentView;

    open spec fn view(&self) -> UpdateComponentView {
        UpdateComponentView { replication_id: self.replication_id, data: self.data@ }
    }
}

/// Everything the snapshot says about one replicated entity: fresh
/// component values and components removed since the previous emit.
#[derive(Debug, PartialEq, Eq)]
pub struct EntityUpdates {
    pub entity: u64,
    pub updates: Vec<UpdateComponent>,
    pub removals: Vec<u32>,
}

#[verifier::ext_equal]
pub struct EntityUpdatesView {
    pub entity: u64,
    pub updates: Seq<UpdateComponentView>,
    pub removals: Seq<u32>,
}

impl View for EntityUpdates {
    type V = EntityUpdatesView;

    open spec fn view(&self) -> EntityUpdatesView {
        EntityUpdatesView {
            entity: self.entity,
            updates: self.updates@.map_values(|u: UpdateComponent| u@),
            removals: self.removals@,
        }
    }
}

/// The server's whole-world authoritative state message for one tick.
#[derive(Debug, PartialEq, Eq)]
pub struct ReplicationPacket {
    pub tick: NetworkTick,
    pub updates: Vec<EntityUpdates>,
    pub despawns: Vec<u64>,
}

#[verifier::ext_equal]
pub struct ReplicationPacketView {
    pub tick: NetworkTick,
    pub updates: Seq<EntityUpdatesView>,
    pub despawns: Seq<u64>,
}

impl View for ReplicationPacket {
    type V = ReplicationPacketView;

    open spec fn view(&self) -> ReplicationPacketView {
        ReplicationPacketView {
            tick: self.tick,
            updates: self.updates@.map_values(|e: EntityUpdates| e@),
            despawns: self.despawns@,
        }
    }
}

/// A client's input message: the server-side identity of the controlled
/// entity, the client's current tick, and the retained input history.
#[derive(Debug, PartialEq, Eq)]
pub struct InputPacket {
    pub entity: u64,
    pub tick: NetworkTick,
    pub history: ActionHistory,
}

#[verifier::ext_equal]
pub struct InputPacketView {
    pub entity: u64,
    pub tick: NetworkTick,
    pub history: HistoryView,
}

impl View for InputPacket {
    type V = InputPacketView;

    open spec fn view(&self) -> InputPacketView {
        InputPacketView { entity: self.entity, tick: self.tick, history: self.history@ }
    }
}

// ---------------------------------------------------------------------------
// Well-formedness: every count fits the u32 length prefix of the wire
// ---------------------------------------------------------------------------

impl UpdateComponentView {
    pub open spec fn wf(self) -> bool {
        self.data.len() <= u32::MAX
    }
}

impl EntityUpdatesView {
    pub open spec fn wf(self) -> bool {
        &&& self.updates.len() <= u32::MAX
        &&& self.removals.len() <= u32::MAX
        &&& forall|i: int| 0 <= i < self.updates.len() ==> (#[trigger] self.updates[i]).wf()
    }
}

impl ReplicationPacketView {
    pub open spec fn wf(self) -> bool {
        &&& self.updates.len() <= u32::MAX
        &&& self.despawns.len() <= u32::MAX
        &&& forall|i: int| 0 <= i < self.updates.len() ==> (#[trigger] self.updates[i]).wf()
    }
}

pub open spec fn state_wf(s: Seq<ButtonState>) -> bool {
    s.len() <= u32::MAX
}

impl HistoryView {
    pub open spec fn wf(self) -> bool {
        &&& self.entries.len() <= u32::MAX
        &&& forall|i: int| 0 <= i < self.entries.len() ==> state_wf(#[trigger] self.entries[i])
    }
}

impl InputPacketView {
    pub open spec fn wf(self) -> bool {
        self.history.wf()
    }
}

// ---------------------------------------------------------------------------
// Specification encoders
// ---------------------------------------------------------------------------

pub open spec fn enc_u32(v: u32) -> Seq<u8> {
    spec_u32_to_le_bytes(v)
}

pub open spec fn enc_u64(v: u64) -> Seq<u8> {
    spec_u64_to_le_bytes(v)
}

pub open spec fn enc_bytes(d: Seq<u8>) -> Seq<u8> {
    enc_u32(d.len() as u32) + d
}

pub open spec fn button_code(b: ButtonState) -> u8 {
    match b {
        ButtonState::JustPressed => 0,
        ButtonState::Pressed => 1,
        ButtonState::JustReleased => 2,
        ButtonState::Released => 3,
    }
}

pub open spec fn button_of_code(c: u8) -> Option<ButtonState> {
    if c == 0 {
        Some(ButtonState::JustPressed)
    } else if c == 1 {
        Some(ButtonState::Pressed)
    } else if c == 2 {
        Some(ButtonState::JustReleased)
    } else if c == 3 {
        Some(ButtonState::Released)
    } else {
        None
    }
}

pub open spec fn enc_button_list(s: Seq<ButtonState>) -> Seq<u8>
    decreases s.len(),
{
    if s.len() == 0 {
        Seq::empty()
    } else {
        seq![button_code(s[0])] + enc_button_list(s.drop_first())
    }
}

/// One input state: a count of actions, then one byte per action.
pub open spec fn enc_state(s: Seq<ButtonState>) -> Seq<u8> {
    enc_u32(s.len() as u32) + enc_button_list(s)
}

pub open spec fn enc_state_list(s: Seq<Seq<ButtonState>>) -> Seq<u8>
    decreases s.len(),
{
    if s.len() == 0 {
        Seq::empty()
    } else {
        enc_state(s[0]) + enc_state_list(s.drop_first())
    }
}

/// An input history: the head tick, a count of entries, then the entries
/// from newest to oldest.
pub open spec fn enc_history(h: HistoryView) -> Seq<u8> {
    enc_u64(h.tick.0) + enc_u32(h.entries.len() as u32) + enc_state_list(h.entries)
}

pub open spec fn enc_input_packet(p: InputPacketView) -> Seq<u8> {
    enc_u64(p.entity) + enc_u64(p.tick.0) + enc_history(p.history)
}

/// One component update: the replication id, then the length-prefixed
/// payload.
pub open spec fn enc_update(u: UpdateComponentView) -> Seq<u8> {
    enc_u32(u.replication_id) + enc_bytes(u.data)
}

pub open spec fn enc_update_list(s: Seq<UpdateComponentView>) -> Seq<u8>
    decreases s.len(),
{
    if s.len() == 0 {
        Seq::empty()
    } else {
        enc_update(s[0]) + enc_update_list(s.drop_first())
    }
}

pub open spec fn enc_u32_list(s: Seq<u32>) -> Seq<u8>
    decreases s.len(),
{
    if s.len() == 0 {
        Seq::empty()
    } else {
        enc_u32(s[0]) + enc_u32_list(s.drop_first())
    }
}

pub open spec fn enc_u64_list(s: Seq<u64>) -> Seq<u8>
    decreases s.len(),
{
    if s.len() == 0 {
        Seq::empty()
    } else {
        enc_u64(s[0]) + enc_u64_list(s.drop_first())
    }
}

/// One entity's part of a snapshot: its net id, the counted list of
/// component updates, then the counted list of removals.
pub open spec fn enc_entity(e: EntityUpdatesView) -> Seq<u8> {
    enc_u64(e.entity) + enc_u32(e.updates.len() as u32) + enc_update_list(e.updates) + enc_u32(
        e.removals.len() as u32,
    ) + enc_u32_list(e.removals)
}

pub open spec fn enc_entity_list(s: Seq<EntityUpdatesView>) -> Seq<u8>
    decreases s.len(),
{
    if s.len() == 0 {
        Seq::empty()
    } else {
        enc_entity(s[0]) + enc_entity_list(s.drop_first())
    }
}

/// A whole snapshot: the tick, the counted entity list, then the counted
/// despawn list.
pub open spec fn enc_replication_packet(p: ReplicationPacketView) -> Seq<u8> {
    enc_u64(p.tick.0) + enc_u32(p.updates.len() as u32) + enc_entity_list(p.updates) + enc_u32(
        p.despawns.len() as u32,
    ) + enc_u64_list(p.despawns)
}

// ---------------------------------------------------------------------------
// Specification decoders (position-based, on the whole byte sequence)
// ---------------------------------------------------------------------------

pub open spec fn dec_u32(s: Seq<u8>, pos: int) -> Option<(u32, int)> {
    if 0 <= pos && pos + 4 <= s.len() {
        Some((spec_u32_from_le_bytes(s.subrange(pos, pos + 4)), pos + 4))
    } else {
        None
    }
}

pub open spec fn dec_u64(s: Seq<u8>, pos: int) -> Option<(u64, int)> {
    if 0 <= pos && pos + 8 <= s.len() {
        Some((spec_u64_from_le_bytes(s.subrange(pos, pos + 8)), pos + 8))
    } else {
        None
    }
}

pub open spec fn dec_bytes(s: Seq<u8>, pos: int) -> Option<(Seq<u8>, int)> {
    match dec_u32(s, pos) {
        Some((n, p1)) => if p1 + n <= s.len() {
            Some((s.subrange(p1, p1 + n), p1 + n))
        } else {
            None
        },
        None => None,
    }
}

pub open spec fn dec_button(s: Seq<u8>, pos: int) -> Option<(ButtonState, int)> {
    if 0 <= pos < s.len() {
        match button_of_code(s[pos]) {
            Some(b) => Some((b, pos + 1)),
            None => None,
        }
    } else {
        None
    }
}

pub open spec fn dec_button_list(s: Seq<u8>, pos: int, count: nat) -> Option<(Seq<ButtonState>, int)>
    decreases count,
{
    if count == 0 {
        Some((Seq::empty(), pos))
    } else {
        match dec_button(s, pos) {
            Some((b, p1)) => match dec_button_list(s, p1, (count - 1) as nat) {
                Some((bs, p2)) => Some((seq![b] + bs, p2)),
                None => None,
            },
            None => None,
        }
    }
}

pub open spec fn dec_state(s: Seq<u8>, pos: int) -> Option<(Seq<ButtonState>, int)> {
    match dec_u32(s, pos) {
        Some((n, p1)) => dec_button_list(s, p1, n as nat),
        None => None,
    }
}

pub open spec fn dec_state_list(s: Seq<u8>, pos: int, count: nat) -> Option<(Seq<Seq<ButtonState>>, int)>
    decreases count,
{
    if count == 0 {
        Some((Seq::empty(), pos))
    } else {
        match dec_state(s, pos) {
            Some((st, p1)) => match dec_state_list(s, p1, (count - 1) as nat) {
                Some((sts, p2)) => Some((seq![st] + sts, p2)),
                None => None,
            },
            None => None,
        }
    }
}

pub open spec fn dec_history(s: Seq<u8>, pos: int) -> Option<(HistoryView, int)> {
    match dec_u64(s, pos) {
        Some((tick, p1)) => match dec_u32(s, p1) {
            Some((n, p2)) => match dec_state_list(s, p2, n as nat) {
                Some((entries, p3)) => Some(
                    (HistoryView { tick: NetworkTick(tick), entries }, p3),
                ),
                None => None,
            },
            None => None,
        },
        None => None,
    }
}

pub open spec fn dec_input_packet(s: Seq<u8>, pos: int) -> Option<(InputPacketView, int)> {
    match dec_u64(s, pos) {
        Some((entity, p1)) => match dec_u64(s, p1) {
            Some((tick, p2)) => match dec_history(s, p2) {
                Some((history, p3)) => Some(
                    (InputPacketView { entity, tick: NetworkTick(tick), history }, p3),
                ),
                None => None,
            },
            None => None,
        },
        None => None,
    }
}

pub open spec fn dec_update(s: Seq<u8>, pos: int) -> Option<(UpdateComponentView, int)> {
    match dec_u32(s, pos) {
        Some((replication_id, p1)) => match dec_bytes(s, p1) {
            Some((data, p2)) => Some((UpdateComponentView { replication_id, data }, p2)),
            None => None,
        },
        None => None,
    }
}

pub open spec fn dec_update_list(s: Seq<u8>, pos: int, count: nat) -> Option<(Seq<UpdateComponentView>, int)>
    decreases count,
{
    if count == 0 {
        Some((Seq::empty(), pos))
    } else {
        match dec_update(s, pos) {
            Some((u, p1)) => match dec_update_list(s, p1, (count - 1) as nat) {
                Some((us, p2)) => Some((seq![u] + us, p2)),
                None => None,
            },
            None => None,
        }
    }
}

pub open spec fn dec_u32_list(s: Seq<u8>, pos: int, count: nat) -> Option<(Seq<u32>, int)>
    decreases count,
{
    if count == 0 {
        Some((Seq::empty(), pos))
    } else {
        match dec_u32(s, pos) {
            Some((v, p1)) => match dec_u32_list(s, p1, (count - 1) as nat) {
                Some((vs, p2)) => Some((seq![v] + vs, p2)),
                None => None,
            },
            None => None,
        }
    }
}

pub open spec fn dec_u64_list(s: Seq<u8>, pos: int, count: nat) -> Option<(Seq<u64>, int)>
    decreases count,
{
    if count == 0 {
        Some((Seq::empty(), pos))
    } else {
        match dec_u64(s, pos) {
            Some((v, p1)) => match dec_u64_list(s, p1, (count - 1) as nat) {
                Some((vs, p2)) => Some((seq![v] + vs, p2)),
                None => None,
            },
            None => None,
        }
    }
}

pub open spec fn dec_entity(s: Seq<u8>, pos: int) -> Option<(EntityUpdatesView, int)> {
    match dec_u64(s, pos) {
        Some((entity, p1)) => match dec_u32(s, p1) {
            Some((nu, p2)) => match dec_update_list(s, p2, nu as nat) {
                Some((updates, p3)) => match dec_u32(s, p3) {
                    Some((nr, p4)) => match dec_u32_list(s, p4, nr as nat) {
                        Some((removals, p5)) => Some(
                            (EntityUpdatesView { entity, updates, removals }, p5),
                        ),
                        None => None,
                    },
                    None => None,
                },
                None => None,
            },
            None => None,
        },
        None => None,
    }
}

pub open spec fn dec_entity_list(s: Seq<u8>, pos: int, count: nat) -> Option<(Seq<EntityUpdatesView>, int)>
    decreases count,
{
    if count == 0 {
        Some((Seq::empty(), pos))
    } else {
        match dec_entity(s, pos) {
            Some((e, p1)) => match dec_entity_list(s, p1, (count - 1) as nat) {
                Some((es, p2)) => Some((seq![e] + es, p2)),
                None => None,
            },
            None => None,
        }
    }
}

pub open spec fn dec_replication_packet(s: Seq<u8>, pos: int) -> Option<(ReplicationPacketView, int)> {
    match dec_u64(s, pos) {
        Some((tick, p1)) => match dec_u32(s, p1) {
            Some((ne, p2)) => match dec_entity_list(s, p2, ne as nat) {
                Some((updates, p3)) => match dec_u32(s, p3) {
                    Some((nd, p4)) => match dec_u64_list(s, p4, nd as nat) {
                        Some((despawns, p5)) => Some(
                            (ReplicationPacketView { tick: NetworkTick(tick), updates, despawns }, p5),
                        ),
                        None => None,
                    },
                    None => None,
                },
                None => None,
            },
            None => None,
        },
        None => None,
    }
}

// ---------------------------------------------------------------------------
// Round trip: a decoder finds exactly what the encoder wrote, wherever
// the encoding stands inside a larger message
// ---------------------------------------------------------------------------

pub proof fn lemma_dec_u32(p: Seq<u8>, v: u32, q: Seq<u8>)
    ensures
        enc_u32(v).len() == 4,
        dec_u32(p + enc_u32(v) + q, p.len() as int) == Some((v, p.len() as int + 4)),
{
    lemma_auto_spec_u32_to_from_le_bytes();
    assert((p + enc_u32(v) + q).subrange(p.len() as int, p.len() as int + 4) =~= enc_u32(v));
}

pub proof fn lemma_dec_u64(p: Seq<u8>, v: u64, q: Seq<u8>)
    ensures
        enc_u64(v).len() == 8,
        dec_u64(p + enc_u64(v) + q, p.len() as int) == Some((v, p.len() as int + 8)),
{
    lemma_auto_spec_u64_to_from_le_bytes();
    assert((p + enc_u64(v) + q).subrange(p.len() as int, p.len() as int + 8) =~= enc_u64(v));
}

pub proof fn lemma_dec_bytes(p: Seq<u8>, d: Seq<u8>, q: Seq<u8>)
    requires
        d.len() <= u32::MAX,
    ensures
        enc_bytes(d).len() == 4 + d.len(),
        dec_bytes(p + enc_bytes(d) + q, p.len() as int) == Some((d, p.len() as int + 4 + d.len())),
{
    let buf = p + enc_bytes(d) + q;
    assert(buf =~= p + enc_u32(d.len() as u32) + (d + q));
    lemma_dec_u32(p, d.len() as u32, d + q);
    assert(buf.subrange(p.len() as int + 4, p.len() as int + 4 + d.len() as int) =~= d);
}

pub proof fn lemma_dec_button(p: Seq<u8>, b: ButtonState, q: Seq<u8>)
    ensures
        dec_button(p + seq![button_code(b)] + q, p.len() as int) == Some((b, p.len() as int + 1)),
{
    let buf = p + seq![button_code(b)] + q;
    assert(buf[p.len() as int] == button_code(b));
}

pub proof fn lemma_dec_button_list(p: Seq<u8>, s: Seq<ButtonState>, q: Seq<u8>)
    ensures
        enc_button_list(s).len() == s.len(),
        dec_button_list(p + enc_button_list(s) + q, p.len() as int, s.len()) == Some(
            (s, p.len() as int + s.len()),
        ),
    decreases s.len(),
{
    let buf = p + enc_button_list(s) + q;
    if s.len() == 0 {
        assert(s =~= Seq::<ButtonState>::empty());
    } else {
        let x = s[0];
        let rest = s.drop_first();
        lemma_dec_button(p, x, enc_button_list(rest) + q);
        assert(p + seq![button_code(x)] + (enc_button_list(rest) + q) =~= buf);
        lemma_dec_button_list(p + seq![button_code(x)], rest, q);
        assert((p + seq![button_code(x)]) + enc_button_list(rest) + q =~= buf);
        assert(seq![x] + rest =~= s);
    }
}

pub proof fn lemma_dec_state(p: Seq<u8>, s: Seq<ButtonState>, q: Seq<u8>)
    requires
        state_wf(s),
    ensures
        enc_state(s).len() == 4 + s.len(),
        dec_state(p + enc_state(s) + q, p.len() as int) == Some((s, p.len() as int + 4 + s.len())),
{
    let buf = p + enc_state(s) + q;
    assert(buf =~= p + enc_u32(s.len() as u32) + (enc_button_list(s) + q));
    lemma_dec_u32(p, s.len() as u32, enc_button_list(s) + q);
    lemma_dec_button_list(p + enc_u32(s.len() as u32), s, q);
    assert((p + enc_u32(s.len() as u32)) + enc_button_list(s) + q =~= buf);
}

pub proof fn lemma_dec_state_list(p: Seq<u8>, s: Seq<Seq<ButtonState>>, q: Seq<u8>)
    requires
        forall|i: int| 0 <= i < s.len() ==> state_wf(#[trigger] s[i]),
    ensures
        dec_state_list(p + enc_state_list(s) + q, p.len() as int, s.len()) == Some(
            (s, p.len() as int + enc_state_list(s).len()),
        ),
    decreases s.len(),
{
    let buf = p + enc_state_list(s) + q;
    if s.len() == 0 {
        assert(s =~= Seq::<Seq<ButtonState>>::empty());
    } else {
        let x = s[0];
        let rest = s.drop_first();
        lemma_dec_state(p, x, enc_state_list(rest) + q);
        assert(p + enc_state(x) + (enc_state_list(rest) + q) =~= buf);
        lemma_dec_state_list(p + enc_state(x), rest, q);
        assert((p + enc_state(x)) + enc_state_list(rest) + q =~= buf);
        assert(seq![x] + rest =~= s);
    }
}

pub proof fn lemma_dec_history(p: Seq<u8>, h: HistoryView, q: Seq<u8>)
    requires
        h.wf(),
    ensures
        dec_history(p + enc_history(h) + q, p.len() as int) == Some(
            (h, p.len() as int + enc_history(h).len()),
        ),
{
    let buf = p + enc_history(h) + q;
    assert(buf =~= p + enc_u64(h.tick.0) + (enc_u32(h.entries.len() as u32) + enc_state_list(
        h.entries,
    ) + q));
    lemma_dec_u64(p, h.tick.0, enc_u32(h.entries.len() as u32) + enc_state_list(h.entries) + q);
    let p1 = p + enc_u64(h.tick.0);
    assert(buf =~= p1 + enc_u32(h.entries.len() as u32) + (enc_state_list(h.entries) + q));
    lemma_dec_u32(p1, h.entries.len() as u32, enc_state_list(h.entries) + q);
    let p2 = p1 + enc_u32(h.entries.len() as u32);
    assert(buf =~= p2 + enc_state_list(h.entries) + q);
    lemma_dec_state_list(p2, h.entries, q);
    assert(HistoryView { tick: NetworkTick(h.tick.0), entries: h.entries } =~= h);
}

pub proof fn lemma_dec_input_packet(p: Seq<u8>, ip: InputPacketView, q: Seq<u8>)
    requires
        ip.wf(),
    ensures
        dec_input_packet(p + enc_input_packet(ip) + q, p.len() as int) == Some(
            (ip, p.len() as int + enc_input_packet(ip).len()),
        ),
{
    let buf = p + enc_input_packet(ip) + q;
    assert(buf =~= p + enc_u64(ip.entity) + (enc_u64(ip.tick.0) + enc_history(ip.history) + q));
    lemma_dec_u64(p, ip.entity, enc_u64(ip.tick.0) + enc_history(ip.history) + q);
    let p1 = p + enc_u64(ip.entity);
    assert(buf =~= p1 + enc_u64(ip.tick.0) + (enc_history(ip.history) + q));
    lemma_dec_u64(p1, ip.tick.0, enc_history(ip.history) + q);
    let p2 = p1 + enc_u64(ip.tick.0);
    assert(buf =~= p2 + enc_history(ip.history) + q);
    lemma_dec_history(p2, ip.history, q);
    assert(InputPacketView { entity: ip.entity, tick: NetworkTick(ip.tick.0), history: ip.history }
        =~= ip);
}

pub proof fn lemma_dec_update(p: Seq<u8>, u: UpdateComponentView, q: Seq<u8>)
    requires
        u.wf(),
    ensures
        enc_update(u).len() == 8 + u.data.len(),
        dec_update(p + enc_update(u) + q, p.len() as int) == Some(
            (u, p.len() as int + enc_update(u).len()),
        ),
{
    let buf = p + enc_update(u) + q;
    assert(buf =~= p + enc_u32(u.replication_id) + (enc_bytes(u.data) + q));
    lemma_dec_u32(p, u.replication_id, enc_bytes(u.data) + q);
    let p1 = p + enc_u32(u.replication_id);
    assert(buf =~= p1 + enc_bytes(u.data) + q);
    lemma_dec_bytes(p1, u.data, q);
    assert(UpdateComponentView { replication_id: u.replication_id, data: u.data } =~= u);
}

pub proof fn lemma_dec_update_list(p: Seq<u8>, s: Seq<UpdateComponentView>, q: Seq<u8>)
    requires
        forall|i: int| 0 <= i < s.len() ==> (#[trigger] s[i]).wf(),
    ensures
        dec_update_list(p + enc_update_list(s) + q, p.len() as int, s.len()) == Some(
            (s, p.len() as int + enc_update_list(s).len()),
        ),
    decreases s.len(),
{
    let buf = p + enc_update_list(s) + q;
    if s.len() == 0 {
        assert(s =~= Seq::<UpdateComponentView>::empty());
    } else {
        let x = s[0];
        let rest = s.drop_first();
        lemma_dec_update(p, x, enc_update_list(rest) + q);
        assert(p + enc_update(x) + (enc_update_list(rest) + q) =~= buf);
        lemma_dec_update_list(p + enc_update(x), rest, q);
        assert((p + enc_update(x)) + enc_update_list(rest) + q =~= buf);
        assert(seq![x] + rest =~= s);
    }
}

pub proof fn lemma_dec_u32_list(p: Seq<u8>, s: Seq<u32>, q: Seq<u8>)
    ensures
        enc_u32_list(s).len() == 4 * s.len(),
        dec_u32_list(p + enc_u32_list(s) + q, p.len() as int, s.len()) == Some(
            (s, p.len() as int + 4 * s.len()),
        ),
    decreases s.len(),
{
    let buf = p + enc_u32_list(s) + q;
    if s.len() == 0 {
        assert(s =~= Seq::<u32>::empty());
    } else {
        let x = s[0];
        let rest = s.drop_first();
        lemma_dec_u32(p, x, enc_u32_list(rest) + q);
        assert(p + enc_u32(x) + (enc_u32_list(rest) + q) =~= buf);
        lemma_dec_u32_list(p + enc_u32(x), rest, q);
        assert((p + enc_u32(x)) + enc_u32_list(rest) + q =~= buf);
        assert(seq![x] + rest =~= s);
    }
}

pub proof fn lemma_dec_u64_list(p: Seq<u8>, s: Seq<u64>, q: Seq<u8>)
    ensures
        enc_u64_list(s).len() == 8 * s.len(),
        dec_u64_list(p + enc_u64_list(s) + q, p.len() as int, s.len()) == Some(
            (s, p.len() as int + 8 * s.len()),
        ),
    decreases s.len(),
{
    let buf = p + enc_u64_list(s) + q;
    if s.len() == 0 {
        assert(s =~= Seq::<u64>::empty());
    } else {
        let x = s[0];
        let rest = s.drop_first();
        lemma_dec_u64(p, x, enc_u64_list(rest) + q);
        assert(p + enc_u64(x) + (enc_u64_list(rest) + q) =~= buf);
        lemma_dec_u64_list(p + enc_u64(x), rest, q);
        assert((p + enc_u64(x)) + enc_u64_list(rest) + q =~= buf);
        assert(seq![x] + rest =~= s);
    }
}

pub proof fn lemma_dec_entity(p: Seq<u8>, e: EntityUpdatesView, q: Seq<u8>)
    requires
        e.wf(),
    ensures
        dec_entity(p + enc_entity(e) + q, p.len() as int) == Some(
            (e, p.len() as int + enc_entity(e).len()),
        ),
{
    let buf = p + enc_entity(e) + q;
    let a = enc_u64(e.entity);
    let b = enc_u32(e.updates.len() as u32);
    let c = enc_update_list(e.updates);
    let d = enc_u32(e.removals.len() as u32);
    let f = enc_u32_list(e.removals);
    assert(buf =~= p + a + (b + c + d + f + q));
    lemma_dec_u64(p, e.entity, b + c + d + f + q);
    let p1 = p + a;
    assert(buf =~= p1 + b + (c + d + f + q));
    lemma_dec_u32(p1, e.updates.len() as u32, c + d + f + q);
    let p2 = p1 + b;
    assert(buf =~= p2 + c + (d + f + q));
    lemma_dec_update_list(p2, e.updates, d + f + q);
    let p3 = p2 + c;
    assert(buf =~= p3 + d + (f + q));
    lemma_dec_u32(p3, e.removals.len() as u32, f + q);
    let p4 = p3 + d;
    assert(buf =~= p4 + f + q);
    lemma_dec_u32_list(p4, e.removals, q);
    assert(EntityUpdatesView { entity: e.entity, updates: e.updates, removals: e.removals } =~= e);
}

pub proof fn lemma_dec_entity_list(p: Seq<u8>, s: Seq<EntityUpdatesView>, q: Seq<u8>)
    requires
        forall|i: int| 0 <= i < s.len() ==> (#[trigger] s[i]).wf(),
    ensures
        dec_entity_list(p + enc_entity_list(s) + q, p.len() as int, s.len()) == Some(
            (s, p.len() as int + enc_entity_list(s).len()),
        ),
    decreases s.len(),
{
    let buf = p + enc_entity_list(s) + q;
    if s.len() == 0 {
        assert(s =~= Seq::<EntityUpdatesView>::empty());
    } else {
        let x = s[0];
        let rest = s.drop_first();
        lemma_dec_entity(p, x, enc_entity_list(rest) + q);
        assert(p + enc_entity(x) + (enc_entity_list(rest) + q) =~= buf);
        lemma_dec_entity_list(p + enc_entity(x), rest, q);
        assert((p + enc_entity(x)) + enc_entity_list(rest) + q =~= buf);
        assert(seq![x] + rest =~= s);
    }
}

pub proof fn lemma_dec_replication_packet(p: Seq<u8>, pk: ReplicationPacketView, q: Seq<u8>)
    requires
        pk.wf(),
    ensures
        dec_replication_packet(p + enc_replication_packet(pk) + q, p.len() as int) == Some(
            (pk, p.len() as int + enc_replication_packet(pk).len()),
        ),
{
    let buf = p + enc_replication_packet(pk) + q;
    let a = enc_u64(pk.tick.0);
    let b = enc_u32(pk.updates.len() as u32);
    let c = enc_entity_list(pk.updates);
    let d = enc_u32(pk.despawns.len() as u32);
    let f = enc_u64_list(pk.despawns);
    assert(buf =~= p + a + (b + c + d + f + q));
    lemma_dec_u64(p, pk.tick.0, b + c + d + f + q);
    let p1 = p + a;
    assert(buf =~= p1 + b + (c + d + f + q));
    lemma_dec_u32(p1, pk.updates.len() as u32, c + d + f + q);
    let p2 = p1 + b;
    assert(buf =~= p2 + c + (d + f + q));
    lemma_dec_entity_list(p2, pk.updates, d + f + q);
    let p3 = p2 + c;
    assert(buf =~= p3 + d + (f + q));
    lemma_dec_u32(p3, pk.despawns.len() as u32, f + q);
    let p4 = p3 + d;
    assert(buf =~= p4 + f + q);
    lemma_dec_u64_list(p4, pk.despawns, q);
    assert(ReplicationPacketView {
        tick: NetworkTick(pk.tick.0),
        updates: pk.updates,
        despawns: pk.despawns,
    } =~= pk);
}

/// Round trip of the snapshot codec: decoding an encoded snapshot yields
/// exactly the snapshot that was encoded.
pub proof fn lemma_replication_packet_roundtrip(pk: ReplicationPacketView)
    ensures
        pk.wf() ==> dec_replication_packet(enc_replication_packet(pk), 0) == Some(
            (pk, enc_replication_packet(pk).len() as int),
        ),
{
    if pk.wf() {
        lemma_dec_replication_packet(Seq::empty(), pk, Seq::empty());
        assert(Seq::<u8>::empty() + enc_replication_packet(pk) + Seq::<u8>::empty()
            =~= enc_replication_packet(pk));
    }
}

// ---------------------------------------------------------------------------
// Appending one element to an encoded list
// ---------------------------------------------------------------------------

pub proof fn lemma_enc_button_list_snoc(s: Seq<ButtonState>, x: ButtonState)
    ensures
        enc_button_list(s.push(x)) == enc_button_list(s) + seq![button_code(x)],
    decreases s.len(),
{
    if s.len() == 0 {
        assert(s.push(x).drop_first() =~= Seq::<ButtonState>::empty());
        assert(s.push(x).len() == 1);
        assert(s.push(x)[0] == x);
        assert(enc_button_list(s.push(x)) == seq![button_code(x)] + enc_button_list(
            s.push(x).drop_first(),
        ));
        assert(enc_button_list(s.push(x).drop_first()) == Seq::<u8>::empty());
        assert(enc_button_list(s) == Seq::<u8>::empty());
        assert(enc_button_list(s.push(x)) =~= enc_button_list(s) + seq![button_code(x)]);
    } else {
        assert(s.push(x).drop_first() =~= s.drop_first().push(x));
        lemma_enc_button_list_snoc(s.drop_first(), x);
        assert(enc_button_list(s.push(x)) =~= enc_button_list(s) + seq![button_code(x)]);
    }
}

pub proof fn lemma_enc_state_list_snoc(s: Seq<Seq<ButtonState>>, x: Seq<ButtonState>)
    ensures
        enc_state_list(s.push(x)) == enc_state_list(s) + enc_state(x),
    decreases s.len(),
{
    if s.len() == 0 {
        assert(s.push(x).drop_first() =~= Seq::<Seq<ButtonState>>::empty());
        assert(s.push(x)[0] == x);
        assert(s.push(x).len() == 1);
        assert(enc_state_list(s.push(x)) == enc_state(s.push(x)[0]) + enc_state_list(s.push(x).drop_first()));
        assert(enc_state_list(s.push(x).drop_first()) == Seq::<u8>::empty());
        assert(enc_state_list(s) == Seq::<u8>::empty());
        assert(enc_state_list(s.push(x)) =~= enc_state_list(s) + enc_state(x));
    } else {
        assert(s.push(x).drop_first() =~= s.drop_first().push(x));
        lemma_enc_state_list_snoc(s.drop_first(), x);
        assert(enc_state_list(s.push(x)) =~= enc_state_list(s) + enc_state(x));
    }
}

pub proof fn lemma_enc_update_list_snoc(s: Seq<UpdateComponentView>, x: UpdateComponentView)
    ensures
        enc_update_list(s.push(x)) == enc_update_list(s) + enc_update(x),
    decreases s.len(),
{
    if s.len() == 0 {
        assert(s.push(x).drop_first() =~= Seq::<UpdateComponentView>::empty());
        assert(s.push(x)[0] == x);
        assert(s.push(x).len() == 1);
        assert(enc_update_list(s.push(x)) == enc_update(s.push(x)[0]) + enc_update_list(s.push(x).drop_first()));
        assert(enc_update_list(s.push(x).drop_first()) == Seq::<u8>::empty());
        assert(enc_update_list(s) == Seq::<u8>::empty());
        assert(enc_update_list(s.push(x)) =~= enc_update_list(s) + enc_update(x));
    } else {
        assert(s.push(x).drop_first() =~= s.drop_first().push(x));
        lemma_enc_update_list_snoc(s.drop_first(), x);
        assert(enc_update_list(s.push(x)) =~= enc_update_list(s) + enc_update(x));
    }
}

pub proof fn lemma_enc_u32_list_snoc(s: Seq<u32>, x: u32)
    ensures
        enc_u32_list(s.push(x)) == enc_u32_list(s) + enc_u32(x),
    decreases s.len(),
{
    if s.len() == 0 {
        assert(s.push(x).drop_first() =~= Seq::<u32>::empty());
        assert(s.push(x)[0] == x);
        assert(s.push(x).len() == 1);
        assert(enc_u32_list(s.push(x)) == enc_u32(s.push(x)[0]) + enc_u32_list(s.push(x).drop_first()));
        assert(enc_u32_list(s.push(x).drop_first()) == Seq::<u8>::empty());
        assert(enc_u32_list(s) == Seq::<u8>::empty());
        assert(enc_u32_list(s.push(x)) =~= enc_u32_list(s) + enc_u32(x));
    } else {
        assert(s.push(x).drop_first() =~= s.drop_first().push(x));
        lemma_enc_u32_list_snoc(s.drop_first(), x);
        assert(enc_u32_list(s.push(x)) =~= enc_u32_list(s) + enc_u32(x));
    }
}

pub proof fn lemma_enc_u64_list_snoc(s: Seq<u64>, x: u64)
    ensures
        enc_u64_list(s.push(x)) == enc_u64_list(s) + enc_u64(x),
    decreases s.len(),
{
    if s.len() == 0 {
        assert(s.push(x).drop_first() =~= Seq::<u64>::empty());
        assert(s.push(x)[0] == x);
        assert(s.push(x).len() == 1);
        assert(enc_u64_list(s.push(x)) == enc_u64(s.push(x)[0]) + enc_u64_list(s.push(x).drop_first()));
        assert(enc_u64_list(s.push(x).drop_first()) == Seq::<u8>::empty());
        assert(enc_u64_list(s) == Seq::<u8>::empty());
        assert(enc_u64_list(s.push(x)) =~= enc_u64_list(s) + enc_u64(x));
    } else {
        assert(s.push(x).drop_first() =~= s.drop_first().push(x));
        lemma_enc_u64_list_snoc(s.drop_first(), x);
        assert(enc_u64_list(s.push(x)) =~= enc_u64_list(s) + enc_u64(x));
    }
}

pub proof fn lemma_enc_entity_list_snoc(s: Seq<EntityUpdatesView>, x: EntityUpdatesView)
    ensures
        enc_entity_list(s.push(x)) == enc_entity_list(s) + enc_entity(x),
    decreases s.len(),
{
    if s.len() == 0 {
        assert(s.push(x).drop_first() =~= Seq::<EntityUpdatesView>::empty());
        assert(s.push(x)[0] == x);
        assert(s.push(x).len() == 1);
        assert(enc_entity_list(s.push(x)) == enc_entity(s.push(x)[0]) + enc_entity_list(s.push(x).drop_first()));
        assert(enc_entity_list(s.push(x).drop_first()) == Seq::<u8>::empty());
        assert(enc_entity_list(s) == Seq::<u8>::empty());
        assert(enc_entity_list(s.push(x)) =~= enc_entity_list(s) + enc_entity(x));
    } else {
        assert(s.push(x).drop_first() =~= s.drop_first().push(x));
        lemma_enc_entity_list_snoc(s.drop_first(), x);
        assert(enc_entity_list(s.push(x)) =~= enc_entity_list(s) + enc_entity(x));
    }
}

/// Round trip of the input-packet codec.
pub proof fn lemma_input_packet_roundtrip(ip: InputPacketView)
    ensures
        ip.wf() ==> dec_input_packet(enc_input_packet(ip), 0) == Some(
            (ip, enc_input_packet(ip).len() as int),
        ),
{
    if ip.wf() {
        lemma_dec_input_packet(Seq::empty(), ip, Seq::empty());
        assert(Seq::<u8>::empty() + enc_input_packet(ip) + Seq::<u8>::empty() =~= enc_input_packet(
            ip,
        ));
    }
}

// ---------------------------------------------------------------------------
// Executable encoders
// ---------------------------------------------------------------------------

fn enc_u32_into(buf: &mut Vec<u8>, v: u32)
    ensures
        final(buf)@ == old(buf)@ + enc_u32(v),
{
    let mut tmp = u32_to_le_bytes(v);
    buf.append(&mut tmp);
}

fn enc_u64_into(buf: &mut Vec<u8>, v: u64)
    ensures
        final(buf)@ == old(buf)@ + enc_u64(v),
{
    let mut tmp = u64_to_le_bytes(v);
    buf.append(&mut tmp);
}

fn enc_bytes_into(buf: &mut Vec<u8>, d: &Vec<u8>)
    requires
        d@.len() <= u32::MAX,
    ensures
        final(buf)@ == old(buf)@ + enc_bytes(d@),
{
    enc_u32_into(buf, d.len() as u32);
    buf.extend_from_slice(d.as_slice());
    proof {
        assert(buf@ =~= old(buf)@ + enc_bytes(d@));
    }
}

fn button_to_code(b: ButtonState) -> (r: u8)
    ensures
        r == button_code(b),
{
    match b {
        ButtonState::JustPressed => 0,
        ButtonState::Pressed => 1,
        ButtonState::JustReleased => 2,
        ButtonState::Released => 3,
    }
}

fn enc_state_into(buf: &mut Vec<u8>, s: &ActionState)
    requires
        s@.len() <= u32::MAX,
    ensures
        final(buf)@ == old(buf)@ + enc_state(s@),
{
    let n: usize = s.buttons.len();
    enc_u32_into(buf, n as u32);
    let ghost mid = buf@;
    let mut i: usize = 0;
    while i < n
        invariant
            i <= n,
            n == s@.len(),
            buf@ == mid + enc_button_list(s@.take(i as int)),
        decreases n - i,
    {
        let code = button_to_code(s.buttons[i]);
        buf.push(code);
        proof {
            lemma_enc_button_list_snoc(s@.take(i as int), s@[i as int]);
            assert(s@.take(i as int).push(s@[i as int]) =~= s@.take(i as int + 1));
            assert(buf@ =~= mid + enc_button_list(s@.take(i as int + 1)));
        }
        i = i + 1;
    }
    proof {
        assert(s@.take(n as int) =~= s@);
        assert(buf@ =~= old(buf)@ + enc_state(s@));
    }
}

fn enc_history_into(buf: &mut Vec<u8>, h: &ActionHistory)
    requires
        h@.wf(),
    ensures
        final(buf)@ == old(buf)@ + enc_history(h@),
{
    enc_u64_into(buf, h.tick.0);
    let n: usize = h.history.len();
    enc_u32_into(buf, n as u32);
    let ghost mid = buf@;
    let ghost entries = h@.entries;
    let mut i: usize = 0;
    while i < n
        invariant
            i <= n,
            n == entries.len(),
            entries == h@.entries,
            h@.wf(),
            buf@ == mid + enc_state_list(entries.take(i as int)),
        decreases n - i,
    {
        proof {
            assert(entries[i as int] == h.history@[i as int]@);
            assert(state_wf(entries[i as int]));
        }
        enc_state_into(buf, &h.history[i]);
        proof {
            lemma_enc_state_list_snoc(entries.take(i as int), entries[i as int]);
            assert(entries.take(i as int).push(entries[i as int]) =~= entries.take(i as int + 1));
            assert(buf@ =~= mid + enc_state_list(entries.take(i as int + 1)));
        }
        i = i + 1;
    }
    proof {
        assert(entries.take(n as int) =~= entries);
        assert(buf@ =~= old(buf)@ + enc_history(h@));
    }
}

/// Encode a client input packet for the wire.
pub fn encode_input_packet(p: &InputPacket) -> (out: Vec<u8>)
    requires
        p@.wf(),
    ensures
        out@ == enc_input_packet(p@),
{
    let mut buf: Vec<u8> = Vec::new();
    enc_u64_into(&mut buf, p.entity);
    enc_u64_into(&mut buf, p.tick.0);
    enc_history_into(&mut buf, &p.history);
    proof {
        assert(buf@ =~= enc_input_packet(p@));
    }
    buf
}

fn enc_update_into(buf: &mut Vec<u8>, u: &UpdateComponent)
    requires
        u@.wf(),
    ensures
        final(buf)@ == old(buf)@ + enc_update(u@),
{
    enc_u32_into(buf, u.replication_id);
    enc_bytes_into(buf, &u.data);
    proof {
        assert(buf@ =~= old(buf)@ + enc_update(u@));
    }
}

fn enc_entity_into(buf: &mut Vec<u8>, e: &EntityUpdates)
    requires
        e@.wf(),
    ensures
        final(buf)@ == old(buf)@ + enc_entity(e@),
{
    enc_u64_into(buf, e.entity);
    let nu: usize = e.updates.len();
    enc_u32_into(buf, nu as u32);
    let ghost mid = buf@;
    let ghost ups = e@.updates;
    let mut i: usize = 0;
    while i < nu
        invariant
            i <= nu,
            nu == ups.len(),
            ups == e@.updates,
            e@.wf(),
            buf@ == mid + enc_update_list(ups.take(i as int)),
        decreases nu - i,
    {
        proof {
            assert(ups[i as int] == e.updates@[i as int]@);
            assert(ups[i as int].wf());
        }
        enc_update_into(buf, &e.updates[i]);
        proof {
            lemma_enc_update_list_snoc(ups.take(i as int), ups[i as int]);
            assert(ups.take(i as int).push(ups[i as int]) =~= ups.take(i as int + 1));
            assert(buf@ =~= mid + enc_update_list(ups.take(i as int + 1)));
        }
        i = i + 1;
    }
    proof {
        assert(ups.take(nu as int) =~= ups);
    }
    let nr: usize = e.removals.len();
    enc_u32_into(buf, nr as u32);
    let ghost mid2 = buf@;
    let mut j: usize = 0;
    while j < nr
        invariant
            j <= nr,
            nr == e.removals@.len(),
            buf@ == mid2 + enc_u32_list(e.removals@.take(j as int)),
        decreases nr - j,
    {
        enc_u32_into(buf, e.removals[j]);
        proof {
            lemma_enc_u32_list_snoc(e.removals@.take(j as int), e.removals@[j as int]);
            assert(e.removals@.take(j as int).push(e.removals@[j as int]) =~= e.removals@.take(
                j as int + 1,
            ));
            assert(buf@ =~= mid2 + enc_u32_list(e.removals@.take(j as int + 1)));
        }
        j = j + 1;
    }
    proof {
        assert(e.removals@.take(nr as int) =~= e.removals@);
        assert(buf@ =~= old(buf)@ + enc_entity(e@));
    }
}

/// Encode a whole-world snapshot for the wire.
pub fn encode_replication_packet(p: &ReplicationPacket) -> (out: Vec<u8>)
    requires
        p@.wf(),
    ensures
        out@ == enc_replication_packet(p@),
{
    let mut buf: Vec<u8> = Vec::new();
    enc_u64_into(&mut buf, p.tick.0);
    let ne: usize = p.updates.len();
    enc_u32_into(&mut buf, ne as u32);
    let ghost mid = buf@;
    let ghost ents = p@.updates;
    let mut i: usize = 0;
    while i < ne
        invariant
            i <= ne,
            ne == ents.len(),
            ents == p@.updates,
            p@.wf(),
            buf@ == mid + enc_entity_list(ents.take(i as int)),
        decreases ne - i,
    {
        proof {
            assert(ents[i as int] == p.updates@[i as int]@);
            assert(ents[i as int].wf());
        }
        enc_entity_into(&mut buf, &p.updates[i]);
        proof {
            lemma_enc_entity_list_snoc(ents.take(i as int), ents[i as int]);
            assert(ents.take(i as int).push(ents[i as int]) =~= ents.take(i as int + 1));
            assert(buf@ =~= mid + enc_entity_list(ents.take(i as int + 1)));
        }
        i = i + 1;
    }
    proof {
        assert(ents.take(ne as int) =~= ents);
    }
    let nd: usize = p.despawns.len();
    enc_u32_into(&mut buf, nd as u32);
    let ghost mid2 = buf@;
    let mut j: usize = 0;
    while j < nd
        invariant
            j <= nd,
            nd == p.despawns@.len(),
            buf@ == mid2 + enc_u64_list(p.despawns@.take(j as int)),
        decreases nd - j,
    {
        enc_u64_into(&mut buf, p.despawns[j]);
        proof {
            lemma_enc_u64_list_snoc(p.despawns@.take(j as int), p.despawns@[j as int]);
            assert(p.despawns@.take(j as int).push(p.despawns@[j as int]) =~= p.despawns@.take(
                j as int + 1,
            ));
            assert(buf@ =~= mid2 + enc_u64_list(p.despawns@.take(j as int + 1)));
        }
        j = j + 1;
    }
    proof {
        assert(p.despawns@.take(nd as int) =~= p.despawns@);
        assert(buf@ =~= enc_replication_packet(p@));
    }
    buf
}

// ---------------------------------------------------------------------------
// Executable decoders
// ---------------------------------------------------------------------------

/// The views of a sequence of decoded input states.
pub open spec fn views_of_states(q: Seq<ActionState>) -> Seq<Seq<ButtonState>> {
    q.map_values(|a: ActionState| a@)
}

/// The views of a sequence of decoded component updates.
pub open spec fn views_of_updates(q: Seq<UpdateComponent>) -> Seq<UpdateComponentView> {
    q.map_values(|u: UpdateComponent| u@)
}

/// The views of a sequence of decoded entity update blocks.
pub open spec fn views_of_entities(q: Seq<EntityUpdates>) -> Seq<EntityUpdatesView> {
    q.map_values(|e: EntityUpdates| e@)
}

fn dec_u32_at(s: &[u8], pos: usize) -> (r: Option<(u32, usize)>)
    ensures
        (match r {
            Some((v, end)) => dec_u32(s@, pos as int) == Some((v, end as int)),
            None => dec_u32(s@, pos as int) is None,
        }),
{
    if pos <= s.len() && s.len() - pos >= 4 {
        let sub = vstd::slice::slice_subrange(s, pos, pos + 4);
        let v = u32_from_le_bytes(sub);
        Some((v, pos + 4))
    } else {
        None
    }
}

fn dec_u64_at(s: &[u8], pos: usize) -> (r: Option<(u64, usize)>)
    ensures
        (match r {
            Some((v, end)) => dec_u64(s@, pos as int) == Some((v, end as int)),
            None => dec_u64(s@, pos as int) is None,
        }),
{
    if pos <= s.len() && s.len() - pos >= 8 {
        let sub = vstd::slice::slice_subrange(s, pos, pos + 8);
        let v = u64_from_le_bytes(sub);
        Some((v, pos + 8))
    } else {
        None
    }
}

fn dec_bytes_at(s: &[u8], pos: usize) -> (r: Option<(Vec<u8>, usize)>)
    ensures
        (match r {
            Some((d, end)) => dec_bytes(s@, pos as int) == Some((d@, end as int)),
            None => dec_bytes(s@, pos as int) is None,
        }),
{
    match dec_u32_at(s, pos) {
        Some((n, p1)) => {
            if (n as usize) <= s.len() - p1 {
                let sub = vstd::slice::slice_subrange(s, p1, p1 + n as usize);
                let d = vstd::slice::slice_to_vec(sub);
                Some((d, p1 + n as usize))
            } else {
                None
            }
        },
        None => None,
    }
}

fn dec_button_at(s: &[u8], pos: usize) -> (r: Option<(ButtonState, usize)>)
    ensures
        (match r {
            Some((b, end)) => dec_button(s@, pos as int) == Some((b, end as int)),
            None => dec_button(s@, pos as int) is None,
        }),
{
    if pos < s.len() {
        let c = s[pos];
        if c == 0 {
            Some((ButtonState::JustPressed, pos + 1))
        } else if c == 1 {
            Some((ButtonState::Pressed, pos + 1))
        } else if c == 2 {
            Some((ButtonState::JustReleased, pos + 1))
        } else if c == 3 {
            Some((ButtonState::Released, pos + 1))
        } else {
            None
        }
    } else {
        None
    }
}

fn dec_state_at(s: &[u8], pos: usize) -> (r: Option<(ActionState, usize)>)
    ensures
        (match r {
            Some((a, end)) => dec_state(s@, pos as int) == Some((a@, end as int)) && a@.len()
                <= u32::MAX,
            None => dec_state(s@, pos as int) is None,
        }),
{
    let (count, p1) = match dec_u32_at(s, pos) {
        Some(x) => x,
        None => {
            return None;
        },
    };
    let mut buttons: Vec<ButtonState> = Vec::new();
    let mut cur: usize = p1;
    let mut i: u32 = 0;
    while i < count
        invariant
            i <= count,
            buttons@.len() == i,
            dec_u32(s@, pos as int) == Some((count, p1 as int)),
            (match dec_button_list(s@, cur as int, (count - i) as nat) {
                Some((rest, e)) => dec_button_list(s@, p1 as int, count as nat) == Some((
                    buttons@ + rest,
                    e,
                )),
                None => dec_button_list(s@, p1 as int, count as nat) is None,
            }),
        decreases count - i,
    {
        match dec_button_at(s, cur) {
            Some((b, end)) => {
                proof {
                    let r2 = dec_button_list(s@, end as int, (count - i - 1) as nat);
                    if r2 is Some {
                        let (rest2, e2) = r2->Some_0;
                        assert(buttons@ + (seq![b] + rest2) =~= buttons@.push(b) + rest2);
                    }
                }
                buttons.push(b);
                cur = end;
                i = i + 1;
            },
            None => {
                proof {
                    assert(dec_button_list(s@, cur as int, (count - i) as nat) is None);
                }
                return None;
            },
        }
    }
    proof {
        assert(buttons@ + Seq::<ButtonState>::empty() =~= buttons@);
    }
    Some((ActionState { buttons }, cur))
}

fn dec_state_list_at(s: &[u8], pos: usize, count: u32) -> (r: Option<(VecDeque<ActionState>, usize)>)
    ensures
        (match r {
            Some((q, end)) => dec_state_list(s@, pos as int, count as nat) == Some((
                views_of_states(q@),
                end as int,
            )) && q@.len() == count && (forall|j: int|
                0 <= j < q@.len() ==> (#[trigger] q@[j])@.len() <= u32::MAX),
            None => dec_state_list(s@, pos as int, count as nat) is None,
        }),
{
    let mut q: VecDeque<ActionState> = VecDeque::new();
    let mut cur: usize = pos;
    let mut i: u32 = 0;
    proof {
        assert(views_of_states(q@) =~= Seq::<Seq<ButtonState>>::empty());
    }
    while i < count
        invariant
            i <= count,
            q@.len() == i,
            forall|j: int| 0 <= j < q@.len() ==> (#[trigger] q@[j])@.len() <= u32::MAX,
            (match dec_state_list(s@, cur as int, (count - i) as nat) {
                Some((rest, e)) => dec_state_list(s@, pos as int, count as nat) == Some((
                    views_of_states(q@) + rest,
                    e,
                )),
                None => dec_state_list(s@, pos as int, count as nat) is None,
            }),
        decreases count - i,
    {
        match dec_state_at(s, cur) {
            Some((st, end)) => {
                proof {
                    let r2 = dec_state_list(s@, end as int, (count - i - 1) as nat);
                    if r2 is Some {
                        let (rest2, e2) = r2->Some_0;
                        assert(views_of_states(q@.push(st)) =~= views_of_states(q@).push(st@));
                        assert(views_of_states(q@) + (seq![st@] + rest2) =~= views_of_states(
                            q@.push(st),
                        ) + rest2);
                    }
                }
                q.push_back(st);
                cur = end;
                i = i + 1;
            },
            None => {
                proof {
                    assert(dec_state_list(s@, cur as int, (count - i) as nat) is None);
                }
                return None;
            },
        }
    }
    proof {
        assert(views_of_states(q@) + Seq::<Seq<ButtonState>>::empty() =~= views_of_states(q@));
    }
    Some((q, cur))
}

fn dec_history_at(s: &[u8], pos: usize) -> (r: Option<(ActionHistory, usize)>)
    ensures
        (match r {
            Some((h, end)) => dec_history(s@, pos as int) == Some((h@, end as int))
                && h@.wf(),
            None => dec_history(s@, pos as int) is None,
        }),
{
    let (tick, p1) = match dec_u64_at(s, pos) {
        Some(x) => x,
        None => {
            return None;
        },
    };
    let (count, p2) = match dec_u32_at(s, p1) {
        Some(x) => x,
        None => {
            return None;
        },
    };
    let (q, p3) = match dec_state_list_at(s, p2, count) {
        Some(x) => x,
        None => {
            return None;
        },
    };
    let h = ActionHistory { tick: NetworkTick(tick), history: q };
    proof {
        assert(h@.entries =~= views_of_states(h.history@));
        assert(h@ =~= dec_history(s@, pos as int)->Some_0.0);
        assert forall|j: int| 0 <= j < h@.entries.len() implies state_wf(
            #[trigger] h@.entries[j],
        ) by {
            assert(h@.entries[j] == h.history@[j]@);
        }
    }
    Some((h, p3))
}

/// Decode a client input packet; a malformed payload is a protocol error.
pub fn decode_input_packet(msg: &Vec<u8>) -> (r: Result<InputPacket, crate::ProtocolError>)
    ensures
        (match r {
            Ok(p) => dec_input_packet(msg@, 0) is Some && dec_input_packet(
                msg@,
                0,
            )->Some_0.0 == p@ && p@.wf(),
            Err(e) => e == crate::ProtocolError::Decode && dec_input_packet(msg@, 0) is None,
        }),
{
    let s = msg.as_slice();
    let (entity, p1) = match dec_u64_at(s, 0) {
        Some(x) => x,
        None => {
            return Err(crate::ProtocolError::Decode);
        },
    };
    let (tick, p2) = match dec_u64_at(s, p1) {
        Some(x) => x,
        None => {
            return Err(crate::ProtocolError::Decode);
        },
    };
    let (history, p3) = match dec_history_at(s, p2) {
        Some(x) => x,
        None => {
            return Err(crate::ProtocolError::Decode);
        },
    };
    let p = InputPacket { entity, tick: NetworkTick(tick), history };
    proof {
        assert(p@ =~= dec_input_packet(msg@, 0)->Some_0.0);
    }
    Ok(p)
}

fn dec_update_at(s: &[u8], pos: usize) -> (r: Option<(UpdateComponent, usize)>)
    ensures
        (match r {
            Some((u, end)) => dec_update(s@, pos as int) == Some((u@, end as int)),
            None => dec_update(s@, pos as int) is None,
        }),
{
    let (replication_id, p1) = match dec_u32_at(s, pos) {
        Some(x) => x,
        None => {
            return None;
        },
    };
    let (data, p2) = match dec_bytes_at(s, p1) {
        Some(x) => x,
        None => {
            return None;
        },
    };
    let u = UpdateComponent { replication_id, data };
    proof {
        assert(u@ =~= dec_update(s@, pos as int)->Some_0.0);
    }
    Some((u, p2))
}

fn dec_update_list_at(s: &[u8], pos: usize, count: u32) -> (r: Option<(Vec<UpdateComponent>, usize)>)
    ensures
        (match r {
            Some((q, end)) => dec_update_list(s@, pos as int, count as nat) == Some((
                views_of_updates(q@),
                end as int,
            )),
            None => dec_update_list(s@, pos as int, count as nat) is None,
        }),
{
    let mut q: Vec<UpdateComponent> = Vec::new();
    let mut cur: usize = pos;
    let mut i: u32 = 0;
    proof {
        assert(views_of_updates(q@) =~= Seq::<UpdateComponentView>::empty());
    }
    while i < count
        invariant
            i <= count,
            (match dec_update_list(s@, cur as int, (count - i) as nat) {
                Some((rest, e)) => dec_update_list(s@, pos as int, count as nat) == Some((
                    views_of_updates(q@) + rest,
                    e,
                )),
                None => dec_update_list(s@, pos as int, count as nat) is None,
            }),
        decreases count - i,
    {
        match dec_update_at(s, cur) {
            Some((u, end)) => {
                proof {
                    let r2 = dec_update_list(s@, end as int, (count - i - 1) as nat);
                    if r2 is Some {
                        let (rest2, e2) = r2->Some_0;
                        assert(views_of_updates(q@.push(u)) =~= views_of_updates(q@).push(u@));
                        assert(views_of_updates(q@) + (seq![u@] + rest2) =~= views_of_updates(
                            q@.push(u),
                        ) + rest2);
                    }
                }
                q.push(u);
                cur = end;
                i = i + 1;
            },
            None => {
                proof {
                    assert(dec_update_list(s@, cur as int, (count - i) as nat) is None);
                }
                return None;
            },
        }
    }
    proof {
        assert(views_of_updates(q@) + Seq::<UpdateComponentView>::empty() =~= views_of_updates(q@));
    }
    Some((q, cur))
}

fn dec_u32_list_at(s: &[u8], pos: usize, count: u32) -> (r: Option<(Vec<u32>, usize)>)
    ensures
        (match r {
            Some((q, end)) => dec_u32_list(s@, pos as int, count as nat) == Some((q@, end as int)),
            None => dec_u32_list(s@, pos as int, count as nat) is None,
        }),
{
    let mut q: Vec<u32> = Vec::new();
    let mut cur: usize = pos;
    let mut i: u32 = 0;
    while i < count
        invariant
            i <= count,
            (match dec_u32_list(s@, cur as int, (count - i) as nat) {
                Some((rest, e)) => dec_u32_list(s@, pos as int, count as nat) == Some((
                    q@ + rest,
                    e,
                )),
                None => dec_u32_list(s@, pos as int, count as nat) is None,
            }),
        decreases count - i,
    {
        match dec_u32_at(s, cur) {
            Some((v, end)) => {
                proof {
                    let r2 = dec_u32_list(s@, end as int, (count - i - 1) as nat);
                    if r2 is Some {
                        let (rest2, e2) = r2->Some_0;
                        assert(q@ + (seq![v] + rest2) =~= q@.push(v) + rest2);
                    }
                }
                q.push(v);
                cur = end;
                i = i + 1;
            },
            None => {
                proof {
                    assert(dec_u32_list(s@, cur as int, (count - i) as nat) is None);
                }
                return None;
            },
        }
    }
    proof {
        assert(q@ + Seq::<u32>::empty() =~= q@);
    }
    Some((q, cur))
}

fn dec_u64_list_at(s: &[u8], pos: usize, count: u32) -> (r: Option<(Vec<u64>, usize)>)
    ensures
        (match r {
            Some((q, end)) => dec_u64_list(s@, pos as int, count as nat) == Some((q@, end as int))
                && q@.len() == count,
            None => dec_u64_list(s@, pos as int, count as nat) is None,
        }),
{
    let mut q: Vec<u64> = Vec::new();
    let mut cur: usize = pos;
    let mut i: u32 = 0;
    while i < count
        invariant
            i <= count,
            q@.len() == i,
            (match dec_u64_list(s@, cur as int, (count - i) as nat) {
                Some((rest, e)) => dec_u64_list(s@, pos as int, count as nat) == Some((
                    q@ + rest,
                    e,
                )),
                None => dec_u64_list(s@, pos as int, count as nat) is None,
            }),
        decreases count - i,
    {
        match dec_u64_at(s, cur) {
            Some((v, end)) => {
                proof {
                    let r2 = dec_u64_list(s@, end as int, (count - i - 1) as nat);
                    if r2 is Some {
                        let (rest2, e2) = r2->Some_0;
                        assert(q@ + (seq![v] + rest2) =~= q@.push(v) + rest2);
                    }
                }
                q.push(v);
                cur = end;
                i = i + 1;
            },
            None => {
                proof {
                    assert(dec_u64_list(s@, cur as int, (count - i) as nat) is None);
                }
                return None;
            },
        }
    }
    proof {
        assert(q@ + Seq::<u64>::empty() =~= q@);
    }
    Some((q, cur))
}

fn dec_entity_at(s: &[u8], pos: usize) -> (r: Option<(EntityUpdates, usize)>)
    ensures
        (match r {
            Some((e, end)) => dec_entity(s@, pos as int) == Some((e@, end as int)),
            None => dec_entity(s@, pos as int) is None,
        }),
{
    let (entity, p1) = match dec_u64_at(s, pos) {
        Some(x) => x,
        None => {
            return None;
        },
    };
    let (nu, p2) = match dec_u32_at(s, p1) {
        Some(x) => x,
        None => {
            return None;
        },
    };
    let (updates, p3) = match dec_update_list_at(s, p2, nu) {
        Some(x) => x,
        None => {
            return None;
        },
    };
    let (nr, p4) = match dec_u32_at(s, p3) {
        Some(x) => x,
        None => {
            return None;
        },
    };
    let (removals, p5) = match dec_u32_list_at(s, p4, nr) {
        Some(x) => x,
        None => {
            return None;
        },
    };
    let e = EntityUpdates { entity, updates, removals };
    proof {
        assert(e@.updates =~= views_of_updates(e.updates@));
        assert(e@ =~= dec_entity(s@, pos as int)->Some_0.0);
    }
    Some((e, p5))
}

fn dec_entity_list_at(s: &[u8], pos: usize, count: u32) -> (r: Option<(Vec<EntityUpdates>, usize)>)
    ensures
        (match r {
            Some((q, end)) => dec_entity_list(s@, pos as int, count as nat) == Some((
                views_of_entities(q@),
                end as int,
            )),
            None => dec_entity_list(s@, pos as int, count as nat) is None,
        }),
{
    let mut q: Vec<EntityUpdates> = Vec::new();
    let mut cur: usize = pos;
    let mut i: u32 = 0;
    proof {
        assert(views_of_entities(q@) =~= Seq::<EntityUpdatesView>::empty());
    }
    while i < count
        invariant
            i <= count,
            (match dec_entity_list(s@, cur as int, (count - i) as nat) {
                Some((rest, e)) => dec_entity_list(s@, pos as int, count as nat) == Some((
                    views_of_entities(q@) + rest,
                    e,
                )),
                None => dec_entity_list(s@, pos as int, count as nat) is None,
            }),
        decreases count - i,
    {
        match dec_entity_at(s, cur) {
            Some((e, end)) => {
                proof {
                    let r2 = dec_entity_list(s@, end as int, (count - i - 1) as nat);
                    if r2 is Some {
                        let (rest2, e2) = r2->Some_0;
                        assert(views_of_entities(q@.push(e)) =~= views_of_entities(q@).push(e@));
                        assert(views_of_entities(q@) + (seq![e@] + rest2) =~= views_of_entities(
                            q@.push(e),
                        ) + rest2);
                    }
                }
                q.push(e);
                cur = end;
                i = i + 1;
            },
            None => {
                proof {
                    assert(dec_entity_list(s@, cur as int, (count - i) as nat) is None);
                }
                return None;
            },
        }
    }
    proof {
        assert(views_of_entities(q@) + Seq::<EntityUpdatesView>::empty() =~= views_of_entities(q@));
    }
    Some((q, cur))
}

/// Decode a whole-world snapshot; a malformed payload is a protocol error.
pub fn decode_replication_packet(msg: &Vec<u8>) -> (r: Result<ReplicationPacket, crate::ProtocolError>)
    ensures
        (match r {
            Ok(p) => dec_replication_packet(msg@, 0) is Some && dec_replication_packet(
                msg@,
                0,
            )->Some_0.0 == p@ && p@.despawns.len() <= u32::MAX,
            Err(e) => e == crate::ProtocolError::Decode && dec_replication_packet(msg@, 0) is None,
        }),
{
    let s = msg.as_slice();
    let (tick, p1) = match dec_u64_at(s, 0) {
        Some(x) => x,
        None => {
            return Err(crate::ProtocolError::Decode);
        },
    };
    let (ne, p2) = match dec_u32_at(s, p1) {
        Some(x) => x,
        None => {
            return Err(crate::ProtocolError::Decode);
        },
    };
    let (updates, p3) = match dec_entity_list_at(s, p2, ne) {
        Some(x) => x,
        None => {
            return Err(crate::ProtocolError::Decode);
        },
    };
    let (nd, p4) = match dec_u32_at(s, p3) {
        Some(x) => x,
        None => {
            return Err(crate::ProtocolError::Decode);
        },
    };
    let (despawns, p5) = match dec_u64_list_at(s, p4, nd) {
        Some(x) => x,
        None => {
            return Err(crate::ProtocolError::Decode);
        },
    };
    let p = ReplicationPacket { tick: NetworkTick(tick), updates, despawns };
    proof {
        assert(p@.updates =~= views_of_entities(p.updates@));
        assert(p@ =~= dec_replication_packet(msg@, 0)->Some_0.0);
    }
    Ok(p)
}

} // verus!
