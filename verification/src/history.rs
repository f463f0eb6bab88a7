//! Per-entity input history: a bounded deque of input states indexed by
//! tick, written by the local input source and replayed during rollback
//! resimulation.

use vstd::prelude::*;
use std::collections::VecDeque;

use crate::tick::NetworkTick;

verus! {

/// The state of one button-like action in one tick, including the edge
/// ("just" states) relative to the previous tick.
#[derive(Clone, Copy, Debug, PartialEq, Eq, Structural)]
pub enum ButtonState {
    JustPressed,
    Pressed,
    JustReleased,
    Released,
}

impl ButtonState {
    pub open spec fn is_pressed_spec(self) -> bool {
        self == ButtonState::JustPressed || self == ButtonState::Pressed
    }
}

/// The input state of one entity in one tick: one `ButtonState` per
/// action, indexed by the action's small integer id.
#[derive(Debug, PartialEq, Eq)]
pub struct ActionState {
    pub buttons: Vec<ButtonState>,
}

impl View for ActionState {
    type V = Seq<ButtonState>;

    open spec fn view(&self) -> Seq<ButtonState> {
        self.buttons@
    }
}

/// The edge-corrected state of one action: a press or release edge is
/// reported exactly in the tick where the raw pressed-ness changed.
pub open spec fn edge_merge(cur: ButtonState, prev: ButtonState) -> ButtonState {
    if cur.is_pressed_spec() && !prev.is_pressed_spec() {
        ButtonState::JustPressed
    } else if !cur.is_pressed_spec() && prev.is_pressed_spec() {
        ButtonState::JustReleased
    } else {
        cur
    }
}

/// The whole input state of one tick with edges synthesized against the
/// previous tick's state; actions beyond `prev`'s range are compared
/// against released.
pub open spec fn with_edges_spec(cur: Seq<ButtonState>, prev: Seq<ButtonState>) -> Seq<ButtonState> {
    Seq::new(
        cur.len(),
        |i: int| edge_merge(cur[i], if i < prev.len() { prev[i] } else { ButtonState::Released }),
    )
}

impl ActionState {
    /// All actions released.
    pub fn new(n_actions: usize) -> (r: ActionState)
        ensures
            r@.len() == n_actions,
            forall|i: int| 0 <= i < n_actions ==> r@[i] == ButtonState::Released,
    {
        let mut buttons: Vec<ButtonState> = Vec::new();
        let mut i: usize = 0;
        while i < n_actions
            invariant
                i <= n_actions,
                buttons@.len() == i,
                forall|j: int| 0 <= j < i ==> buttons@[j] == ButtonState::Released,
            decreases n_actions - i,
        {
            buttons.push(ButtonState::Released);
            i = i + 1;
        }
        ActionState { buttons }
    }

    pub open spec fn pressed_spec(self, action: int) -> bool {
        0 <= action < self@.len() && self@[action].is_pressed_spec()
    }

    pub open spec fn just_pressed_spec(self, action: int) -> bool {
        0 <= action < self@.len() && self@[action] == ButtonState::JustPressed
    }

    /// Whether the action is held down in this tick; an unknown action id
    /// reads as released.
    pub fn pressed(&self, action: usize) -> (r: bool)
        ensures
            r == self.pressed_spec(action as int),
    {
        if action < self.buttons.len() {
            match self.buttons[action] {
                ButtonState::JustPressed => true,
                ButtonState::Pressed => true,
                _ => false,
            }
        } else {
            false
        }
    }

    /// Whether the action was pressed in exactly this tick.
    pub fn just_pressed(&self, action: usize) -> (r: bool)
        ensures
            r == self.just_pressed_spec(action as int),
    {
        if action < self.buttons.len() {
            match self.buttons[action] {
                ButtonState::JustPressed => true,
                _ => false,
            }
        } else {
            false
        }
    }

    /// Press the action down (with a press edge); action ids out of range
    /// are ignored.
    pub fn press(&mut self, action: usize)
        ensures
            final(self)@ == if (action as int) < old(self)@.len() {
                old(self)@.update(action as int, ButtonState::JustPressed)
            } else {
                old(self)@
            },
    {
        if action < self.buttons.len() {
            self.buttons[action] = ButtonState::JustPressed;
        }
    }

    /// The raw state of this tick with press/release edges synthesized
    /// against the input state of the previous tick.
    pub fn with_edges_from(&self, prev: &ActionState) -> (r: ActionState)
        ensures
            r@ == with_edges_spec(self@, prev@),
    {
        let mut buttons: Vec<ButtonState> = Vec::new();
        let n: usize = self.buttons.len();
        let mut i: usize = 0;
        while i < n
            invariant
                i <= n,
                n == self@.len(),
                buttons@.len() == i,
                forall|j: int| 0 <= j < i ==> buttons@[j] == with_edges_spec(self@, prev@)[j],
            decreases n - i,
        {
            let cur = self.buttons[i];
            let prev_state = if i < prev.buttons.len() {
                prev.buttons[i]
            } else {
                ButtonState::Released
            };
            let cur_pressed = match cur {
                ButtonState::JustPressed => true,
                ButtonState::Pressed => true,
                _ => false,
            };
            let prev_pressed = match prev_state {
                ButtonState::JustPressed => true,
                ButtonState::Pressed => true,
                _ => false,
            };
            let merged = if cur_pressed && !prev_pressed {
                ButtonState::JustPressed
            } else if !cur_pressed && prev_pressed {
                ButtonState::JustReleased
            } else {
                cur
            };
            buttons.push(merged);
            i = i + 1;
        }
        proof {
            assert(buttons@ =~= with_edges_spec(self@, prev@));
        }
        ActionState { buttons }
    }
}

impl Clone for ActionState {
    fn clone(&self) -> (r: Self)
        ensures
            r@ == self@,
    {
        let mut buttons: Vec<ButtonState> = Vec::new();
        let n: usize = self.buttons.len();
        let mut i: usize = 0;
        while i < n
            invariant
                i <= n,
                n == self@.len(),
                buttons@.len() == i,
                forall|j: int| 0 <= j < i ==> buttons@[j] == self@[j],
            decreases n - i,
        {
            buttons.push(self.buttons[i]);
            i = i + 1;
        }
        proof {
            assert(buttons@ =~= self@);
        }
        ActionState { buttons }
    }
}

/// The mathematical content of an input history: the head tick, and the
/// retained input states from the newest (offset 0, tick `tick`) to the
/// oldest (offset `entries.len() - 1`).
#[verifier::ext_equal]
pub struct HistoryView {
    pub tick: NetworkTick,
    pub entries: Seq<Seq<ButtonState>>,
}

impl HistoryView {
    /// The input recorded for tick `t`, if it is retained.
    pub open spec fn at(self, t: NetworkTick) -> Option<Seq<ButtonState>> {
        if t.0 <= self.tick.0 && self.tick.0 - t.0 < self.entries.len() {
            Some(self.entries[self.tick.0 - t.0])
        } else {
            None
        }
    }
}

/// A bounded record of input states indexed by tick. The element at offset
/// `k` from the front corresponds to tick `tick - k`, so the front entry is
/// the newest and `tick` is its tick (the "head tick").
#[derive(Debug, PartialEq, Eq)]
pub struct ActionHistory {
    pub tick: NetworkTick,
    pub history: VecDeque<ActionState>,
}

impl View for ActionHistory {
    type V = HistoryView;

    open spec fn view(&self) -> HistoryView {
        HistoryView {
            tick: self.tick,
            entries: self.history@.map_values(|a: ActionState| a@),
        }
    }
}

impl ActionHistory {
    pub fn new() -> (r: ActionHistory)
        ensures
            r@.tick.0 == 0,
            r@.entries.len() == 0,
    {
        let r = ActionHistory { tick: NetworkTick(0), history: VecDeque::new() };
        proof {
            assert(r@.entries =~= Seq::<Seq<ButtonState>>::empty());
        }
        r
    }

    /// Record the input state for tick `tick`, which becomes the new head
    /// tick. The tick argument must be strictly increasing across calls.
    pub fn add_for_tick(&mut self, tick: NetworkTick, actions: ActionState)
        requires
            old(self)@.entries.len() == 0 || tick.0 > old(self)@.tick.0,
        ensures
            final(self)@.tick == tick,
            final(self)@.entries == seq![actions@] + old(self)@.entries,
    {
        self.tick = tick;
        self.history.push_front(actions);
        proof {
            assert(self@.entries =~= seq![actions@] + old(self)@.entries);
        }
    }

    /// The input recorded for tick `at`: present exactly when `at` lies in
    /// the retained range `[tick - (len - 1), tick]`.
    pub fn at_tick(&self, at: NetworkTick) -> (r: Option<ActionState>)
        ensures
            match r {
                Some(a) => self@.at(at) == Some(a@),
                None => self@.at(at) is None,
            },
    {
        if self.tick.0 < at.0 {
            return None;
        }
        let offset = self.tick.0 - at.0;
        let hlen: usize = self.history.len();
        if offset < (usize::MAX as u64) && (offset as usize) < hlen {
            let elem: &ActionState = &self.history[offset as usize];
            let a = elem.clone();
            proof {
                assert(self@.entries[offset as int] == self.history@[offset as int]@);
            }
            Some(a)
        } else {
            None
        }
    }

    /// Drop entries older than `oldest`, keeping at most `tick - oldest + 1`
    /// entries, so that the input for every tick from `oldest` through the
    /// head tick stays recoverable.
    pub fn remove_old_history(&mut self, oldest: NetworkTick)
        ensures
            final(self)@.tick == old(self)@.tick,
            final(self)@.entries == old(self)@.entries.take(
                vstd::math::min(
                    1 + if old(self)@.tick.0 >= oldest.0 {
                        old(self)@.tick.0 - oldest.0
                    } else {
                        0
                    },
                    old(self)@.entries.len() as int,
                ),
            ),
    {
        let ghost orig = self.history@;
        let len0: usize = self.history.len();
        let keep64: u64 = if self.tick.0 >= oldest.0 {
            self.tick.0 - oldest.0
        } else {
            0
        };
        let keep_plus: u64 = if keep64 == u64::MAX {
            u64::MAX
        } else {
            keep64 + 1
        };
        let ghost target = vstd::math::min(1 + keep64 as int, len0 as int);
        while (self.history.len() as u64) > keep_plus
            invariant
                self.tick == old(self).tick,
                orig.len() <= usize::MAX,
                target <= keep_plus as int,
                target == vstd::math::min(1 + keep64 as int, orig.len() as int),
                target <= self.history@.len() <= orig.len(),
                self.history@ == orig.take(self.history@.len() as int),
            decreases self.history@.len(),
        {
            self.history.pop_back();
            proof {
                assert(self.history@ =~= orig.take(self.history@.len() as int));
            }
        }
        proof {
            assert(self.history@.len() as int == target);
            assert(self@.entries =~= old(self)@.entries.take(target));
        }
    }
}

/// Retained-range totality: a non-empty input history answers every tick
/// from `tick - (len - 1)` through `tick`.
pub proof fn lemma_history_total(h: HistoryView, t: NetworkTick)
    requires
        h.entries.len() > 0,
        h.tick.0 - (h.entries.len() - 1) <= t.0 <= h.tick.0,
    ensures
        h.at(t) is Some,
{
}

} // verus!
