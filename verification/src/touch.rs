//! The fingers on the trackpad.

use crate::binary32::{law_small_integers_are_exact, lemma_integer_rounds, nearest, Binary32};
use std::collections::HashMap;
use vstd::arithmetic::power2::pow2;
use vstd::prelude::*;
use vstd::std_specs::hash::*;

verus! {

/// What is known of one contact with the trackpad.
#[derive(Clone, Copy, Debug, PartialEq, Eq)]
pub struct SlotState {
    pub active: bool,
    pub x: Option<Binary32>,
    pub y: Option<Binary32>,
}

/// The slots that were used, by number.
pub type Slots = Map<i32, SlotState>;

impl SlotState {
    /// A slot of which nothing is known.
    pub open spec fn unused() -> SlotState {
        SlotState { active: false, x: None, y: None }
    }

    /// A finger is down here and it is known where.
    pub open spec fn touching(self) -> bool {
        self.active && self.x is Some && self.y is Some
    }

    pub open spec fn position(self) -> (Binary32, Binary32) {
        (self.x->0, self.y->0)
    }

    fn is_touching(&self) -> (r: bool)
        ensures
            r == self.touching(),
    {
        self.active && self.x.is_some() && self.y.is_some()
    }
}

impl Default for SlotState {
    fn default() -> (s: SlotState)
        ensures
            s == SlotState::unused(),
    {
        SlotState { active: false, x: None, y: None }
    }
}

/// The slots with a finger.
pub open spec fn touched(slots: Slots) -> Set<i32> {
    slots.dom().filter(|k: i32| slots[k].touching())
}

/// How many fingers are down.
pub open spec fn fingers(slots: Slots) -> nat {
    touched(slots).len()
}

/// Where the finger is, if exactly one is down.
pub open spec fn sole(slots: Slots) -> Option<(Binary32, Binary32)> {
    if fingers(slots) == 1 {
        Some(slots[touched(slots).choose()].position())
    } else {
        None
    }
}

/// `walk` lists the slots, each once.
spec fn lists(walk: Seq<(&i32, &SlotState)>, slots: Slots) -> bool {
    &&& walk.no_duplicates()
    &&& forall|i: int|
        0 <= i < walk.len() ==> slots.contains_key(*(#[trigger] walk[i]).0)
            && slots[*walk[i].0] == *walk[i].1
    &&& forall|k: i32| #[trigger] slots.contains_key(k) ==> walk.contains((&k, &slots[k]))
}

/// The slots with a finger among the first `n` of `walk`.
spec fn touched_in(walk: Seq<(&i32, &SlotState)>, n: int) -> Set<i32>
    decreases n,
{
    if n <= 0 {
        Set::empty()
    } else if walk[n - 1].1.touching() {
        touched_in(walk, n - 1).insert(*walk[n - 1].0)
    } else {
        touched_in(walk, n - 1)
    }
}

proof fn lemma_touched_in(walk: Seq<(&i32, &SlotState)>, slots: Slots, n: int)
    requires
        lists(walk, slots),
        0 <= n <= walk.len(),
    ensures
        touched_in(walk, n).finite(),
        touched_in(walk, n).subset_of(touched(slots)),
        forall|k: i32| #[trigger]
            touched_in(walk, n).contains(k) <==> exists|i: int|
                0 <= i < n && *(#[trigger] walk[i]).0 == k && walk[i].1.touching(),
        n < walk.len() ==> !touched_in(walk, n).contains(*walk[n].0),
        n == walk.len() ==> touched_in(walk, n) == touched(slots),
    decreases n,
{
    if n > 0 {
        lemma_touched_in(walk, slots, n - 1);
        assert forall|k: i32| #[trigger] touched_in(walk, n).contains(k) implies exists|i: int|
            0 <= i < n && *(#[trigger] walk[i]).0 == k && walk[i].1.touching() by {
            if touched_in(walk, n - 1).contains(k) {
            } else {
                assert(*walk[n - 1].0 == k);
            }
        }
    }
    if n < walk.len() && touched_in(walk, n).contains(*walk[n].0) {
        let i = choose|i: int|
            0 <= i < n && *(#[trigger] walk[i]).0 == *walk[n].0 && walk[i].1.touching();
        assert(walk[i] == walk[n]);
    }
    if n == walk.len() {
        assert forall|k: i32| touched(slots).contains(k) implies touched_in(walk, n).contains(k) by {
            let i = walk.index_of((&k, &slots[k]));
            assert(*walk[i].0 == k);
        }
        assert(touched_in(walk, n) =~= touched(slots));
    }
}

proof fn lemma_sole_steps(walk: Seq<(&i32, &SlotState)>, slots: Slots, n: int)
    requires
        lists(walk, slots),
        0 <= n < walk.len(),
        walk[n].1.touching(),
    ensures
        touched_in(walk, n).len() == 0 ==> touched_in(walk, n + 1).len() == 1 && touched_in(
            walk,
            n + 1,
        ).choose() == *walk[n].0,
        touched_in(walk, n).len() >= 1 ==> touched(slots).len() >= 2,
{
    lemma_touched_in(walk, slots, n);
    lemma_touched_in(walk, slots, n + 1);
    lemma_touched_in(walk, slots, walk.len() as int);
    vstd::set_lib::lemma_len_subset(touched_in(walk, n + 1), touched(slots));
    if touched_in(walk, n).len() == 0 {
        assert(touched_in(walk, n) =~= Set::empty());
        assert(touched_in(walk, n + 1).contains(touched_in(walk, n + 1).choose()));
    }
}

/// Counts the fingers that are down.
pub fn count_fingers(slots: &HashMap<i32, SlotState>) -> (r: usize)
    ensures
        r == fingers(slots@),
{
    broadcast use group_hash_axioms;

    let mut count: usize = 0;
    let total = slots.len();
    proof {
        if total == 0 {
            assert(touched(slots@) =~= Set::empty());
        }
    }
    for (k, slot) in it: slots.iter()
        invariant
            lists(it.seq(), slots@),
            it.seq().len() == total,
            count == touched_in(it.seq(), it.index()).len(),
            count <= it.index(),
            it.index() == total ==> count == fingers(slots@),
    {
        proof {
            lemma_touched_in(it.seq(), slots@, it.index());
            lemma_touched_in(it.seq(), slots@, it.index() + 1);
        }
        if slot.is_touching() {
            count = count + 1;
        }
    }
    count
}

/// Where the finger is, if exactly one is down.
pub fn sole_position(slots: &HashMap<i32, SlotState>) -> (r: Option<(Binary32, Binary32)>)
    ensures
        r == sole(slots@),
{
    broadcast use group_hash_axioms;

    let mut found: Option<(Binary32, Binary32)> = None;
    let total = slots.len();
    proof {
        if total == 0 {
            assert(touched(slots@) =~= Set::empty());
        }
    }
    for (k, slot) in it: slots.iter()
        invariant
            lists(it.seq(), slots@),
            it.seq().len() == total,
            found is None ==> touched_in(it.seq(), it.index()).len() == 0,
            found matches Some(p) ==> touched_in(it.seq(), it.index()).len() == 1
                && p == slots@[touched_in(it.seq(), it.index()).choose()].position(),
            it.index() == total ==> found == sole(slots@),
    {
        proof {
            lemma_touched_in(it.seq(), slots@, it.index());
            lemma_touched_in(it.seq(), slots@, it.index() + 1);
            if slot.touching() {
                lemma_sole_steps(it.seq(), slots@, it.index());
            }
        }
        if slot.active {
            if let (Some(x), Some(y)) = (slot.x, slot.y) {
                if found.is_some() {
                    return None;
                }
                found = Some((x, y));
            }
        }
    }
    found
}

/// An event as the kernel reports it: its type, its code and its value.
#[derive(Clone, Copy, Debug)]
pub struct RawEvent {
    pub event_type: u16,
    pub code: u16,
    pub value: i32,
}

/// The type of the events that report an absolute axis.
pub const EV_ABS: u16 = 0x03;

pub const ABS_X: u16 = 0x00;

pub const ABS_Y: u16 = 0x01;

/// Selects the slot that the following events are about.
pub const ABS_MT_SLOT: u16 = 0x2f;

pub const ABS_MT_POSITION_X: u16 = 0x35;

pub const ABS_MT_POSITION_Y: u16 = 0x36;

/// A finger was put down, or lifted where the value is negative.
pub const ABS_MT_TRACKING_ID: u16 = 0x39;

/// The axis that an event reports, if it reports one.
///
/// Calls `evdev::InputEvent::kind` on the event that `evdev::InputEvent::new`
/// makes of the three fields. It is taken to answer `AbsAxis` for the type 3,
/// and for no other, with the code of the event as the axis.
#[verifier::external_body]
fn absolute_axis(event: RawEvent) -> (axis: Option<u16>)
    ensures
        axis == (if event.event_type == EV_ABS {
            Some(event.code)
        } else {
            None
        }),
{
    let kind = evdev::EventType(event.event_type);
    match evdev::InputEvent::new(kind, event.code, event.value).kind() {
        evdev::InputEventKind::AbsAxis(axis) => Some(axis.0),
        _ => None,
    }
}

/// What is known of slot `k`.
pub open spec fn slot_at(slots: Slots, k: i32) -> SlotState {
    if slots.contains_key(k) {
        slots[k]
    } else {
        SlotState::unused()
    }
}

/// What an event of `axis` makes of the slot that it is about.
pub open spec fn slot_after(slot: SlotState, axis: u16, value: i32) -> SlotState {
    if axis == ABS_MT_TRACKING_ID {
        if value >= 0 {
            SlotState { active: true, ..slot }
        } else {
            SlotState::unused()
        }
    } else if axis == ABS_MT_POSITION_X || axis == ABS_X {
        SlotState { x: Some(nearest(value as int, 1)), ..slot }
    } else if axis == ABS_MT_POSITION_Y || axis == ABS_Y {
        SlotState { y: Some(nearest(value as int, 1)), ..slot }
    } else {
        slot
    }
}

/// The event says something about a slot.
pub open spec fn concerns_slot(event: RawEvent) -> bool {
    &&& event.event_type == EV_ABS
    &&& {
        ||| event.code == ABS_MT_SLOT
        ||| event.code == ABS_MT_TRACKING_ID
        ||| event.code == ABS_MT_POSITION_X
        ||| event.code == ABS_X
        ||| event.code == ABS_MT_POSITION_Y
        ||| event.code == ABS_Y
    }
}

/// The slot that is selected after an event.
pub open spec fn selected_after(current: i32, event: RawEvent) -> i32 {
    if event.event_type == EV_ABS && event.code == ABS_MT_SLOT {
        event.value
    } else {
        current
    }
}

/// The slots after an event that came while slot `current` was selected.
pub open spec fn slots_after(slots: Slots, current: i32, event: RawEvent) -> Slots {
    let k = selected_after(current, event);
    if concerns_slot(event) {
        slots.insert(k, slot_after(slot_at(slots, k), event.code, event.value))
    } else {
        slots
    }
}

/// Every position that is known is a number.
pub open spec fn known(slots: Slots) -> bool {
    forall|k: i32| #[trigger]
        slots.contains_key(k) ==> {
            &&& slots[k].x matches Some(x) ==> !x.nan()
            &&& slots[k].y matches Some(y) ==> !y.nan()
        }
}

/// No event makes a position anything but a number.
pub proof fn law_positions_stay_numbers(slots: Slots, current: i32, event: RawEvent)
    requires
        known(slots),
    ensures
        known(slots_after(slots, current, event)),
{
    lemma_integer_rounds(event.value as int);
}

/// An event changes nothing about any slot but the one it is about.
pub proof fn law_events_are_local(slots: Slots, current: i32, event: RawEvent, k: i32)
    requires
        k != selected_after(current, event),
    ensures
        slot_at(slots_after(slots, current, event), k) == slot_at(slots, k),
{
}

/// When a finger is lifted its position is forgotten: the slot counts again only
/// once a finger is down there and both coordinates have been reported anew.
pub proof fn law_lifting_forgets(slots: Slots, current: i32, lift: RawEvent, next: RawEvent)
    requires
        lift.event_type == EV_ABS,
        lift.code == ABS_MT_TRACKING_ID,
        lift.value < 0,
    ensures
        ({
            let lifted = slots_after(slots, current, lift);
            &&& slot_at(lifted, current) == SlotState::unused()
            &&& !slot_at(slots_after(lifted, current, next), current).touching()
        }),
{
}

/// One event puts down or lifts at most one finger.
pub proof fn law_one_finger_at_a_time(slots: Slots, current: i32, event: RawEvent)
    requires
        slots.dom().finite(),
    ensures
        slots_after(slots, current, event).dom().finite(),
        fingers(slots) <= fingers(slots_after(slots, current, event)) + 1,
        fingers(slots_after(slots, current, event)) <= fingers(slots) + 1,
{
    let after = slots_after(slots, current, event);
    let k = selected_after(current, event);
    assert(after.dom().finite());
    assert(touched(slots).finite() && touched(after).finite());
    assert forall|j: i32| touched(after).contains(j) implies touched(slots).insert(k).contains(
        j,
    ) by {}
    assert forall|j: i32| touched(slots).contains(j) implies touched(after).insert(k).contains(
        j,
    ) by {}
    vstd::set_lib::lemma_len_subset(touched(after), touched(slots).insert(k));
    vstd::set_lib::lemma_len_subset(touched(slots), touched(after).insert(k));
}

/// An event sets what it reports and nothing else. One that selects a slot makes it
/// known and leaves it as it is. One that puts a finger down or lifts it changes
/// whether the slot is active, and a lift forgets the position as well. One that
/// reports a coordinate sets that coordinate to the number nearest to the value,
/// which is the value itself up to 24 bits. All other slots stay as they are, and
/// any other event changes nothing.
pub proof fn law_events_set_what_they_report(slots: Slots, current: i32, event: RawEvent)
    ensures
        ({
            let after = slots_after(slots, current, event);
            let next = selected_after(current, event);
            let (kind, code, v) = (event.event_type, event.code, event.value);
            let across = code == 0x35 || code == 0;
            let along = code == 0x36 || code == 1;
            let reports = kind == 3 && (code == 0x2f || code == 0x39 || across || along);
            let (active, x, y) = if slots.contains_key(next) {
                (slots[next].active, slots[next].x, slots[next].y)
            } else {
                (false, None, None)
            };
            let slot = after[next];
            &&& next == (if kind == 3 && code == 0x2f {
                v
            } else {
                current
            })
            &&& !reports ==> after == slots
            &&& reports ==> after.dom() == slots.dom().insert(next)
            &&& forall|k: i32| k != next && slots.contains_key(k) ==> #[trigger] after[k] == slots[k]
            &&& reports && code == 0x2f ==> slot == SlotState { active, x, y }
            &&& reports && code == 0x39 && v >= 0 ==> slot == SlotState { active: true, x, y }
            &&& reports && code == 0x39 && v < 0 ==> !slot.active && slot.x is None && slot.y is None
            &&& reports && across ==> {
                &&& slot.active == active && slot.y == y
                &&& slot.x matches Some(p)
                &&& p.rounds(v as int, 1)
                &&& -0x100_0000 <= v <= 0x100_0000 ==> p.value() == v * pow2(149)
            }
            &&& reports && along ==> {
                &&& slot.active == active && slot.x == x
                &&& slot.y matches Some(p)
                &&& p.rounds(v as int, 1)
                &&& -0x100_0000 <= v <= 0x100_0000 ==> p.value() == v * pow2(149)
            }
        }),
{
    let after = slots_after(slots, current, event);
    let next = selected_after(current, event);
    lemma_integer_rounds(event.value as int);
    if -0x100_0000 <= event.value <= 0x100_0000 {
        law_small_integers_are_exact(event.value as int);
    }
    if concerns_slot(event) {
        assert(after.dom() =~= slots.dom().insert(next));
    }
}

/// Each slot counts on its own: a slot adds one to the number of fingers exactly if
/// it is active and both its coordinates are known, whatever the others are.
pub proof fn law_each_slot_counts_on_its_own(slots: Slots, k: i32, slot: SlotState)
    requires
        slots.dom().finite(),
    ensures
        fingers(Map::empty()) == 0,
        fingers(slots.insert(k, slot)) == fingers(slots.remove(k)) + (if slot.active
            && slot.x is Some && slot.y is Some {
            1nat
        } else {
            0
        }),
{
    let (with, without) = (slots.insert(k, slot), slots.remove(k));
    assert(touched(Map::empty()) =~= Set::empty());
    assert(without.dom().finite() && touched(without).finite());
    if slot.active && slot.x is Some && slot.y is Some {
        assert(touched(with) =~= touched(without).insert(k));
        assert(!touched(without).contains(k));
    } else {
        assert(touched(with) =~= touched(without));
    }
}

/// The position that is found is that of the only finger: it is found where one slot
/// is active with both coordinates known and no other is, and then it is what that
/// slot holds. Where a second one is, or none, nothing is found.
pub proof fn law_position_is_that_of_the_only_finger(slots: Slots, k: i32, j: i32)
    requires
        slots.dom().finite(),
    ensures
        ({
            let down = |i: i32|
                slots.contains_key(i) && slots[i].active && slots[i].x is Some && slots[i].y is Some;
            &&& down(k) && (forall|i: i32| i != k ==> !#[trigger] down(i))
                ==> sole(slots) == Some((slots[k].x->0, slots[k].y->0))
            &&& down(k) && down(j) && j != k ==> sole(slots) is None
            &&& (forall|i: i32| !#[trigger] down(i)) ==> sole(slots) is None
        }),
{
    let down = |i: i32|
        slots.contains_key(i) && slots[i].active && slots[i].x is Some && slots[i].y is Some;
    let all = touched(slots);
    assert(all.finite());
    assert forall|i: i32| #[trigger] all.contains(i) <==> down(i) by {}
    if down(k) && (forall|i: i32| i != k ==> !#[trigger] down(i)) {
        assert(all =~= set![k]);
        assert(all.contains(all.choose()));
    }
    if down(k) && down(j) && j != k {
        vstd::set_lib::lemma_len_subset(set![k, j], all);
        assert(set![k, j].len() == 2);
    }
    if forall|i: i32| !#[trigger] down(i) {
        assert(all =~= Set::empty());
    }
}

/// Takes up an event, and gives the slot that is selected from now on.
pub fn handle_event(
    slots: &mut HashMap<i32, SlotState>,
    current_slot: i32,
    event: RawEvent,
) -> (next: i32)
    ensures
        next == selected_after(current_slot, event),
        final(slots)@ == slots_after(old(slots)@, current_slot, event),
        known(old(slots)@) ==> known(final(slots)@),
{
    broadcast use group_hash_axioms;

    proof {
        if known(slots@) {
            law_positions_stay_numbers(slots@, current_slot, event);
        }
    }
    let mut next = current_slot;
    if let Some(axis) = absolute_axis(event) {
        if axis == ABS_MT_SLOT {
            next = event.value;
            slots.entry(next).or_insert(SlotState::default());
        } else if axis == ABS_MT_TRACKING_ID {
            let slot = slots.entry(next).or_insert(SlotState::default());
            if event.value >= 0 {
                slot.active = true;
            } else {
                slot.active = false;
                slot.x = None;
                slot.y = None;
            }
        } else if axis == ABS_MT_POSITION_X || axis == ABS_X {
            let slot = slots.entry(next).or_insert(SlotState::default());
            slot.x = Some(Binary32::from_i32(event.value));
        } else if axis == ABS_MT_POSITION_Y || axis == ABS_Y {
            let slot = slots.entry(next).or_insert(SlotState::default());
            slot.y = Some(Binary32::from_i32(event.value));
        }
    }
    next
}

} // verus!
