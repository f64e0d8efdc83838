use inertia::binary32::Binary32;
use inertia::touch::{
    count_fingers, handle_event, sole_position, RawEvent, SlotState, ABS_MT_POSITION_X,
    ABS_MT_POSITION_Y, ABS_MT_SLOT, ABS_MT_TRACKING_ID, ABS_X, ABS_Y, EV_ABS,
};
use std::collections::HashMap;

fn abs(code: u16, value: i32) -> RawEvent {
    RawEvent { event_type: EV_ABS, code, value }
}

fn b(v: f32) -> Binary32 {
    Binary32 { bits: v.to_bits() }
}

#[test]
fn codes_are_those_of_the_kernel() {
    assert_eq!(EV_ABS, evdev::EventType::ABSOLUTE.0);
    assert_eq!(ABS_X, evdev::AbsoluteAxisType::ABS_X.0);
    assert_eq!(ABS_Y, evdev::AbsoluteAxisType::ABS_Y.0);
    assert_eq!(ABS_MT_SLOT, evdev::AbsoluteAxisType::ABS_MT_SLOT.0);
    assert_eq!(ABS_MT_POSITION_X, evdev::AbsoluteAxisType::ABS_MT_POSITION_X.0);
    assert_eq!(ABS_MT_POSITION_Y, evdev::AbsoluteAxisType::ABS_MT_POSITION_Y.0);
    assert_eq!(ABS_MT_TRACKING_ID, evdev::AbsoluteAxisType::ABS_MT_TRACKING_ID.0);
}

#[test]
fn fingers_are_followed_by_slot() {
    let mut slots = HashMap::new();
    let mut at = 0;
    at = handle_event(&mut slots, at, abs(ABS_MT_TRACKING_ID, 17));
    assert_eq!(at, 0);
    assert_eq!(count_fingers(&slots), 0);
    at = handle_event(&mut slots, at, abs(ABS_MT_POSITION_X, 300));
    at = handle_event(&mut slots, at, abs(ABS_MT_POSITION_Y, -4));
    assert_eq!(count_fingers(&slots), 1);
    assert_eq!(sole_position(&slots), Some((b(300.0), b(-4.0))));
    at = handle_event(&mut slots, at, abs(ABS_MT_SLOT, 3));
    assert_eq!(at, 3);
    assert_eq!(slots[&3], SlotState::default());
    at = handle_event(&mut slots, at, abs(ABS_MT_TRACKING_ID, 0));
    at = handle_event(&mut slots, at, abs(ABS_X, 16_777_217));
    at = handle_event(&mut slots, at, abs(ABS_Y, 9));
    assert_eq!(slots[&3].x, Some(b(16_777_216.0)));
    assert_eq!(count_fingers(&slots), 2);
    assert_eq!(sole_position(&slots), None);
    at = handle_event(&mut slots, at, abs(ABS_MT_SLOT, 0));
    at = handle_event(&mut slots, at, abs(ABS_MT_TRACKING_ID, -1));
    assert_eq!(slots[&0], SlotState::default());
    assert_eq!(sole_position(&slots), Some((b(16_777_216.0), b(9.0))));
    handle_event(&mut slots, at, abs(ABS_MT_TRACKING_ID, 18));
    assert_eq!(count_fingers(&slots), 1);
}

#[test]
fn other_events_change_nothing() {
    let mut slots = HashMap::new();
    for event_type in [0u16, 1, 2, 4, 5, 0x11, 0x12, 0x15, 0x17, 0x101, 0x77] {
        let at = handle_event(&mut slots, 5, RawEvent { event_type, code: ABS_MT_SLOT, value: 1 });
        assert_eq!(at, 5);
    }
    for code in [0x18u16, 0x30, 0x34, 0x3a, 0xffff] {
        assert_eq!(handle_event(&mut slots, 5, abs(code, 1)), 5);
    }
    assert!(slots.is_empty());
}

#[test]
fn no_finger_has_no_position() {
    let mut slots: HashMap<i32, SlotState> = HashMap::new();
    assert_eq!(sole_position(&slots), None);
    slots.insert(1, SlotState { active: true, x: Some(b(1.0)), y: None });
    slots.insert(2, SlotState { active: false, x: Some(b(1.0)), y: Some(b(2.0)) });
    assert_eq!(count_fingers(&slots), 0);
    assert_eq!(sole_position(&slots), None);
    slots.insert(9, SlotState { active: true, x: Some(b(7.0)), y: Some(b(8.0)) });
    assert_eq!(sole_position(&slots), Some((b(7.0), b(8.0))));
}

#[test]
fn events_touch_one_slot_only() {
    let mut slots = HashMap::new();
    let mut seed: u64 = 9;
    let mut at = 0;
    for _ in 0..3000 {
        seed = seed.wrapping_mul(6364136223846793005).wrapping_add(1442695040888963407);
        let codes = [ABS_X, ABS_Y, ABS_MT_SLOT, ABS_MT_TRACKING_ID, ABS_MT_POSITION_X, 0x3a];
        let code = codes[(seed >> 33) as usize % codes.len()];
        let value = (seed >> 50) as i32 % 4 - 1;
        let before = slots.clone();
        at = handle_event(&mut slots, at, abs(code, value));
        for k in -2..4 {
            if k != at {
                assert_eq!(slots.get(&k), before.get(&k));
            }
        }
        assert!(count_fingers(&slots).abs_diff(count_fingers(&before)) <= 1);
        for s in slots.values() {
            assert!(!s.x.map_or(false, |x| x.is_nan()) && !s.y.map_or(false, |y| y.is_nan()));
        }
    }
}
