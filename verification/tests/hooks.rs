//! What the input hooks keep.
use chibipop::config::TriggerMode;
use chibipop::geom::PhysPoint;
use chibipop::input::hooks::{
    matches_trigger, modifier_variants, other_side, pack, unpack, Hooks, MouseEvent, NO_POINT,
    WHEEL_DELTA_UNITS,
};

#[test]
fn wheel_notches_bank_their_sub_notch_remainder() {
    let mut hooks = Hooks::default();
    hooks.discard_scroll();

    // Exact multiples: none banked.
    hooks.accumulate_wheel(240);
    assert_eq!(2, hooks.take_whole_notches());
    assert_eq!(0, hooks.take_whole_notches(), "nothing should be left over");

    // Hi-res deltas must add up.
    hooks.accumulate_wheel(40);
    assert_eq!(0, hooks.take_whole_notches(), "40 is not yet a notch");
    hooks.accumulate_wheel(40);
    assert_eq!(0, hooks.take_whole_notches(), "80 is not yet a notch");
    hooks.accumulate_wheel(40);
    assert_eq!(1, hooks.take_whole_notches(), "40+40+40 is one whole notch");
    assert_eq!(0, hooks.take_whole_notches());

    // % keeps the dividend's sign.
    hooks.accumulate_wheel(-140);
    assert_eq!(-1, hooks.take_whole_notches());
    hooks.accumulate_wheel(-100);
    assert_eq!(-1, hooks.take_whole_notches(), "-20 banked plus -100");
    assert_eq!(0, hooks.take_whole_notches());

    // Replacing drops the rest too.
    hooks.accumulate_wheel(80);
    hooks.discard_scroll();
    assert_eq!(0, hooks.take_whole_notches());
}

/// The riskiest line we have.
///
/// Unarmed path: verified live.
#[test]
fn an_armed_wheel_event_is_swallowed_and_banked() {
    let mut hooks = Hooks::default();
    hooks.discard_scroll();
    hooks.set_scroll_armed(true);

    let swallowed = hooks.on_mouse(MouseEvent::Wheel((WHEEL_DELTA_UNITS as u32) << 16));

    assert!(swallowed, "an armed wheel event must be swallowed");
    assert_eq!(1, hooks.take_whole_notches(), "and its delta banked");

    hooks.set_scroll_armed(false);
    hooks.discard_scroll();
}

/// A long stall pins, not wraps.
#[test]
fn a_saturated_accumulator_yields_a_bounded_notch_count() {
    let mut hooks = Hooks::default();
    hooks.discard_scroll();
    hooks.accumulate_wheel(i32::MAX);
    hooks.accumulate_wheel(i32::MAX);
    let notches = hooks.take_whole_notches();
    assert_eq!(i32::MAX / WHEEL_DELTA_UNITS, notches);
    assert!(notches.saturating_mul(4096) > 0, "must not wrap negative");
    hooks.discard_scroll();
}

#[test]
fn matches_trigger_exact_vk() {
    assert!(matches_trigger(0x10, 0x10));
    assert!(matches_trigger(0x70, 0x70));
}

#[test]
fn matches_trigger_shift_variants() {
    // VK_LSHIFT and VK_RSHIFT.
    assert!(matches_trigger(0xA0, 0x10));
    assert!(matches_trigger(0xA1, 0x10));
}

#[test]
fn matches_trigger_ctrl_variants() {
    assert!(matches_trigger(0xA2, 0x11));
    assert!(matches_trigger(0xA3, 0x11));
}

#[test]
fn matches_trigger_alt_variants() {
    assert!(matches_trigger(0xA4, 0x12));
    assert!(matches_trigger(0xA5, 0x12));
}

#[test]
fn matches_trigger_unrelated_vk() {
    assert!(!matches_trigger(0x41, 0x10));
    assert!(!matches_trigger(0x70, 0x10));
}

#[test]
fn matches_trigger_arbitrary_letter_key() {
    assert!(matches_trigger(0x41, 0x41));
    assert!(!matches_trigger(0x42, 0x41));
}

#[test]
fn modifier_variants_known() {
    assert_eq!(Some((0xA0, 0xA1)), modifier_variants(0x10));
    assert_eq!(Some((0xA2, 0xA3)), modifier_variants(0x11));
    assert_eq!(Some((0xA4, 0xA5)), modifier_variants(0x12));
}

#[test]
fn modifier_variants_f_key_has_none() {
    assert_eq!(None, modifier_variants(0x70));
}

fn at(x: i32, y: i32) -> PhysPoint {
    PhysPoint { x, y }
}

#[test]
fn a_point_survives_packing() {
    for p in [at(0, 0), at(-1, -1), at(i32::MAX, i32::MIN), at(i32::MIN, 1), at(-5, 7)] {
        assert_eq!(unpack(pack(p)), p);
        assert_ne!(pack(p), NO_POINT);
    }
    assert_eq!(pack(at(i32::MIN, 0)), NO_POINT, "the one point that cannot be told apart");
}

#[test]
fn a_candidate_is_handed_out_once() {
    let mut hooks = Hooks::default();
    assert!(!hooks.on_mouse(MouseEvent::Move(at(10, 10))));
    assert_eq!(hooks.take_pending(), Some(at(10, 10)));
    assert_eq!(hooks.take_pending(), None);
    hooks.on_mouse(MouseEvent::Move(at(14, 6)));
    assert_eq!(hooks.take_pending(), None, "four pixels are no move");
    hooks.on_mouse(MouseEvent::Move(at(15, 10)));
    assert_eq!(hooks.take_pending(), Some(at(15, 10)));
    assert!(!hooks.poll_gate(at(15, 10)));
    assert!(hooks.poll_gate(at(15, 15)));
    assert_eq!(hooks.take_pending(), None, "a poll leaves no candidate");
}

#[test]
fn hold_mode_waits_for_its_key() {
    for mode in [TriggerMode::HoldKey, TriggerMode::HoldShift] {
        let mut hooks = Hooks::default();
        hooks.set_mode(mode);
        hooks.on_mouse(MouseEvent::Move(at(10, 10)));
        assert_eq!(hooks.take_pending(), None);
        assert!(!hooks.poll_gate(at(10, 10)));
        hooks.record_key_state(0xA0, true, false);
        hooks.on_mouse(MouseEvent::Move(at(10, 10)));
        assert_eq!(hooks.pending, pack(at(10, 10)));
        hooks.record_key_state(0xA0, false, true);
        assert!(hooks.key_down, "the other Shift is still held");
        assert!(!hooks.take_hide());
        hooks.record_key_state(0xA1, false, false);
        assert!(!hooks.key_down);
        assert!(hooks.take_hide());
        assert!(!hooks.take_hide());
        assert_eq!(hooks.take_pending(), None, "letting go drops the candidate");
    }
}

#[test]
fn live_mode_hides_nothing_on_a_released_key() {
    let mut hooks = Hooks::default();
    hooks.set_mode(TriggerMode::Live);
    hooks.set_trigger_key(0x41);
    hooks.on_mouse(MouseEvent::Move(at(1, 2)));
    hooks.record_key_state(0x42, true, false);
    assert!(!hooks.key_down, "another key");
    hooks.record_key_state(0x41, true, false);
    assert!(hooks.key_down);
    hooks.record_key_state(0x41, false, true);
    assert!(!hooks.key_down, "a letter has no other side");
    assert!(!hooks.take_hide());
    assert_eq!(hooks.take_pending(), Some(at(1, 2)));
}

#[test]
fn the_other_side_is_asked_for_modifiers_only() {
    assert_eq!(other_side(0xA2, 0x11), Some(0xA3));
    assert_eq!(other_side(0xA3, 0x11), Some(0xA2));
    assert_eq!(other_side(0x11, 0x11), None);
    assert_eq!(other_side(0x41, 0x41), None);
}

#[test]
fn only_an_armed_click_is_swallowed() {
    let mut hooks = Hooks::default();
    assert!(!hooks.on_mouse(MouseEvent::Press(at(3, 4))));
    assert!(!hooks.on_mouse(MouseEvent::Wheel(120 << 16)));
    assert_eq!((hooks.take_click(), hooks.take_whole_notches()), (None, 0));
    hooks.set_click_armed(true);
    assert!(hooks.on_mouse(MouseEvent::Press(at(3, 4))));
    assert_eq!(hooks.take_click(), Some(at(3, 4)));
    assert_eq!(hooks.take_click(), None);
    hooks.set_scroll_armed(true);
    assert!(hooks.scroll_armed());
    assert!(hooks.on_mouse(MouseEvent::Wheel(0xFF88_0000)), "120 units towards the user");
    assert_eq!(hooks.take_whole_notches(), -1);
}
