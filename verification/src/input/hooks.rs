//! Machine-wide input.
//!
//! A hook hands each event in, and the popup's thread takes out what came of
//! it. Only an armed wheel or click is swallowed, and no keystroke is kept.
use crate::config::TriggerMode;
use crate::geom::{trunc_div, PhysPoint};
use vstd::prelude::*;

verus! {

/// How far the pointer must move, physical px.
pub const MOVEMENT_GATE_PX: i64 = 4;

/// "No point stored" sentinel.
pub const NO_POINT: i64 = i64::MIN;

/// One wheel notch.
pub const WHEEL_DELTA_UNITS: i32 = 120;

/// The key code of Shift.
pub const VK_SHIFT: u16 = 0x10;

/// A point in one word, so that a read never tears.
pub open spec fn packed(p: PhysPoint) -> i64 {
    ((p.x as i64) << 32) | (p.y as u32 as i64)
}

/// The point in a word.
pub open spec fn unpacked(v: i64) -> PhysPoint {
    PhysPoint { x: (v >> 32) as i32, y: v as i32 }
}

/// A packed point reads back.
pub proof fn a_point_survives_packing(p: PhysPoint)
    ensures
        unpacked(packed(p)) == p,
{
    let x = p.x;
    let y = p.y;
    assert(((((x as i64) << 32) | (y as u32 as i64)) >> 32) as i32 == x) by (bit_vector);
    assert((((x as i64) << 32) | (y as u32 as i64)) as i32 == y) by (bit_vector);
}

/// Only the point farthest left, on the top line, packs to the word that
/// stands for no point.
pub proof fn one_point_is_taken_for_none(p: PhysPoint)
    ensures
        packed(p) == NO_POINT <==> p.x == i32::MIN && p.y == 0,
{
    let x = p.x;
    let y = p.y;
    assert((((x as i64) << 32) | (y as u32 as i64)) == -0x8000_0000_0000_0000i64 <==> x
        == -0x8000_0000i32 && y == 0) by (bit_vector);
}

/// The point that a word stores, if it stores one.
pub open spec fn stored(v: i64) -> Option<PhysPoint> {
    if v == NO_POINT {
        None
    } else {
        Some(unpacked(v))
    }
}

pub fn pack(p: PhysPoint) -> (r: i64)
    ensures
        r == packed(p),
        unpacked(r) == p,
{
    proof {
        a_point_survives_packing(p);
    }
    ((p.x as i64) << 32) | (p.y as u32 as i64)
}

pub fn unpack(v: i64) -> (r: PhysPoint)
    ensures
        r == unpacked(v),
{
    PhysPoint { x: (v >> 32) as i32, y: v as i32 }
}

fn taken(v: i64) -> (r: Option<PhysPoint>)
    ensures
        r == stored(v),
{
    if v == NO_POINT {
        None
    } else {
        Some(unpack(v))
    }
}

/// The left and right codes of a modifier.
pub open spec fn sides(vk: u16) -> Option<(u16, u16)> {
    if vk == 0x10 {
        Some((0xA0, 0xA1))
    } else if vk == 0x11 {
        Some((0xA2, 0xA3))
    } else if vk == 0x12 {
        Some((0xA4, 0xA5))
    } else {
        None
    }
}

/// Is a key the trigger, or one of its sides?
pub open spec fn triggers(vk: u16, target: u16) -> bool {
    vk == target || (sides(target) matches Some(s) && (vk == s.0 || vk == s.1))
}

/// Left/right VK for a modifier.
pub fn modifier_variants(vk: u16) -> (r: Option<(u16, u16)>)
    ensures
        r == sides(vk),
{
    match vk {
        0x10 => Some((0xA0, 0xA1)),
        0x11 => Some((0xA2, 0xA3)),
        0x12 => Some((0xA4, 0xA5)),
        _ => None,
    }
}

/// Does this event match the key?
pub fn matches_trigger(vk: u16, target: u16) -> (r: bool)
    ensures
        r == triggers(vk, target),
{
    if vk == target {
        return true;
    }
    match modifier_variants(target) {
        Some((left, right)) => vk == left || vk == right,
        None => false,
    }
}

/// The other side of a modifier, where a key is one side of the trigger.
pub open spec fn opposite(vk: u16, target: u16) -> Option<u16> {
    match sides(target) {
        Some(s) => if vk == s.0 {
            Some(s.1)
        } else if vk == s.1 {
            Some(s.0)
        } else {
            None
        },
        None => None,
    }
}

/// The key that may still be held when a key goes up.
pub fn other_side(vk: u16, target: u16) -> (r: Option<u16>)
    ensures
        r == opposite(vk, target),
{
    match modifier_variants(target) {
        Some((left, right)) => if vk == left {
            Some(right)
        } else if vk == right {
            Some(left)
        } else {
            None
        },
        None => None,
    }
}

/// A number of wheel units brought into what can be banked.
pub open spec fn banked(n: int) -> int {
    if n > i32::MAX {
        i32::MAX as int
    } else if n < i32::MIN {
        i32::MIN as int
    } else {
        n
    }
}

/// Is a point far enough from the last one to count?
pub open spec fn gate_opens(last: Option<PhysPoint>, p: PhysPoint) -> bool {
    match last {
        None => true,
        Some(l) => p.x - l.x > 4 || l.x - p.x > 4 || p.y - l.y > 4 || l.y - p.y > 4,
    }
}

/// What the hooks know.
#[derive(Debug, Clone, Copy, PartialEq, Eq, Structural)]
pub struct Hooks {
    /// Last point that counted as a move.
    pub last_accepted: i64,
    /// The one candidate, if any.
    pub pending: i64,
    /// The configured trigger vkcode.
    pub trigger_vk: u16,
    /// Whether the trigger key is held.
    pub key_down: bool,
    /// Key went up: drop the popup.
    pub hide_pending: bool,
    /// Stuck true kills every wheel, so it is reset each tick.
    pub scroll_armed: bool,
    /// Delta banked while armed.
    pub pending_scroll: i32,
    /// Clicks on the popup area.
    pub click_armed: bool,
    /// Screen coords of the click.
    pub pending_click: i64,
    /// Does only a held key look up?
    pub hold: bool,
}

/// A mouse event.
#[derive(Debug, Clone, Copy, PartialEq, Eq, Structural)]
pub enum MouseEvent {
    Move(PhysPoint),
    /// The wheel turned; the high half of the word is how far.
    Wheel(u32),
    Press(PhysPoint),
}

/// How far a wheel event's word says that the wheel turned.
pub open spec fn wheel_delta(data: u32) -> i32 {
    ((data >> 16) as u16) as i16 as i32
}

/// Whether a mouse event is kept from everything behind the hook.
pub open spec fn swallowed(h: Hooks, e: MouseEvent) -> bool {
    match e {
        MouseEvent::Move(_) => false,
        MouseEvent::Wheel(_) => h.scroll_armed,
        MouseEvent::Press(_) => h.click_armed,
    }
}

/// What the hooks know after a move.
pub open spec fn after_move(h: Hooks, p: PhysPoint) -> Hooks {
    if (!h.hold || h.key_down) && gate_opens(stored(h.last_accepted), p) {
        Hooks { last_accepted: packed(p), pending: packed(p), ..h }
    } else {
        h
    }
}

/// What the hooks know after a mouse event.
pub open spec fn after_mouse(h: Hooks, e: MouseEvent) -> Hooks {
    match e {
        MouseEvent::Move(p) => after_move(h, p),
        MouseEvent::Wheel(data) => if h.scroll_armed {
            Hooks { pending_scroll: banked(h.pending_scroll + wheel_delta(data)) as i32, ..h }
        } else {
            h
        },
        MouseEvent::Press(p) => if h.click_armed {
            Hooks { pending_click: packed(p), ..h }
        } else {
            h
        },
    }
}

/// What the hooks know after a key event. `other_held` says whether the other
/// side of a modifier is still down.
pub open spec fn after_key(h: Hooks, vk: u16, down: bool, other_held: bool) -> Hooks {
    if !triggers(vk, h.trigger_vk) {
        h
    } else if down {
        Hooks { key_down: true, ..h }
    } else if opposite(vk, h.trigger_vk) is Some && other_held {
        h
    } else if h.hold {
        Hooks {
            key_down: false,
            last_accepted: NO_POINT,
            pending: NO_POINT,
            hide_pending: true,
            ..h
        }
    } else {
        Hooks { key_down: false, ..h }
    }
}

impl Default for Hooks {
    fn default() -> (r: Self)
        ensures
            r == (Hooks {
                last_accepted: NO_POINT,
                pending: NO_POINT,
                trigger_vk: VK_SHIFT,
                key_down: false,
                hide_pending: false,
                scroll_armed: false,
                pending_scroll: 0,
                click_armed: false,
                pending_click: NO_POINT,
                hold: false,
            }),
    {
        Hooks {
            last_accepted: NO_POINT,
            pending: NO_POINT,
            trigger_vk: VK_SHIFT,
            key_down: false,
            hide_pending: false,
            scroll_armed: false,
            pending_scroll: 0,
            click_armed: false,
            pending_click: NO_POINT,
            hold: false,
        }
    }
}

impl Hooks {
    /// Whether a move may count now.
    fn eligible(&self) -> (r: bool)
        ensures
            r == (!self.hold || self.key_down),
    {
        !self.hold || self.key_down
    }

    fn gate_open(&self, p: PhysPoint) -> (r: bool)
        ensures
            r == gate_opens(stored(self.last_accepted), p),
    {
        match taken(self.last_accepted) {
            None => true,
            Some(l) => {
                let dx: i64 = p.x as i64 - l.x as i64;
                let dy: i64 = p.y as i64 - l.y as i64;
                dx > MOVEMENT_GATE_PX || -dx > MOVEMENT_GATE_PX || dy > MOVEMENT_GATE_PX || -dy
                    > MOVEMENT_GATE_PX
            },
        }
    }

    /// Takes a mouse event in. Says whether it is swallowed.
    pub fn on_mouse(&mut self, event: MouseEvent) -> (r: bool)
        ensures
            r == swallowed(*old(self), event),
            *final(self) == after_mouse(*old(self), event),
    {
        match event {
            MouseEvent::Move(p) => {
                self.record_mouse_move(p);
                false
            },
            MouseEvent::Wheel(data) => {
                if !self.scroll_armed {
                    return false;
                }
                self.accumulate_wheel(((data >> 16) as u16) as i16 as i32);
                true
            },
            MouseEvent::Press(p) => {
                if !self.click_armed {
                    return false;
                }
                self.pending_click = pack(p);
                true
            },
        }
    }

    /// Mouse hook's per-event work.
    pub fn record_mouse_move(&mut self, p: PhysPoint)
        ensures
            *final(self) == after_move(*old(self), p),
    {
        if self.eligible() && self.gate_open(p) {
            let word = pack(p);
            self.last_accepted = word;
            self.pending = word;
        }
    }

    /// Tracks the configured key, from the event, not the state.
    pub fn record_key_state(&mut self, vk: u16, down: bool, other_held: bool)
        ensures
            *final(self) == after_key(*old(self), vk, down, other_held),
    {
        if !matches_trigger(vk, self.trigger_vk) {
            return ;
        }
        if down {
            self.key_down = true;
            return ;
        }
        let still_held = other_side(vk, self.trigger_vk).is_some() && other_held;
        if !still_held {
            self.key_down = false;
            if self.hold {
                self.last_accepted = NO_POINT;
                self.pending = NO_POINT;
                self.hide_pending = true;
            }
        }
    }

    /// Banks one event's delta. A long stall pins, not wraps.
    pub fn accumulate_wheel(&mut self, delta: i32)
        ensures
            *final(self) == (Hooks {
                pending_scroll: banked(old(self).pending_scroll + delta) as i32,
                ..*old(self)
            }),
    {
        let sum: i64 = self.pending_scroll as i64 + delta as i64;
        self.pending_scroll = if sum > i32::MAX as i64 {
            i32::MAX
        } else if sum < i32::MIN as i64 {
            i32::MIN
        } else {
            sum as i32
        };
    }

    /// Arms/disarms wheel capture.
    pub fn set_scroll_armed(&mut self, armed: bool)
        ensures
            *final(self) == (Hooks { scroll_armed: armed, ..*old(self) }),
    {
        self.scroll_armed = armed;
    }

    /// Whether capture is armed.
    pub fn scroll_armed(&self) -> (r: bool)
        ensures
            r == self.scroll_armed,
    {
        self.scroll_armed
    }

    /// Did the trigger key come up?
    ///
    /// Hold mode gates moves off, so no move can retract the popup.
    pub fn take_hide(&mut self) -> (r: bool)
        ensures
            r == old(self).hide_pending,
            *final(self) == (Hooks { hide_pending: false, ..*old(self) }),
    {
        let came_up = self.hide_pending;
        self.hide_pending = false;
        came_up
    }

    /// Sets the trigger vkcode.
    pub fn set_trigger_key(&mut self, vk: u16)
        ensures
            *final(self) == (Hooks { trigger_vk: vk, ..*old(self) }),
    {
        self.trigger_vk = vk;
    }

    /// Takes whole notches only. The sub-notch rest stays banked.
    pub fn take_whole_notches(&mut self) -> (r: i32)
        ensures
            r == trunc_div(old(self).pending_scroll as int, WHEEL_DELTA_UNITS as int),
            *final(self) == (Hooks {
                pending_scroll: (old(self).pending_scroll - r * WHEEL_DELTA_UNITS) as i32,
                ..*old(self)
            }),
            old(self).pending_scroll == r * WHEEL_DELTA_UNITS + final(self).pending_scroll,
            -WHEEL_DELTA_UNITS < final(self).pending_scroll < WHEEL_DELTA_UNITS,
    {
        let whole = crate::geom::div_i32(self.pending_scroll, WHEEL_DELTA_UNITS);
        self.pending_scroll = (self.pending_scroll as i64 - whole as i64 * 120) as i32;
        whole
    }

    /// Drops everything accumulated.
    pub fn discard_scroll(&mut self)
        ensures
            *final(self) == (Hooks { pending_scroll: 0, ..*old(self) }),
    {
        self.pending_scroll = 0;
    }

    /// Arms/disarms click capture.
    pub fn set_click_armed(&mut self, armed: bool)
        ensures
            *final(self) == (Hooks { click_armed: armed, ..*old(self) }),
    {
        self.click_armed = armed;
    }

    /// Takes the banked click, once.
    pub fn take_click(&mut self) -> (r: Option<PhysPoint>)
        ensures
            r == stored(old(self).pending_click),
            *final(self) == (Hooks { pending_click: NO_POINT, ..*old(self) }),
    {
        let v = self.pending_click;
        self.pending_click = NO_POINT;
        taken(v)
    }

    /// Sets the gating mode.
    pub fn set_mode(&mut self, m: TriggerMode)
        ensures
            *final(self) == (Hooks { hold: m != TriggerMode::Live, ..*old(self) }),
    {
        self.hold = m != TriggerMode::Live;
    }

    /// Takes the candidate point. It is never handed out twice.
    pub fn take_pending(&mut self) -> (r: Option<PhysPoint>)
        ensures
            r == stored(old(self).pending),
            *final(self) == (Hooks { pending: NO_POINT, ..*old(self) }),
    {
        let v = self.pending;
        self.pending = NO_POINT;
        taken(v)
    }

    /// Polled fallback for a move.
    pub fn poll_gate(&mut self, p: PhysPoint) -> (r: bool)
        ensures
            r == ((!old(self).hold || old(self).key_down) && gate_opens(
                stored(old(self).last_accepted),
                p,
            )),
            *final(self) == (if r {
                Hooks { last_accepted: packed(p), ..*old(self) }
            } else {
                *old(self)
            }),
    {
        if !self.eligible() {
            return false;
        }
        let open = self.gate_open(p);
        if open {
            self.last_accepted = pack(p);
        }
        open
    }
}

/// While only a held key looks up, a pointer move asks for nothing unless the
/// key is down.
pub proof fn a_hold_mode_waits_for_its_key(h: Hooks, p: PhysPoint)
    requires
        h.hold,
        !h.key_down,
    ensures
        after_mouse(h, MouseEvent::Move(p)) == h,
{
}

/// Letting the trigger go in hold mode drops the popup and the candidate.
pub proof fn releasing_the_key_drops_the_candidate(h: Hooks, vk: u16)
    requires
        h.hold,
        triggers(vk, h.trigger_vk),
    ensures
        ({
            let after = after_key(h, vk, false, false);
            after.hide_pending && stored(after.pending) is None && !after.key_down
        }),
{
}

/// No event is swallowed unless its capture is armed.
pub proof fn only_an_armed_event_is_swallowed(h: Hooks, e: MouseEvent)
    requires
        !h.scroll_armed,
        !h.click_armed,
    ensures
        !swallowed(h, e),
        e is Wheel || e is Press ==> after_mouse(h, e) == h,
{
}

/// A move counts where the pointer stands more than four pixels off the last
/// point that counted, on either axis, and the mode lets it; it is then the
/// candidate, and the next move is measured from it.
pub proof fn a_move_counts_beyond_four_pixels(h: Hooks, last: PhysPoint, p: PhysPoint)
    requires
        !h.hold || h.key_down,
        h.last_accepted == packed(last),
        h.last_accepted != NO_POINT,
        packed(p) != NO_POINT,
    ensures
        ({
            let far = p.x - last.x > 4 || last.x - p.x > 4 || p.y - last.y > 4 || last.y - p.y > 4;
            let after = after_mouse(h, MouseEvent::Move(p));
            &&& far ==> stored(after.pending) == Some(p) && stored(after.last_accepted) == Some(p)
            &&& !far ==> after == h
        }),
{
    a_point_survives_packing(last);
    a_point_survives_packing(p);
}

/// The first point of all counts.
pub proof fn the_first_point_counts(h: Hooks, p: PhysPoint)
    requires
        !h.hold || h.key_down,
        h.last_accepted == NO_POINT,
        packed(p) != NO_POINT,
    ensures
        stored(after_mouse(h, MouseEvent::Move(p)).pending) == Some(p),
{
    a_point_survives_packing(p);
}

/// The two sides of a modifier are each other's other side, and each of them is
/// the modifier.
pub proof fn two_sides_are_one_modifier(vk: u16, target: u16)
    ensures
        opposite(vk, target) matches Some(o) ==> {
            &&& o != vk
            &&& opposite(o, target) == Some(vk)
            &&& triggers(vk, target)
            &&& triggers(o, target)
        },
        triggers(target, target),
        triggers(vk, target) && opposite(vk, target) is None ==> vk == target,
{
}

/// Shift, Control and Alt have a left and a right key, and no other key has.
pub proof fn three_keys_have_two_sides(vk: u16)
    ensures
        sides(vk) is Some <==> vk == 0x10 || vk == 0x11 || vk == 0x12,
        sides(vk) matches Some(s) ==> s.0 == 0xA0 + 2 * (vk - 0x10) && s.1 == s.0 + 1,
{
}

/// A modifier stays down while either of its sides is held, goes down with its
/// key, and no other key changes it.
pub proof fn a_key_is_down_while_a_side_is_held(h: Hooks, vk: u16, down: bool, other_held: bool)
    ensures
        ({
            let after = after_key(h, vk, down, other_held);
            let side = opposite(vk, h.trigger_vk) is Some;
            &&& !triggers(vk, h.trigger_vk) ==> after == h
            &&& triggers(vk, h.trigger_vk) && down ==> after.key_down && after.pending == h.pending
            &&& triggers(vk, h.trigger_vk) && !down && side && other_held ==> after == h
            &&& triggers(vk, h.trigger_vk) && !down && !(side && other_held) ==> !after.key_down
            &&& !h.hold ==> after.pending == h.pending && after.hide_pending == h.hide_pending
        }),
{
}

/// A wheel turn adds up while capture is armed, and a sum that cannot be held
/// stays at the end of the range.
pub proof fn wheel_turns_add_up(h: Hooks, data: u32)
    requires
        h.scroll_armed,
    ensures
        ({
            let after = after_mouse(h, MouseEvent::Wheel(data));
            let sum = h.pending_scroll + wheel_delta(data);
            &&& i32::MIN <= sum <= i32::MAX ==> after.pending_scroll == sum
            &&& sum > i32::MAX ==> after.pending_scroll == i32::MAX
            &&& sum < i32::MIN ==> after.pending_scroll == i32::MIN
            &&& swallowed(h, MouseEvent::Wheel(data))
        }),
{
}

/// The high half of a wheel event's word is the turn, with its sign.
pub proof fn a_wheel_word_holds_the_turn(d: i16, low: u16)
    ensures
        wheel_delta((((d as u16) as u32) << 16) | (low as u32)) == d,
{
    assert(((((((d as u16) as u32) << 16) | (low as u32)) >> 16) as u16) as i16 == d) by (bit_vector);
}

/// A press on the armed popup is swallowed and kept; an unarmed one is neither.
pub proof fn an_armed_press_is_kept(h: Hooks, p: PhysPoint)
    requires
        packed(p) != NO_POINT,
    ensures
        h.click_armed ==> swallowed(h, MouseEvent::Press(p)) && stored(
            after_mouse(h, MouseEvent::Press(p)).pending_click,
        ) == Some(p),
        !h.click_armed ==> !swallowed(h, MouseEvent::Press(p)) && after_mouse(h, MouseEvent::Press(p))
            == h,
        !swallowed(h, MouseEvent::Move(p)),
{
    a_point_survives_packing(p);
}

} // verus!
