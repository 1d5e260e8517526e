//! The pointer gesture state machine for glossary selection.
//!
//! This module owns timing, click stages, and drag transitions without
//! reading controller state. The controller supplies an [`ItemSource`] for
//! the current Card and applies the returned effects to platform commands.
use super::addr::{DocAddr, DocRange, NodePath, SelRange, TextAddr};
use super::{alone, rows_of, toggled, CardSelection};
use crate::geom::PhysPoint;
use crate::present::Card;
use vstd::prelude::*;

verus! {

/// The physical pointer button role that a gesture receives.
#[derive(Debug, Clone, Copy, PartialEq, Eq, Structural)]
pub enum Button {
    Primary,
    Secondary,
}

/// The resolution stage for a click or drag endpoint.
///
/// Grapheme resolution also supplies the snapping boundary for a drag. The
/// other stages match the progressively larger items in a click chain.
#[derive(Debug, Clone, Copy, PartialEq, Eq, Structural)]
pub enum GestureStage {
    Grapheme,
    Word,
    Sense,
    Entry,
}

/// The short name is useful in table-driven resolvers.
pub type Stage = GestureStage;

/// The payload for a pointer press.
#[derive(Debug, Clone, Copy, PartialEq, Eq, Structural)]
pub struct PressInput {
    pub addr: Option<TextAddr>,
    pub link: bool,
    pub button: Button,
    pub local: PhysPoint,
    pub tick: u64,
}

/// Input to [`Gesture::handle`].
#[derive(Debug, Clone, Copy, PartialEq, Eq)]
pub enum GestureInput {
    Press(PressInput),
    Move { addr: Option<TextAddr>, local: PhysPoint, tick: u64 },
    Release { button: Button, local: PhysPoint, tick: u64 },
    Tick { tick: u64 },
    Analysis,
}

/// Values that the controller converts into commands.
#[derive(Debug, Clone, Copy, PartialEq, Eq)]
pub enum GestureEffect {
    Repaint,
    OpenLink,
    DragStarted,
    DragEnded,
    NeedWord { entry: u32, path: NodePath, byte: u32 },
}

/// Timing and selection settings for one gesture.
#[derive(Debug, Clone, Copy, PartialEq, Eq, Structural)]
pub struct GestureEnv {
    /// The inclusive number of ticks in a click chain.
    pub chain_ticks: u64,
    /// The physical movement that changes a click into a drag.
    pub threshold_px: i32,
    /// Whether the physical primary button adds instead of replacing.
    pub primary_additive: bool,
}

/// Resolves a text address into one selectable item.
pub struct ItemSource<F: Fn(GestureStage, TextAddr) -> Option<SelRange>> {
    pub resolver: F,
}

impl<F: Fn(GestureStage, TextAddr) -> Option<SelRange>> ItemSource<F> {
    /// Can every address be asked for?
    pub open spec fn total(self) -> bool {
        forall|stage: GestureStage, addr: TextAddr| call_requires(self.resolver, (stage, addr))
    }

    /// Is an answer one that the source gives?
    pub open spec fn gives(self, ask: Option<(GestureStage, TextAddr)>, answer: Option<SelRange>) -> bool {
        match ask {
            Some((stage, addr)) => call_ensures(self.resolver, (stage, addr), answer),
            None => answer is None,
        }
    }

    /// Builds a resolver from a function.
    pub fn from_fn(resolver: F) -> (r: Self)
        ensures
            r.resolver == resolver,
    {
        ItemSource { resolver }
    }

    /// Resolves one endpoint at the requested stage.
    pub fn item(&self, stage: GestureStage, addr: TextAddr) -> (r: Option<SelRange>)
        requires
            self.total(),
        ensures
            self.gives(Some((stage, addr)), r),
    {
        (self.resolver)(stage, addr)
    }

    /// Asks for an item where there is one to ask for.
    fn answer(&self, ask: Option<(GestureStage, TextAddr)>) -> (r: Option<SelRange>)
        requires
            self.total(),
        ensures
            self.gives(ask, r),
    {
        match ask {
            Some((stage, addr)) => self.item(stage, addr),
            None => None,
        }
    }
}

/// What the tree of a row, and its analysis, tell of one address.
#[derive(Debug, PartialEq, Eq)]
pub struct RowRanges {
    /// The grapheme at the address.
    pub grapheme: Option<DocRange>,
    /// The text of the leaf at the address.
    pub leaf: String,
    /// The bytes of the word at the address, once there is an analysis.
    pub word: Option<(u32, u32)>,
    /// The sense around the address.
    pub sense: Option<DocRange>,
    /// All that can be selected in the row.
    pub extent: Option<DocRange>,
}

/// The range of a word of one leaf. In an empty leaf, for an empty word, or
/// before the analysis there is none.
pub open spec fn range_of_word(path: NodePath, leaf: Seq<char>, word: Option<(u32, u32)>) -> Option<
    DocRange,
> {
    match word {
        Some((start, end)) => if leaf.len() == 0 || start == end {
            None
        } else {
            Some(
                DocRange {
                    start: DocAddr { path, byte: start },
                    end: DocAddr { path, byte: end },
                },
            )
        },
        None => None,
    }
}

/// The range of a row that a stage takes at an address.
pub open spec fn range_at(stage: GestureStage, addr: TextAddr, row: RowRanges) -> Option<DocRange> {
    match stage {
        GestureStage::Grapheme => row.grapheme,
        GestureStage::Word => range_of_word(addr.addr.path, row.leaf@, row.word),
        GestureStage::Sense => row.sense,
        GestureStage::Entry => row.extent,
    }
}

/// A range of one row, as a range of its Card.
pub open spec fn range_in(entry: u32, d: DocRange) -> SelRange {
    SelRange {
        start: TextAddr { entry, addr: d.start },
        end: TextAddr { entry, addr: d.end },
    }
}

/// The item of a Card at an address, in the row that the address names:
/// nothing where the Card has no such row.
pub fn resolve_card(card: &Card, row: &RowRanges, stage: GestureStage, addr: TextAddr) -> (r: Option<
    SelRange,
>)
    requires
        rows_of(card.v().blocks).len() <= 0x1_0000_0000,
    ensures
        r == (match range_at(stage, addr, *row) {
            Some(d) => if addr.entry < rows_of(card.v().blocks).len() {
                Some(range_in(addr.entry, d))
            } else {
                None
            },
            None => None,
        }),
{
    let rows = super::entries(card);
    proof {
        assert(super::numbered_v(rows@).len() == rows@.len());
    }
    if addr.entry as u64 >= rows.len() as u64 {
        return None;
    }
    let range = match stage {
        GestureStage::Grapheme => row.grapheme,
        GestureStage::Word => word_range(addr.addr.path, row.leaf.as_str(), row.word),
        GestureStage::Sense => row.sense,
        GestureStage::Entry => row.extent,
    };
    match range {
        Some(d) => Some(
            SelRange {
                start: TextAddr { entry: addr.entry, addr: d.start },
                end: TextAddr { entry: addr.entry, addr: d.end },
            },
        ),
        None => None,
    }
}

fn word_range(path: NodePath, text: &str, word: Option<(u32, u32)>) -> (r: Option<DocRange>)
    ensures
        r == range_of_word(path, text@, word),
{
    let (start, end) = match word {
        Some(w) => w,
        None => {
            return None;
        },
    };
    if text.is_empty() || start == end {
        return None;
    }
    Some(DocRange { start: DocAddr { path, byte: start }, end: DocAddr { path, byte: end } })
}

#[derive(Debug, Clone, Copy, PartialEq, Eq, Structural)]
pub struct PressPoint {
    pub local: PhysPoint,
    pub tick: u64,
}

#[derive(Debug, Clone, Copy, PartialEq, Eq, Structural)]
pub struct PendingWord {
    pub addr: TextAddr,
    pub button: Button,
}

/// Pure state for a click chain and an optional drag.
#[derive(Debug, PartialEq, Eq)]
pub struct Gesture {
    pub stage: u8,
    pub snapshot: CardSelection,
    pub anchor: Option<TextAddr>,
    pub press_point: Option<PhysPoint>,
    pub active_button: Option<Button>,
    pub current_link: bool,
    pub dragging: bool,
    pub last_press: Option<PressPoint>,
    pub pending_clear: Option<u64>,
    pub pending_word: Option<PendingWord>,
}

/// What a gesture holds.
#[verifier::ext_equal]
pub struct GestureV {
    pub stage: u8,
    pub snapshot: Seq<SelRange>,
    pub anchor: Option<TextAddr>,
    pub press_point: Option<PhysPoint>,
    pub active_button: Option<Button>,
    pub current_link: bool,
    pub dragging: bool,
    pub last_press: Option<PressPoint>,
    pub pending_clear: Option<u64>,
    pub pending_word: Option<PendingWord>,
}

/// A gesture, the selection it works on, and the effects of an input.
#[verifier::ext_equal]
pub struct StepV {
    pub gesture: GestureV,
    pub selection: Seq<SelRange>,
    pub effects: Seq<GestureEffect>,
}

/// A gesture at rest.
pub open spec fn resting() -> GestureV {
    GestureV {
        stage: 0,
        snapshot: seq![],
        anchor: None,
        press_point: None,
        active_button: None,
        current_link: false,
        dragging: false,
        last_press: None,
        pending_clear: None,
        pending_word: None,
    }
}

/// Are two points no further apart than a threshold, on either axis?
pub open spec fn near(a: PhysPoint, b: PhysPoint, threshold: i32) -> bool {
    let t = if threshold < 0 {
        0int
    } else {
        threshold as int
    };
    -t <= b.x - a.x <= t && -t <= b.y - a.y <= t
}

fn within(previous: PhysPoint, current: PhysPoint, threshold: i32) -> (r: bool)
    ensures
        r == near(previous, current, threshold),
{
    let t: i64 = if threshold < 0 {
        0
    } else {
        threshold as i64
    };
    let dx: i64 = current.x as i64 - previous.x as i64;
    let dy: i64 = current.y as i64 - previous.y as i64;
    -t <= dx && dx <= t && -t <= dy && dy <= t
}

/// Does a button add to the selection?
pub open spec fn adds(button: Button, env: GestureEnv) -> bool {
    (button == Button::Primary) == env.primary_additive
}

fn additive(button: Button, env: GestureEnv) -> (r: bool)
    ensures
        r == adds(button, env),
{
    (button == Button::Primary) == env.primary_additive
}

/// The selection after a button applied an item to the snapshot.
pub open spec fn applying(snapshot: Seq<SelRange>, item: SelRange, button: Button, env: GestureEnv) -> Seq<
    SelRange,
> {
    if adds(button, env) {
        toggled(snapshot, item)
    } else {
        alone(item)
    }
}

/// Does a press follow the last one in a click chain?
pub open spec fn chains(g: GestureV, input: PressInput, env: GestureEnv) -> bool {
    match g.last_press {
        Some(p) => (input.tick < p.tick || input.tick - p.tick <= env.chain_ticks) && near(
            p.local,
            input.local,
            env.threshold_px,
        ),
        None => false,
    }
}

/// The click stage of a press: one more in a chain, from the second on, and
/// the first where the press is on no text.
pub open spec fn stage_of(g: GestureV, input: PressInput, env: GestureEnv) -> u8 {
    if input.addr is None || !chains(g, input, env) {
        1
    } else if g.stage < 1 {
        2
    } else if g.stage < u8::MAX {
        (g.stage + 1) as u8
    } else {
        u8::MAX
    }
}

/// What a click stage selects.
pub open spec fn stage_item(stage: u8) -> GestureStage {
    if stage == 2 {
        GestureStage::Word
    } else if stage == 3 {
        GestureStage::Sense
    } else {
        GestureStage::Entry
    }
}

/// The gesture and the selection after a press, before the click stage is
/// applied. A press outside the chain makes a pending clear happen at once.
pub open spec fn pressed(g: GestureV, sel: Seq<SelRange>, input: PressInput, env: GestureEnv) -> StepV {
    let chained = chains(g, input, env);
    let clears = !chained && g.pending_clear is Some && sel.len() > 0;
    let sel2 = if clears {
        seq![]
    } else {
        sel
    };
    StepV {
        gesture: GestureV {
            stage: stage_of(g, input, env),
            snapshot: if chained {
                g.snapshot
            } else {
                sel2
            },
            anchor: input.addr,
            press_point: Some(input.local),
            active_button: Some(input.button),
            current_link: input.link,
            dragging: false,
            last_press: Some(PressPoint { local: input.local, tick: input.tick }),
            pending_clear: None,
            pending_word: None,
        },
        selection: sel2,
        effects: if clears {
            seq![GestureEffect::Repaint]
        } else {
            seq![]
        },
    }
}

/// A press, with the answer for its click stage. A word that is not known yet
/// is asked for.
pub open spec fn press_step(
    g: GestureV,
    sel: Seq<SelRange>,
    input: PressInput,
    env: GestureEnv,
    answer: Option<SelRange>,
) -> StepV {
    let p = pressed(g, sel, input, env);
    match input.addr {
        None => p,
        Some(addr) => if p.gesture.stage < 2 {
            p
        } else {
            match answer {
                Some(item) => StepV {
                    selection: applying(p.gesture.snapshot, item, input.button, env),
                    effects: p.effects.push(GestureEffect::Repaint),
                    ..p
                },
                None => if p.gesture.stage == 2 {
                    StepV {
                        gesture: GestureV {
                            pending_word: Some(PendingWord { addr, button: input.button }),
                            ..p.gesture
                        },
                        effects: p.effects.push(
                            GestureEffect::NeedWord {
                                entry: addr.entry,
                                path: addr.addr.path,
                                byte: addr.addr.byte,
                            },
                        ),
                        ..p
                    }
                } else {
                    p
                },
            }
        },
    }
}

/// The two ends of a drag, in order.
pub open spec fn drag_ends(anchor: TextAddr, current: TextAddr) -> (TextAddr, TextAddr) {
    if anchor.at() <= current.at() {
        (anchor, current)
    } else {
        (current, anchor)
    }
}

/// The range of a drag, snapped to the graphemes at its ends. An end on a
/// grapheme boundary stays there.
pub open spec fn dragged(
    anchor: Option<TextAddr>,
    addr: Option<TextAddr>,
    first: Option<SelRange>,
    second: Option<SelRange>,
) -> Option<SelRange> {
    match (anchor, addr) {
        (Some(a), Some(c)) => {
            let (s, e) = drag_ends(a, c);
            let start = match first {
                Some(item) => item.start,
                None => s,
            };
            let end = match second {
                Some(item) => if item.start == e {
                    e
                } else {
                    item.end
                },
                None => e,
            };
            if start.at() < end.at() {
                Some(SelRange { start, end })
            } else {
                None
            }
        },
        _ => None,
    }
}

/// Does a move drag: is a button down on text, and is the drag on, or the
/// pointer beyond the threshold?
pub open spec fn drags(g: GestureV, local: PhysPoint, env: GestureEnv) -> bool {
    g.active_button is Some && g.anchor is Some && (match g.press_point {
        Some(p) => g.dragging || !near(p, local, env.threshold_px),
        None => false,
    })
}

/// A move, with the graphemes at both ends of the drag.
pub open spec fn move_step(
    g: GestureV,
    sel: Seq<SelRange>,
    addr: Option<TextAddr>,
    local: PhysPoint,
    env: GestureEnv,
    first: Option<SelRange>,
    second: Option<SelRange>,
) -> StepV {
    if !drags(g, local, env) {
        StepV { gesture: g, selection: sel, effects: seq![] }
    } else {
        let started = if g.dragging {
            seq![]
        } else {
            seq![GestureEffect::DragStarted]
        };
        let g2 = GestureV { dragging: true, ..g };
        match dragged(g.anchor, addr, first, second) {
            Some(item) => StepV {
                gesture: g2,
                selection: applying(g.snapshot, item, g.active_button->0, env),
                effects: started.push(GestureEffect::Repaint),
            },
            None => StepV { gesture: g2, selection: sel, effects: started },
        }
    }
}

/// A release. Only the pressed button's counts. A drag ends; a plain primary
/// click on a link opens it; another plain click clears the selection, at
/// once or when the chain is over.
pub open spec fn release_step(
    g: GestureV,
    sel: Seq<SelRange>,
    button: Button,
    tick: u64,
    env: GestureEnv,
) -> StepV {
    if g.active_button != Some(button) {
        StepV { gesture: g, selection: sel, effects: seq![] }
    } else if g.dragging {
        StepV {
            gesture: GestureV {
                stage: 0,
                anchor: None,
                press_point: None,
                active_button: None,
                current_link: false,
                dragging: false,
                last_press: None,
                pending_word: None,
                ..g
            },
            selection: sel,
            effects: seq![GestureEffect::DragEnded],
        }
    } else {
        let up = GestureV { active_button: None, ..g };
        if g.stage != 1 {
            StepV { gesture: up, selection: sel, effects: seq![] }
        } else if button == Button::Primary && g.current_link {
            StepV { gesture: up, selection: sel, effects: seq![GestureEffect::OpenLink] }
        } else if adds(button, env) {
            StepV {
                gesture: GestureV {
                    pending_clear: Some(
                        if tick + env.chain_ticks <= u64::MAX {
                            (tick + env.chain_ticks) as u64
                        } else {
                            u64::MAX
                        },
                    ),
                    ..up
                },
                selection: sel,
                effects: seq![],
            }
        } else if sel.len() > 0 {
            StepV { gesture: up, selection: seq![], effects: seq![GestureEffect::Repaint] }
        } else {
            StepV { gesture: up, selection: sel, effects: seq![] }
        }
    }
}

/// A tick: a pending clear happens at its deadline.
pub open spec fn tick_step(g: GestureV, sel: Seq<SelRange>, tick: u64) -> StepV {
    match g.pending_clear {
        Some(deadline) => if tick >= deadline {
            StepV {
                gesture: GestureV { pending_clear: None, ..g },
                selection: seq![],
                effects: if sel.len() > 0 {
                    seq![GestureEffect::Repaint]
                } else {
                    seq![]
                },
            }
        } else {
            StepV { gesture: g, selection: sel, effects: seq![] }
        },
        None => StepV { gesture: g, selection: sel, effects: seq![] },
    }
}

/// New analysis: the word that was waited for is applied once it is known.
pub open spec fn analysis_step(
    g: GestureV,
    sel: Seq<SelRange>,
    env: GestureEnv,
    answer: Option<SelRange>,
) -> StepV {
    match (g.pending_word, answer) {
        (Some(pending), Some(item)) => StepV {
            gesture: GestureV { pending_word: None, ..g },
            selection: applying(g.snapshot, item, pending.button, env),
            effects: seq![GestureEffect::Repaint],
        },
        _ => StepV { gesture: g, selection: sel, effects: seq![] },
    }
}

/// What one input does, with the answers to what it asks.
pub open spec fn step_of(
    g: GestureV,
    sel: Seq<SelRange>,
    input: GestureInput,
    env: GestureEnv,
    first: Option<SelRange>,
    second: Option<SelRange>,
) -> StepV {
    match input {
        GestureInput::Press(p) => press_step(g, sel, p, env, first),
        GestureInput::Move { addr, local, tick } => move_step(
            g,
            sel,
            addr,
            local,
            env,
            first,
            second,
        ),
        GestureInput::Release { button, local, tick } => release_step(g, sel, button, tick, env),
        GestureInput::Tick { tick } => tick_step(g, sel, tick),
        GestureInput::Analysis => analysis_step(g, sel, env, first),
    }
}

/// What one input asks of the source: at most two items.
pub open spec fn asks_of(g: GestureV, input: GestureInput, env: GestureEnv) -> (
    Option<(GestureStage, TextAddr)>,
    Option<(GestureStage, TextAddr)>,
) {
    match input {
        GestureInput::Press(p) => match p.addr {
            Some(addr) => if stage_of(g, p, env) >= 2 {
                (Some((stage_item(stage_of(g, p, env)), addr)), None)
            } else {
                (None, None)
            },
            None => (None, None),
        },
        GestureInput::Move { addr, local, tick } => match (g.anchor, addr) {
            (Some(a), Some(c)) => if drags(g, local, env) {
                let (s, e) = drag_ends(a, c);
                (Some((GestureStage::Grapheme, s)), Some((GestureStage::Grapheme, e)))
            } else {
                (None, None)
            },
            _ => (None, None),
        },
        GestureInput::Analysis => match g.pending_word {
            Some(pending) => (Some((GestureStage::Word, pending.addr)), None),
            None => (None, None),
        },
        _ => (None, None),
    }
}

/// Is an outcome that of an input, for answers that the source gives?
pub open spec fn handled<F: Fn(GestureStage, TextAddr) -> Option<SelRange>>(
    source: ItemSource<F>,
    g: GestureV,
    sel: Seq<SelRange>,
    input: GestureInput,
    env: GestureEnv,
    out: StepV,
) -> bool {
    exists|first: Option<SelRange>, second: Option<SelRange>|
        #![trigger step_of(g, sel, input, env, first, second)]
        {
            &&& source.gives(asks_of(g, input, env).0, first)
            &&& source.gives(asks_of(g, input, env).1, second)
            &&& out == step_of(g, sel, input, env, first, second)
        }
}

impl Default for Gesture {
    fn default() -> (r: Self)
        ensures
            r.v() == resting(),
    {
        Gesture {
            stage: 0,
            snapshot: CardSelection::default(),
            anchor: None,
            press_point: None,
            active_button: None,
            current_link: false,
            dragging: false,
            last_press: None,
            pending_clear: None,
            pending_word: None,
        }
    }
}

impl Gesture {
    pub open spec fn v(self) -> GestureV {
        GestureV {
            stage: self.stage,
            snapshot: self.snapshot@,
            anchor: self.anchor,
            press_point: self.press_point,
            active_button: self.active_button,
            current_link: self.current_link,
            dragging: self.dragging,
            last_press: self.last_press,
            pending_clear: self.pending_clear,
            pending_word: self.pending_word,
        }
    }

    /// Handles one input and mutates only the supplied Card selection.
    pub fn handle<F: Fn(GestureStage, TextAddr) -> Option<SelRange>>(
        &mut self,
        input: GestureInput,
        env: GestureEnv,
        source: &ItemSource<F>,
        selection: &mut CardSelection,
    ) -> (r: Vec<GestureEffect>)
        requires
            source.total(),
        ensures
            handled(
                *source,
                old(self).v(),
                old(selection)@,
                input,
                env,
                (StepV { gesture: final(self).v(), selection: final(selection)@, effects: r@ }),
            ),
    {
        let (a, b) = self.asks(input, env);
        let first = source.answer(a);
        let second = source.answer(b);
        let ghost g = self.v();
        let ghost sel = selection@;
        let r = self.step(input, env, first, second, selection);
        assert(step_of(g, sel, input, env, first, second) == StepV {
            gesture: self.v(),
            selection: selection@,
            effects: r@,
        });
        r
    }

    /// Alias that reads naturally at the controller seam.
    pub fn input<F: Fn(GestureStage, TextAddr) -> Option<SelRange>>(
        &mut self,
        input: GestureInput,
        env: GestureEnv,
        source: &ItemSource<F>,
        selection: &mut CardSelection,
    ) -> (r: Vec<GestureEffect>)
        requires
            source.total(),
        ensures
            handled(
                *source,
                old(self).v(),
                old(selection)@,
                input,
                env,
                (StepV { gesture: final(self).v(), selection: final(selection)@, effects: r@ }),
            ),
    {
        self.handle(input, env, source, selection)
    }

    /// Ends a chain without changing the current selection.
    pub fn reset(&mut self)
        ensures
            final(self).v() == resting(),
    {
        *self = Gesture::default();
    }

    /// Reports whether the pointer is in an active drag.
    pub fn dragging(&self) -> (r: bool)
        ensures
            r == self.v().dragging,
    {
        self.dragging
    }

    fn is_chained(&self, input: PressInput, env: GestureEnv) -> (r: bool)
        ensures
            r == chains(self.v(), input, env),
    {
        match self.last_press {
            Some(p) => (input.tick < p.tick || input.tick - p.tick <= env.chain_ticks) && within(
                p.local,
                input.local,
                env.threshold_px,
            ),
            None => false,
        }
    }

    fn next_stage(&self, input: PressInput, env: GestureEnv) -> (r: u8)
        ensures
            r == stage_of(self.v(), input, env),
    {
        if input.addr.is_none() || !self.is_chained(input, env) {
            1
        } else if self.stage < 1 {
            2
        } else if self.stage < u8::MAX {
            self.stage + 1
        } else {
            u8::MAX
        }
    }

    fn is_drag(&self, local: PhysPoint, env: GestureEnv) -> (r: bool)
        ensures
            r == drags(self.v(), local, env),
    {
        if self.active_button.is_none() || self.anchor.is_none() {
            return false;
        }
        match self.press_point {
            Some(p) => self.dragging || !within(p, local, env.threshold_px),
            None => false,
        }
    }

    /// What an input asks of the source.
    pub fn asks(&self, input: GestureInput, env: GestureEnv) -> (r: (
        Option<(GestureStage, TextAddr)>,
        Option<(GestureStage, TextAddr)>,
    ))
        ensures
            r == asks_of(self.v(), input, env),
    {
        match input {
            GestureInput::Press(p) => match p.addr {
                Some(addr) => {
                    let stage = self.next_stage(p, env);
                    if stage >= 2 {
                        (Some((item_for(stage), addr)), None)
                    } else {
                        (None, None)
                    }
                },
                None => (None, None),
            },
            GestureInput::Move { addr, local, tick: _ } => match (self.anchor, addr) {
                (Some(a), Some(c)) => {
                    if self.is_drag(local, env) {
                        let (s, e) = ends(a, c);
                        (Some((GestureStage::Grapheme, s)), Some((GestureStage::Grapheme, e)))
                    } else {
                        (None, None)
                    }
                },
                _ => (None, None),
            },
            GestureInput::Analysis => match self.pending_word {
                Some(pending) => (Some((GestureStage::Word, pending.addr)), None),
                None => (None, None),
            },
            _ => (None, None),
        }
    }

    /// Handles one input, with the answers to what it asks.
    pub fn step(
        &mut self,
        input: GestureInput,
        env: GestureEnv,
        first: Option<SelRange>,
        second: Option<SelRange>,
        selection: &mut CardSelection,
    ) -> (r: Vec<GestureEffect>)
        ensures
            step_of(old(self).v(), old(selection)@, input, env, first, second) == (StepV {
                gesture: final(self).v(),
                selection: final(selection)@,
                effects: r@,
            }),
    {
        match input {
            GestureInput::Press(p) => self.press(p, env, first, selection),
            GestureInput::Move { addr, local, tick: _ } => self.move_pointer(
                addr,
                local,
                env,
                first,
                second,
                selection,
            ),
            GestureInput::Release { button, local: _, tick } => self.release(
                button,
                tick,
                env,
                selection,
            ),
            GestureInput::Tick { tick } => self.tick(tick, selection),
            GestureInput::Analysis => self.analysis(env, first, selection),
        }
    }

    fn press(
        &mut self,
        input: PressInput,
        env: GestureEnv,
        answer: Option<SelRange>,
        selection: &mut CardSelection,
    ) -> (r: Vec<GestureEffect>)
        ensures
            press_step(old(self).v(), old(selection)@, input, env, answer) == (StepV {
                gesture: final(self).v(),
                selection: final(selection)@,
                effects: r@,
            }),
    {
        let ghost was = self.v();
        let ghost sel = selection@;
        let chained = self.is_chained(input, env);
        let stage = self.next_stage(input, env);
        let mut effects: Vec<GestureEffect> = Vec::new();
        if !chained {
            if self.pending_clear.is_some() && !selection.is_empty() {
                selection.clear();
                effects.push(GestureEffect::Repaint);
            }
            self.snapshot = selection.clone();
        }
        self.stage = stage;
        self.anchor = input.addr;
        self.press_point = Some(input.local);
        self.active_button = Some(input.button);
        self.current_link = input.link;
        self.dragging = false;
        self.last_press = Some(PressPoint { local: input.local, tick: input.tick });
        self.pending_clear = None;
        self.pending_word = None;
        let ghost p = pressed(was, sel, input, env);
        assert(self.v() =~= p.gesture);
        assert(selection@ =~= p.selection);
        assert(effects@ =~= p.effects);
        let addr = match input.addr {
            Some(a) => a,
            None => {
                return effects;
            },
        };
        if stage < 2 {
            return effects;
        }
        match answer {
            Some(item) => {
                self.apply(selection, item, input.button, env);
                effects.push(GestureEffect::Repaint);
            },
            None => {
                if stage == 2 {
                    self.pending_word = Some(PendingWord { addr, button: input.button });
                    effects.push(
                        GestureEffect::NeedWord {
                            entry: addr.entry,
                            path: addr.addr.path,
                            byte: addr.addr.byte,
                        },
                    );
                }
            },
        }
        effects
    }

    fn move_pointer(
        &mut self,
        addr: Option<TextAddr>,
        local: PhysPoint,
        env: GestureEnv,
        first: Option<SelRange>,
        second: Option<SelRange>,
        selection: &mut CardSelection,
    ) -> (r: Vec<GestureEffect>)
        ensures
            move_step(old(self).v(), old(selection)@, addr, local, env, first, second) == (StepV {
                gesture: final(self).v(),
                selection: final(selection)@,
                effects: r@,
            }),
    {
        let mut effects: Vec<GestureEffect> = Vec::new();
        if !self.is_drag(local, env) {
            assert(effects@ =~= seq![]);
            return effects;
        }
        let button = match self.active_button {
            Some(b) => b,
            None => {
                return effects;
            },
        };
        if !self.dragging {
            effects.push(GestureEffect::DragStarted);
        }
        assert(effects@ =~= if self.dragging {
            seq![]
        } else {
            seq![GestureEffect::DragStarted]
        });
        self.dragging = true;
        match drag_range(self.anchor, addr, first, second) {
            Some(item) => {
                self.apply(selection, item, button, env);
                effects.push(GestureEffect::Repaint);
            },
            None => {},
        }
        effects
    }

    /// The range of a drag from the anchor to an address.
    pub fn drag_item<F: Fn(GestureStage, TextAddr) -> Option<SelRange>>(
        &self,
        addr: Option<TextAddr>,
        source: &ItemSource<F>,
    ) -> (r: Option<SelRange>)
        requires
            source.total(),
        ensures
            match (self.v().anchor, addr) {
                (Some(a), Some(c)) => {
                    let (s, e) = drag_ends(a, c);
                    exists|first: Option<SelRange>, second: Option<SelRange>|
                        #![trigger dragged(self.v().anchor, addr, first, second)]
                        {
                            &&& source.gives(Some((GestureStage::Grapheme, s)), first)
                            &&& source.gives(Some((GestureStage::Grapheme, e)), second)
                            &&& r == dragged(self.v().anchor, addr, first, second)
                        }
                },
                _ => r is None,
            },
    {
        match (self.anchor, addr) {
            (Some(a), Some(c)) => {
                let (s, e) = ends(a, c);
                let first = source.item(GestureStage::Grapheme, s);
                let second = source.item(GestureStage::Grapheme, e);
                drag_range(self.anchor, addr, first, second)
            },
            _ => None,
        }
    }

    fn release(
        &mut self,
        button: Button,
        tick: u64,
        env: GestureEnv,
        selection: &mut CardSelection,
    ) -> (r: Vec<GestureEffect>)
        ensures
            release_step(old(self).v(), old(selection)@, button, tick, env) == (StepV {
                gesture: final(self).v(),
                selection: final(selection)@,
                effects: r@,
            }),
    {
        let mut effects: Vec<GestureEffect> = Vec::new();
        assert(effects@ =~= seq![]);
        match self.active_button {
            Some(b) => {
                if b != button {
                    return effects;
                }
            },
            None => {
                return effects;
            },
        }
        self.active_button = None;
        if self.dragging {
            self.dragging = false;
            self.stage = 0;
            self.anchor = None;
            self.press_point = None;
            self.current_link = false;
            self.last_press = None;
            self.pending_word = None;
            effects.push(GestureEffect::DragEnded);
            assert(effects@ =~= seq![GestureEffect::DragEnded]);
            return effects;
        }
        if self.stage == 1 {
            if button == Button::Primary && self.current_link {
                effects.push(GestureEffect::OpenLink);
                assert(effects@ =~= seq![GestureEffect::OpenLink]);
                return effects;
            }
            if additive(button, env) {
                let deadline = if tick <= u64::MAX - env.chain_ticks {
                    tick + env.chain_ticks
                } else {
                    u64::MAX
                };
                self.pending_clear = Some(deadline);
            } else if !selection.is_empty() {
                selection.clear();
                effects.push(GestureEffect::Repaint);
                assert(effects@ =~= seq![GestureEffect::Repaint]);
            }
        }
        effects
    }

    fn tick(&mut self, tick: u64, selection: &mut CardSelection) -> (r: Vec<GestureEffect>)
        ensures
            tick_step(old(self).v(), old(selection)@, tick) == (StepV {
                gesture: final(self).v(),
                selection: final(selection)@,
                effects: r@,
            }),
    {
        let mut effects: Vec<GestureEffect> = Vec::new();
        assert(effects@ =~= seq![]);
        match self.pending_clear {
            Some(deadline) => {
                if tick >= deadline {
                    self.pending_clear = None;
                    if !selection.is_empty() {
                        selection.clear();
                        effects.push(GestureEffect::Repaint);
                        assert(effects@ =~= seq![GestureEffect::Repaint]);
                    } else {
                        assert(selection@ =~= seq![]);
                    }
                }
            },
            None => {},
        }
        effects
    }

    fn analysis(
        &mut self,
        env: GestureEnv,
        answer: Option<SelRange>,
        selection: &mut CardSelection,
    ) -> (r: Vec<GestureEffect>)
        ensures
            analysis_step(old(self).v(), old(selection)@, env, answer) == (StepV {
                gesture: final(self).v(),
                selection: final(selection)@,
                effects: r@,
            }),
    {
        let mut effects: Vec<GestureEffect> = Vec::new();
        assert(effects@ =~= seq![]);
        match (self.pending_word, answer) {
            (Some(pending), Some(item)) => {
                self.pending_word = None;
                self.apply(selection, item, pending.button, env);
                effects.push(GestureEffect::Repaint);
                assert(effects@ =~= seq![GestureEffect::Repaint]);
            },
            _ => {},
        }
        effects
    }

    fn apply(&self, selection: &mut CardSelection, item: SelRange, button: Button, env: GestureEnv)
        ensures
            final(selection)@ == applying(self.v().snapshot, item, button, env),
    {
        *selection = self.snapshot.clone();
        if additive(button, env) {
            selection.toggle(item);
        } else {
            selection.replace(item);
        }
    }
}

fn item_for(stage: u8) -> (r: GestureStage)
    ensures
        r == stage_item(stage),
{
    if stage == 2 {
        GestureStage::Word
    } else if stage == 3 {
        GestureStage::Sense
    } else {
        GestureStage::Entry
    }
}

fn ends(anchor: TextAddr, current: TextAddr) -> (r: (TextAddr, TextAddr))
    ensures
        r == drag_ends(anchor, current),
{
    if current.before(anchor) {
        (current, anchor)
    } else {
        (anchor, current)
    }
}

fn drag_range(
    anchor: Option<TextAddr>,
    addr: Option<TextAddr>,
    first: Option<SelRange>,
    second: Option<SelRange>,
) -> (r: Option<SelRange>)
    ensures
        r == dragged(anchor, addr, first, second),
{
    match (anchor, addr) {
        (Some(a), Some(c)) => {
            let (s, e) = ends(a, c);
            let start = match first {
                Some(item) => item.start,
                None => s,
            };
            let end = match second {
                Some(item) => {
                    if item.start == e {
                        e
                    } else {
                        item.end
                    }
                },
                None => e,
            };
            if start.before(end) {
                Some(SelRange { start, end })
            } else {
                None
            }
        },
        _ => None,
    }
}

/// Within one click chain every stage works on the selection that the chain
/// began with, not on what the stage before left.
pub proof fn a_chain_works_on_one_snapshot(
    g: GestureV,
    sel: Seq<SelRange>,
    input: PressInput,
    env: GestureEnv,
    item: SelRange,
)
    requires
        chains(g, input, env),
        input.addr is Some,
    ensures
        press_step(g, sel, input, env, Some(item)).gesture.snapshot == g.snapshot,
        press_step(g, sel, input, env, Some(item)).selection == applying(
            g.snapshot,
            item,
            input.button,
            env,
        ),
        press_step(g, sel, input, env, Some(item)).effects == seq![GestureEffect::Repaint],
{
    assert(press_step(g, sel, input, env, Some(item)).effects =~= seq![GestureEffect::Repaint]);
}

/// A press outside a chain never applies a stage: it takes the selection as
/// the snapshot of a new chain, once a pending clear has happened.
pub proof fn a_new_chain_takes_a_snapshot(
    g: GestureV,
    sel: Seq<SelRange>,
    input: PressInput,
    env: GestureEnv,
    answer: Option<SelRange>,
)
    requires
        !chains(g, input, env),
    ensures
        ({
            let s = press_step(g, sel, input, env, answer);
            &&& s.gesture.stage == 1
            &&& s.gesture.snapshot == s.selection
            &&& s.selection == if g.pending_clear is Some {
                seq![]
            } else {
                sel
            }
        }),
{
    if sel.len() == 0 {
        assert(sel =~= seq![]);
    }
}

/// A drag ends once: its release says so, and the next release of any button
/// does nothing.
pub proof fn a_drag_ends_once(
    g: GestureV,
    sel: Seq<SelRange>,
    button: Button,
    tick: u64,
    env: GestureEnv,
    again: Button,
    later: u64,
)
    requires
        g.active_button == Some(button),
        g.dragging,
    ensures
        ({
            let s = release_step(g, sel, button, tick, env);
            &&& s.effects == seq![GestureEffect::DragEnded]
            &&& s.selection == sel
            &&& release_step(s.gesture, sel, again, later, env).effects.len() == 0
        }),
{
}

/// A link opens only when the primary button is released that was pressed on
/// it, with no drag and no chain.
pub proof fn a_link_opens_only_on_a_plain_click(
    g: GestureV,
    sel: Seq<SelRange>,
    input: GestureInput,
    env: GestureEnv,
    first: Option<SelRange>,
    second: Option<SelRange>,
)
    ensures
        step_of(g, sel, input, env, first, second).effects.contains(GestureEffect::OpenLink) ==> {
            &&& input matches GestureInput::Release { button, local, tick }
            &&& button == Button::Primary
            &&& g.active_button == Some(Button::Primary)
            &&& g.stage == 1
            &&& g.current_link
            &&& !g.dragging
        },
{
}

/// A press goes on with a chain exactly where it comes within the chain's time
/// and no further from the last press than the threshold, on either axis.
pub proof fn a_chain_is_near_in_time_and_place(
    g: GestureV,
    p: PressPoint,
    input: PressInput,
    env: GestureEnv,
)
    requires
        g.last_press == Some(p),
        input.tick >= p.tick,
        env.threshold_px >= 0,
    ensures
        chains(g, input, env) <==> {
            &&& input.tick <= p.tick + env.chain_ticks
            &&& input.local.x - p.local.x <= env.threshold_px
            &&& p.local.x - input.local.x <= env.threshold_px
            &&& input.local.y - p.local.y <= env.threshold_px
            &&& p.local.y - input.local.y <= env.threshold_px
        },
        g.last_press is None ==> !chains(g, input, env),
{
}

/// Each press of a chain takes more than the one before: nothing, the word, the
/// sense, and then the whole Entry, at the place that is pressed.
pub proof fn each_press_takes_more(
    g: GestureV,
    sel: Seq<SelRange>,
    input: PressInput,
    env: GestureEnv,
    answer: Option<SelRange>,
    next: PressInput,
    addr: TextAddr,
)
    requires
        input.addr is Some,
        next.addr == Some(addr),
        chains(press_step(g, sel, input, env, answer).gesture, next, env),
    ensures
        ({
            let once = press_step(g, sel, input, env, answer).gesture;
            let asked = asks_of(once, GestureInput::Press(next), env);
            let twice = press_step(once, sel, next, env, answer).gesture;
            &&& asked.1 is None
            &&& once.stage == 1 ==> asked.0 == Some((GestureStage::Word, addr))
            &&& once.stage == 2 ==> asked.0 == Some((GestureStage::Sense, addr))
            &&& once.stage >= 3 ==> asked.0 == Some((GestureStage::Entry, addr))
            &&& once.stage < u8::MAX ==> twice.stage == once.stage + 1
            &&& !chains(g, input, env) ==> once.stage == 1 && asks_of(
                g,
                GestureInput::Press(input),
                env,
            ).0 is None
        }),
{
}

/// A press on no text asks for nothing and is the first of its chain.
pub proof fn a_press_on_nothing_takes_nothing(
    g: GestureV,
    sel: Seq<SelRange>,
    input: PressInput,
    env: GestureEnv,
    answer: Option<SelRange>,
)
    requires
        input.addr is None,
    ensures
        asks_of(g, GestureInput::Press(input), env).0 is None,
        press_step(g, sel, input, env, answer).gesture.stage == 1,
        press_step(g, sel, input, env, answer).gesture.anchor is None,
{
}

/// One button replaces the selection by what it takes and the other one adds
/// to it; which is which is the setting's.
pub proof fn one_button_replaces_and_one_adds(
    snapshot: Seq<SelRange>,
    item: SelRange,
    env: GestureEnv,
)
    requires
        item.valid(),
    ensures
        !env.primary_additive ==> applying(snapshot, item, Button::Primary, env) == seq![item]
            && applying(snapshot, item, Button::Secondary, env) == toggled(snapshot, item),
        env.primary_additive ==> applying(snapshot, item, Button::Secondary, env) == seq![item]
            && applying(snapshot, item, Button::Primary, env) == toggled(snapshot, item),
{
}

/// A drag selects the same whichever end it starts at: from the start of the
/// grapheme at the earlier end to the end of the one at the later, or to the
/// later end itself where that starts a grapheme.
pub proof fn a_drag_goes_either_way(
    a: TextAddr,
    b: TextAddr,
    first: SelRange,
    second: SelRange,
)
    requires
        a.at() < b.at(),
        first.start.at() <= a.at(),
        b.at() <= second.end.at(),
    ensures
        dragged(Some(a), Some(b), Some(first), Some(second)) == dragged(
            Some(b),
            Some(a),
            Some(first),
            Some(second),
        ),
        dragged(Some(a), Some(b), Some(first), Some(second)) matches Some(r) && r.start
            == first.start && r.start.at() <= a.at() && b.at() <= r.end.at() && (r.end
            == if second.start == b {
            b
        } else {
            second.end
        }),
        dragged(Some(a), Some(b), None, None) == Some(SelRange { start: a, end: b }),
        dragged(Some(b), Some(a), None, None) == Some(SelRange { start: a, end: b }),
{
}

/// A drag starts only beyond the threshold, with a button down on text, and
/// then goes on wherever the pointer is; it says that it started once.
pub proof fn a_drag_starts_beyond_the_threshold(
    g: GestureV,
    sel: Seq<SelRange>,
    addr: Option<TextAddr>,
    local: PhysPoint,
    again: PhysPoint,
    env: GestureEnv,
    first: Option<SelRange>,
    second: Option<SelRange>,
    p: PhysPoint,
)
    requires
        g.active_button is Some,
        g.anchor is Some,
        g.press_point == Some(p),
        !g.dragging,
        env.threshold_px >= 0,
    ensures
        ({
            let s = move_step(g, sel, addr, local, env, first, second);
            let t = move_step(s.gesture, s.selection, addr, again, env, first, second);
            let far = local.x - p.x > env.threshold_px || p.x - local.x > env.threshold_px || local.y
                - p.y > env.threshold_px || p.y - local.y > env.threshold_px;
            &&& s.gesture.dragging <==> far
            &&& far ==> s.effects.len() > 0 && s.effects[0] == GestureEffect::DragStarted
            &&& !far ==> s.effects.len() == 0 && s.selection == sel && s.gesture == g
            &&& far ==> t.gesture.dragging && !t.effects.contains(GestureEffect::DragStarted)
        }),
{
}

/// No drag without a button down, and none from where there is no text.
pub proof fn no_drag_without_a_press_on_text(
    g: GestureV,
    sel: Seq<SelRange>,
    addr: Option<TextAddr>,
    local: PhysPoint,
    env: GestureEnv,
    first: Option<SelRange>,
    second: Option<SelRange>,
)
    requires
        g.active_button is None || g.anchor is None,
    ensures
        move_step(g, sel, addr, local, env, first, second) == (StepV {
            gesture: g,
            selection: sel,
            effects: seq![],
        }),
{
}

/// A plain click of the button that replaces clears the selection at once; one
/// of the button that adds clears it when the chain's time is over, and not
/// before.
pub proof fn a_plain_click_clears(
    g: GestureV,
    sel: Seq<SelRange>,
    button: Button,
    tick: u64,
    env: GestureEnv,
    later: u64,
)
    requires
        g.active_button == Some(button),
        !g.dragging,
        g.stage == 1,
        !g.current_link,
        g.pending_clear is None,
        tick + env.chain_ticks <= u64::MAX,
    ensures
        ({
            let s = release_step(g, sel, button, tick, env);
            let t = tick_step(s.gesture, s.selection, later);
            let additive = (button == Button::Primary) == env.primary_additive;
            &&& s.gesture.active_button is None
            &&& !additive ==> s.selection.len() == 0
            &&& additive ==> s.selection == sel
            &&& additive && later >= tick + env.chain_ticks ==> t.selection.len() == 0
                && t.gesture.pending_clear is None
            &&& additive && later < tick + env.chain_ticks ==> t.selection == sel
            &&& sel.len() > 0 && !additive ==> s.effects == seq![GestureEffect::Repaint]
        }),
{
}

/// A word that was asked for and not known yet is selected once it is known, by
/// the button that asked for it, and not asked for again.
pub proof fn a_word_that_was_waited_for_is_selected(
    g: GestureV,
    sel: Seq<SelRange>,
    env: GestureEnv,
    pending: PendingWord,
    item: SelRange,
)
    requires
        g.pending_word == Some(pending),
        item.valid(),
    ensures
        ({
            let s = analysis_step(g, sel, env, Some(item));
            let additive = (pending.button == Button::Primary) == env.primary_additive;
            &&& asks_of(g, GestureInput::Analysis, env).0 == Some((GestureStage::Word, pending.addr))
            &&& s.gesture.pending_word is None
            &&& s.selection == if additive {
                toggled(g.snapshot, item)
            } else {
                seq![item]
            }
            &&& asks_of(s.gesture, GestureInput::Analysis, env).0 is None
            &&& analysis_step(g, sel, env, None).gesture == g
            &&& analysis_step(g, sel, env, None).selection == sel
        }),
{
}

/// A stage takes what the row says of it: the grapheme, the word's bytes in
/// the leaf at the address, the sense, or the whole row.
pub proof fn a_stage_takes_what_the_row_says(addr: TextAddr, row: RowRanges, start: u32, end: u32)
    ensures
        range_at(GestureStage::Grapheme, addr, row) == row.grapheme,
        range_at(GestureStage::Sense, addr, row) == row.sense,
        range_at(GestureStage::Entry, addr, row) == row.extent,
        row.word == Some((start, end)) && start < end && row.leaf@.len() > 0 ==> (range_at(
            GestureStage::Word,
            addr,
            row,
        ) matches Some(d) && d.start.path == addr.addr.path && d.end.path == addr.addr.path
            && d.start.byte == start && d.end.byte == end),
        row.word is None ==> range_at(GestureStage::Word, addr, row) is None,
{
}

/// A press asks for a repaint exactly where it changes the selection.
pub proof fn a_press_repaints_what_it_changes(
    g: GestureV,
    sel: Seq<SelRange>,
    input: PressInput,
    env: GestureEnv,
)
    ensures
        pressed(g, sel, input, env).effects.contains(GestureEffect::Repaint) <==> pressed(
            g,
            sel,
            input,
            env,
        ).selection != sel,
        pressed(g, sel, input, env).effects.len() <= 1,
{
    let step = pressed(g, sel, input, env);
    if step.effects.len() > 0 {
        assert(step.effects[0] == GestureEffect::Repaint);
        assert(step.selection.len() != sel.len());
    }
}

} // verus!
