//! Clicks and drags on a card.
use chibipop::geom::PhysPoint;
use chibipop::select::addr::{DocAddr, NodePath, SelRange, TextAddr};
use chibipop::select::gesture::{
    Button, Gesture, GestureEffect, GestureEnv, GestureInput, GestureStage, ItemSource, PressInput,
};
use chibipop::select::CardSelection;
use std::cell::Cell;

const ENV: GestureEnv = GestureEnv {
    chain_ticks: 5,
    threshold_px: 4,
    primary_additive: true,
};

fn addr(byte: u32) -> TextAddr {
    TextAddr { entry: 0, addr: DocAddr { path: NodePath::root().child(0).unwrap(), byte } }
}

fn range(start: u32, end: u32) -> SelRange {
    SelRange { start: addr(start), end: addr(end) }
}

fn input_press(tick: u64, addr: Option<TextAddr>, button: Button, link: bool) -> GestureInput {
    GestureInput::Press(PressInput {
        addr,
        link,
        button,
        local: PhysPoint { x: 10, y: 10 },
        tick,
    })
}

fn input_release(tick: u64, button: Button) -> GestureInput {
    GestureInput::Release {
        button,
        local: PhysPoint { x: 10, y: 10 },
        tick,
    }
}

#[test]
fn click_chain_resolves_each_stage_from_one_snapshot() {
    let resolver = |stage: GestureStage, _addr: TextAddr| match stage {
        GestureStage::Grapheme => Some(range(0, 1)),
        GestureStage::Word => Some(range(0, 2)),
        GestureStage::Sense => Some(range(0, 3)),
        GestureStage::Entry => Some(range(0, 4)),
    };
    let source = ItemSource::from_fn(&resolver);
    let mut gesture = Gesture::default();
    let mut selection = CardSelection::default();

    let stages = [
        (1, None),
        (2, Some(range(0, 2))),
        (3, Some(range(0, 3))),
        (4, Some(range(0, 4))),
        (5, Some(range(0, 4))),
    ];
    for (tick, expected) in stages {
        let effects = gesture.handle(
            input_press(tick, Some(addr(0)), Button::Primary, false),
            ENV,
            &source,
            &mut selection,
        );
        if let Some(expected) = expected {
            assert_eq!(selection.items(), &[expected]);
            assert_eq!(effects, vec![GestureEffect::Repaint]);
        } else {
            assert!(effects.is_empty());
        }
        gesture.handle(input_release(tick, Button::Primary), ENV, &source, &mut selection);
    }
}

#[test]
fn a_new_chain_snapshots_selection_and_a_late_press_does_not_chain() {
    let resolver = |_stage: GestureStage, _addr: TextAddr| Some(range(0, 2));
    let source = ItemSource::from_fn(&resolver);
    let mut gesture = Gesture::default();
    let mut selection = CardSelection::default();
    selection.replace(range(3, 4));

    gesture.handle(
        input_press(0, Some(addr(0)), Button::Primary, true),
        ENV,
        &source,
        &mut selection,
    );
    gesture.handle(input_release(0, Button::Primary), ENV, &source, &mut selection);
    let effects = gesture.handle(
        input_press(ENV.chain_ticks + 1, Some(addr(0)), Button::Primary, false),
        ENV,
        &source,
        &mut selection,
    );
    assert!(effects.is_empty());
    assert_eq!(selection.items(), &[range(3, 4)]);
}

#[test]
fn drag_snaps_both_endpoints_and_ends_once() {
    let resolver = |stage: GestureStage, value: TextAddr| match stage {
        GestureStage::Grapheme => {
            let start = value.addr.byte / 2 * 2;
            Some(range(start, start + 2))
        }
        _ => None,
    };
    let source = ItemSource::from_fn(&resolver);
    let mut gesture = Gesture::default();
    let mut selection = CardSelection::default();
    gesture.handle(
        GestureInput::Press(PressInput {
            addr: Some(addr(1)),
            link: false,
            button: Button::Primary,
            local: PhysPoint { x: 0, y: 0 },
            tick: 0,
        }),
        ENV,
        &source,
        &mut selection,
    );
    assert_eq!(
        gesture.handle(
            GestureInput::Move {
                addr: Some(addr(5)),
                local: PhysPoint { x: 5, y: 0 },
                tick: 1,
            },
            ENV,
            &source,
            &mut selection,
        ),
        vec![GestureEffect::DragStarted, GestureEffect::Repaint]
    );
    assert_eq!(selection.items(), &[range(0, 6)]);
    assert_eq!(
        gesture.handle(input_release(1, Button::Primary), ENV, &source, &mut selection),
        vec![GestureEffect::DragEnded]
    );
}

#[test]
fn drag_snapping_respects_end_boundaries() {
    let boundary = [(0, 3), (3, 5)];
    let inside = [(0, 2), (2, 4)];
    let leftward = [(0, 2), (2, 4), (4, 6), (6, 8)];
    let cases = [
        (&boundary[..], 0, 3, range(0, 3)),
        (&inside[..], 0, 3, range(0, 4)),
        (&leftward[..], 6, 2, range(2, 6)),
    ];
    for (clusters, anchor, current, expected) in cases {
        let resolver = |stage: GestureStage, value: TextAddr| {
            if stage != GestureStage::Grapheme {
                return None;
            }
            clusters
                .iter()
                .copied()
                .find(|(start, end)| *start <= value.addr.byte && value.addr.byte < *end)
                .map(|(start, end)| range(start, end))
        };
        let source = ItemSource::from_fn(&resolver);
        let gesture = Gesture { anchor: Some(addr(anchor)), ..Gesture::default() };
        assert_eq!(gesture.drag_item(Some(addr(current)), &source), Some(expected));
    }
}

#[test]
fn plain_click_clear_can_expire_or_be_cancelled() {
    let resolver = |_stage: GestureStage, _addr: TextAddr| Some(range(0, 2));
    let source = ItemSource::from_fn(&resolver);
    let mut gesture = Gesture::default();
    let mut selection = CardSelection::default();
    selection.replace(range(3, 4));
    gesture.handle(
        input_press(0, Some(addr(0)), Button::Primary, false),
        ENV,
        &source,
        &mut selection,
    );
    gesture.handle(input_release(0, Button::Primary), ENV, &source, &mut selection);
    assert_eq!(
        gesture.handle(GestureInput::Tick { tick: ENV.chain_ticks }, ENV, &source, &mut selection),
        vec![GestureEffect::Repaint]
    );
    assert!(selection.is_empty());

    selection.replace(range(3, 4));
    gesture.handle(
        input_press(10, Some(addr(0)), Button::Primary, false),
        ENV,
        &source,
        &mut selection,
    );
    gesture.handle(input_release(10, Button::Primary), ENV, &source, &mut selection);
    let effects = gesture.handle(
        input_press(11, Some(addr(0)), Button::Primary, false),
        ENV,
        &source,
        &mut selection,
    );
    assert_eq!(effects, vec![GestureEffect::Repaint]);
    assert_eq!(selection.items(), &[range(0, 2), range(3, 4)]);
    assert!(gesture
        .handle(GestureInput::Tick { tick: 15 }, ENV, &source, &mut selection)
        .is_empty());
}

#[test]
fn a_nonchained_press_clears_pending_plain_click_before_drag() {
    let resolver = |stage: GestureStage, value: TextAddr| {
        if stage == GestureStage::Grapheme {
            Some(range(value.addr.byte, value.addr.byte.saturating_add(1)))
        } else {
            None
        }
    };
    let source = ItemSource::from_fn(&resolver);
    let mut gesture = Gesture::default();
    let mut selection = CardSelection::default();
    selection.replace(range(8, 9));

    gesture.handle(
        input_press(0, Some(addr(0)), Button::Primary, false),
        ENV,
        &source,
        &mut selection,
    );
    gesture.handle(input_release(0, Button::Primary), ENV, &source, &mut selection);
    assert_eq!(
        gesture.handle(
            GestureInput::Press(PressInput {
                addr: Some(addr(2)),
                link: false,
                button: Button::Primary,
                local: PhysPoint { x: 20, y: 10 },
                tick: 1,
            }),
            ENV,
            &source,
            &mut selection,
        ),
        vec![GestureEffect::Repaint]
    );
    assert_eq!(
        gesture.handle(
            GestureInput::Move {
                addr: Some(addr(4)),
                local: PhysPoint { x: 30, y: 10 },
                tick: 2,
            },
            ENV,
            &source,
            &mut selection,
        ),
        vec![GestureEffect::DragStarted, GestureEffect::Repaint]
    );
    assert_eq!(selection.items(), &[range(2, 4)]);
    assert!(gesture
        .handle(GestureInput::Tick { tick: ENV.chain_ticks }, ENV, &source, &mut selection)
        .is_empty());
    assert_eq!(selection.items(), &[range(2, 4)]);
}

#[test]
fn replacing_plain_click_clears_immediately() {
    let resolver = |_stage: GestureStage, _addr: TextAddr| Some(range(0, 2));
    let source = ItemSource::from_fn(&resolver);
    let mut gesture = Gesture::default();
    let mut selection = CardSelection::default();
    selection.replace(range(3, 4));
    gesture.handle(
        input_press(0, Some(addr(0)), Button::Secondary, false),
        ENV,
        &source,
        &mut selection,
    );
    assert_eq!(
        gesture.handle(input_release(0, Button::Secondary), ENV, &source, &mut selection),
        vec![GestureEffect::Repaint]
    );
    assert!(selection.is_empty());
}

#[test]
fn a_word_waits_for_analysis() {
    let ready = Cell::new(false);
    let resolver = |stage: GestureStage, _addr: TextAddr| {
        (stage != GestureStage::Word || ready.get()).then_some(range(0, 2))
    };
    let source = ItemSource::from_fn(&resolver);
    let mut gesture = Gesture::default();
    let mut selection = CardSelection::default();
    assert_eq!(
        gesture.handle(
            input_press(0, Some(addr(0)), Button::Primary, false),
            ENV,
            &source,
            &mut selection,
        ),
        Vec::<GestureEffect>::new()
    );
    gesture.handle(input_release(0, Button::Primary), ENV, &source, &mut selection);
    assert_eq!(
        gesture.handle(
            input_press(1, Some(addr(0)), Button::Primary, false),
            ENV,
            &source,
            &mut selection,
        ),
        vec![GestureEffect::NeedWord { entry: 0, path: addr(0).addr.path, byte: 0 }]
    );
    ready.set(true);
    assert_eq!(
        gesture.handle(GestureInput::Analysis, ENV, &source, &mut selection),
        vec![GestureEffect::Repaint]
    );
    assert_eq!(selection.items(), &[range(0, 2)]);
}

#[test]
fn links_open_only_when_a_plain_primary_click_survives() {
    let resolver = |_stage: GestureStage, _addr: TextAddr| Some(range(0, 2));
    let source = ItemSource::from_fn(&resolver);
    let mut gesture = Gesture::default();
    let mut selection = CardSelection::default();
    gesture.handle(
        input_press(0, Some(addr(0)), Button::Primary, true),
        ENV,
        &source,
        &mut selection,
    );
    assert_eq!(
        gesture.handle(input_release(0, Button::Primary), ENV, &source, &mut selection),
        vec![GestureEffect::OpenLink]
    );

    gesture.handle(
        GestureInput::Press(PressInput {
            addr: Some(addr(0)),
            link: true,
            button: Button::Primary,
            local: PhysPoint { x: 0, y: 0 },
            tick: 10,
        }),
        ENV,
        &source,
        &mut selection,
    );
    gesture.handle(
        GestureInput::Move {
            addr: Some(addr(2)),
            local: PhysPoint { x: 10, y: 0 },
            tick: 11,
        },
        ENV,
        &source,
        &mut selection,
    );
    assert_eq!(
        gesture.handle(input_release(11, Button::Primary), ENV, &source, &mut selection),
        vec![GestureEffect::DragEnded]
    );
}

#[test]
fn a_link_without_text_keeps_no_anchor_and_cannot_drag() {
    let resolver = |_stage: GestureStage, _addr: TextAddr| Some(range(0, 2));
    let source = ItemSource::from_fn(&resolver);
    let mut gesture = Gesture::default();
    let mut selection = CardSelection::default();

    gesture.handle(
        GestureInput::Press(PressInput {
            addr: None,
            link: true,
            button: Button::Primary,
            local: PhysPoint { x: 0, y: 0 },
            tick: 0,
        }),
        ENV,
        &source,
        &mut selection,
    );
    assert!(gesture.anchor.is_none());
    assert!(gesture
        .handle(
            GestureInput::Move {
                addr: Some(addr(2)),
                local: PhysPoint { x: 10, y: 0 },
                tick: 1,
            },
            ENV,
            &source,
            &mut selection,
        )
        .is_empty());
    assert!(!gesture.dragging());
    assert_eq!(
        gesture.handle(input_release(1, Button::Primary), ENV, &source, &mut selection),
        vec![GestureEffect::OpenLink]
    );
}

#[test]
fn a_reset_forgets_the_chain() {
    let resolver = |_stage: GestureStage, _addr: TextAddr| Some(range(0, 2));
    let source = ItemSource::from_fn(&resolver);
    assert_eq!(source.item(GestureStage::Word, addr(1)), Some(range(0, 2)));
    let mut gesture = Gesture::default();
    let mut selection = CardSelection::default();
    for tick in 0..2 {
        gesture.handle(
            input_press(tick, Some(addr(0)), Button::Primary, false),
            ENV,
            &source,
            &mut selection,
        );
        gesture.reset();
    }
    assert!(selection.is_empty(), "without a chain no press selects");
    assert_eq!(gesture, Gesture::default());
}
