//! What is selected on the cards.
use chibipop::dict::gloss::GlossDoc;
use chibipop::present::{Card, GlossBlock, GlossEntry};
use chibipop::select::addr::{DocAddr, DocRange, NodePath, SelRange, TextAddr};
use chibipop::select::gesture::{resolve_card, GestureStage, RowRanges};
use chibipop::select::{entries, CardSelection, Coverage, Selections};
use std::sync::Arc;

fn addr(entry: u32, byte: u32) -> TextAddr {
    TextAddr {
        entry,
        addr: DocAddr {
            path: NodePath::root(),
            byte,
        },
    }
}

fn range(start_entry: u32, start: u32, end_entry: u32, end: u32) -> SelRange {
    SelRange {
        start: addr(start_entry, start),
        end: addr(end_entry, end),
    }
}

fn extent(start: u32, end: u32) -> DocRange {
    DocRange {
        start: DocAddr {
            path: NodePath::root(),
            byte: start,
        },
        end: DocAddr {
            path: NodePath::root(),
            byte: end,
        },
    }
}

fn test_card() -> Card {
    let doc = Arc::new(GlossDoc::default());
    let entry = |entry_id| GlossEntry {
        entry_id,
        glosses: Vec::new(),
        tags: Vec::new(),
        doc: doc.clone(),
        media: Vec::new(),
    };
    Card {
        written: None,
        reading: None,
        pos: Vec::new(),
        freq: None,
        blocks: vec![
            GlossBlock {
                dict_name: "first".to_string(),
                dict_id: 1,
                entries: vec![entry(11), entry(12)],
            },
            GlossBlock {
                dict_name: "second".to_string(),
                dict_id: 2,
                entries: vec![entry(21)],
            },
        ],
        match_len: 0,
        pitch: Vec::new(),
    }
}

#[test]
fn entries_flattens_blocks_in_display_order() {
    let card = test_card();
    let ids: Vec<_> = entries(&card).into_iter().map(|(ordinal, entry)| (ordinal, entry.entry_id)).collect();
    assert_eq!(vec![(0, 11), (1, 12), (2, 21)], ids);
}

#[test]
fn toggle_table_applies_containment_rules() {
    let cases = vec![
        (range(0, 2, 0, 4), range(0, 2, 0, 4), Vec::new()),
        (range(0, 1, 0, 9), range(0, 2, 0, 8), vec![range(0, 2, 0, 8)]),
        (range(0, 2, 0, 4), range(0, 1, 0, 5), vec![range(0, 1, 0, 5)]),
        (
            range(0, 1, 0, 4),
            range(0, 3, 0, 7),
            vec![range(0, 1, 0, 4), range(0, 3, 0, 7)],
        ),
    ];

    for (old, new, expected) in cases {
        let mut selection = CardSelection::default();
        selection.replace(old);
        selection.toggle(new);
        assert_eq!(expected, selection.items());
    }
}

#[test]
fn replace_clears_first() {
    let mut selection = CardSelection::default();
    selection.replace(range(0, 1, 0, 2));
    selection.replace(range(1, 1, 1, 3));
    assert_eq!(&[range(1, 1, 1, 3)], selection.items());
}

#[test]
fn entry_ranges_clip_a_range_across_three_entries() {
    let mut selection = CardSelection::default();
    selection.replace(range(0, 3, 2, 4));

    assert_eq!(
        vec![DocRange {
            start: DocAddr {
                path: NodePath::root(),
                byte: 3,
            },
            end: DocAddr::end(),
        }],
        selection.entry_ranges(0)
    );
    assert_eq!(
        vec![DocRange {
            start: DocAddr::start(),
            end: DocAddr::end(),
        }],
        selection.entry_ranges(1)
    );
    assert_eq!(
        vec![DocRange {
            start: DocAddr::start(),
            end: DocAddr {
                path: NodePath::root(),
                byte: 4,
            },
        }],
        selection.entry_ranges(2)
    );
}

#[test]
fn coverage_reports_none_partial_and_all() {
    let full = extent(0, 10);
    let cases = [
        (Coverage::Empty, Vec::new()),
        (Coverage::Partial, vec![range(0, 2, 0, 5)]),
        (Coverage::All, vec![range(0, 0, 0, 10)]),
    ];
    for (expected, items) in cases {
        let mut selection = CardSelection::default();
        for item in items {
            selection.toggle(item);
        }
        assert_eq!(expected, selection.coverage(0, full));
    }
}

#[test]
fn set_entry_turns_selection_on_and_off() {
    let full = extent(0, 10);
    let mut selection = CardSelection::default();
    selection.set_entry(0, full, true);
    assert_eq!(Coverage::All, selection.coverage(0, full));
    selection.set_entry(0, full, false);
    assert!(selection.is_empty());
}

#[test]
fn card_coverage_is_none_partial_or_all() {
    let extents = [extent(0, 10), extent(0, 10)];
    let mut selections = Selections::default();
    assert_eq!(Coverage::Empty, selections.coverage_of_card(0, &extents));

    selections.card_mut(0).replace(range(0, 0, 1, 10));
    assert_eq!(Coverage::All, selections.coverage_of_card(0, &extents));

    selections.card_mut(0).replace(range(0, 0, 0, 5));
    assert_eq!(Coverage::Partial, selections.coverage_of_card(0, &extents));
}

#[test]
fn swap_mirrors_swap_top_indexes() {
    let mut selections = Selections::default();
    selections.card_mut(0).replace(range(0, 0, 0, 1));
    selections.card_mut(1).replace(range(1, 0, 1, 1));
    selections.card_mut(2).replace(range(2, 0, 2, 1));
    selections.swap(0, 1);
    assert_eq!(Some(&[range(1, 0, 1, 1)][..]), selections.card(0).map(CardSelection::items));
    assert_eq!(Some(&[range(0, 0, 0, 1)][..]), selections.card(1).map(CardSelection::items));
}

#[test]
fn union_merges_overlapping_and_touching_ranges() {
    let mut selection = CardSelection::default();
    selection.replace(range(0, 5, 0, 8));
    selection.toggle(range(0, 1, 0, 5));
    selection.toggle(range(0, 8, 0, 10));
    assert_eq!(vec![range(0, 1, 0, 10)], selection.union());
}

#[test]
fn toggling_a_range_twice_takes_it_out() {
    let mut sel = CardSelection::default();
    sel.toggle(range(0, 0, 0, 4));
    let before = sel.items().to_vec();
    sel.toggle(range(0, 10, 0, 14));
    assert_eq!(sel.items().len(), 2);
    sel.toggle(range(0, 10, 0, 14));
    assert_eq!(sel.items(), &before[..]);
    sel.toggle(range(0, 9, 0, 2));
    assert_eq!(sel.items(), &before[..], "a range that ends before it starts is none");
}

#[test]
fn a_swap_of_selections_undoes_itself() {
    let mut all = Selections::default();
    all.card_mut(0).toggle(range(0, 0, 0, 4));
    all.card_mut(2).toggle(range(1, 1, 1, 2));
    all.swap(0, 2);
    assert_eq!(all.card(0).unwrap().items(), &[range(1, 1, 1, 2)]);
    assert_eq!(all.card(2).unwrap().items(), &[range(0, 0, 0, 4)]);
    all.swap(0, 2);
    assert_eq!(all.card(0).unwrap().items(), &[range(0, 0, 0, 4)]);
    assert!(all.card(1).map_or(true, |c| c.is_empty()));
}

#[test]
fn paths_stand_in_document_order() {
    let root = NodePath::root();
    let first = root.child(0).unwrap();
    let second = root.child(1).unwrap();
    let inside = first.child(3).unwrap();
    let at = |path, byte| DocAddr { path, byte };
    assert!(at(root, 9).before(at(first, 0)));
    assert!(at(first, 9).before(at(inside, 0)));
    assert!(at(inside, 9).before(at(second, 0)));
    assert!(at(first, 1).before(at(first, 2)));
    assert!(!at(first, 2).before(at(first, 2)));
    assert!(DocAddr::start().before(at(root, 1)) && at(second, u32::MAX).before(DocAddr::end()));
}

fn row_ranges(leaf: &str, word: Option<(u32, u32)>) -> RowRanges {
    RowRanges {
        grapheme: Some(extent(0, 1)),
        leaf: leaf.to_string(),
        word,
        sense: Some(extent(0, 6)),
        extent: Some(extent(0, 9)),
    }
}

#[test]
fn a_range_of_a_row_becomes_an_item_of_the_card() {
    let card = test_card();
    let last = entries(&card).len() as u32 - 1;
    let row = row_ranges("猫が", Some((0, 3)));
    for (stage, end) in [
        (GestureStage::Grapheme, 1),
        (GestureStage::Word, 3),
        (GestureStage::Sense, 6),
        (GestureStage::Entry, 9),
    ] {
        let item = resolve_card(&card, &row, stage, addr(last, 0));
        assert_eq!(item, Some(range(last, 0, last, end)));
        assert_eq!(resolve_card(&card, &row, stage, addr(last + 1, 0)), None, "no such row");
    }
    let bare = RowRanges { grapheme: None, sense: None, extent: None, ..row };
    assert_eq!(resolve_card(&card, &bare, GestureStage::Sense, addr(0, 0)), None);
}

#[test]
fn a_word_needs_an_analysis_a_leaf_and_some_bytes() {
    let card = test_card();
    for row in [row_ranges("猫が", None), row_ranges("", Some((0, 3))), row_ranges("猫", Some((3, 3)))] {
        assert_eq!(resolve_card(&card, &row, GestureStage::Word, addr(0, 0)), None);
    }
}

#[test]
fn no_selected_range_holds_another() {
    let mut sel = CardSelection::default();
    for (a, b) in [(0, 4), (2, 8), (1, 3), (0, 9), (3, 5), (4, 12), (20, 22), (19, 30), (5, 6)] {
        sel.toggle(range(0, a, 0, b));
        sel.toggle(range(1, b, 2, a));
        let items = sel.items();
        for (i, x) in items.iter().enumerate() {
            assert!(x.is_valid());
            for (j, y) in items.iter().enumerate() {
                assert!(i == j || !x.is_around(*y), "{x:?} holds {y:?}");
            }
        }
    }
    sel.set_entry(1, extent(0, 50), true);
    assert!(sel.items().contains(&range(1, 0, 1, 50)));
    assert_eq!(1, sel.items().iter().filter(|r| r.start.entry <= 1 && r.end.entry >= 1).count());
}
