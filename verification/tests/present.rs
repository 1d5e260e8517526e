//! What a popup shows.
use chibipop::dict::pitch::{Accent, Position};
use chibipop::geom::PhysRect;
use chibipop::lookup::model::{Entry, FakeDictionary, Hit};
use chibipop::present::{
    build, can_highlight, collapsed_from_card, keeps_dict, list_rank, match_highlight, swap_top,
    AnkiPopupState, Card, DictInfo, GlossBlock, PresentConfig, HIGHLIGHT_PAD,
};
use chibipop::text::{TextGeom, TextSpan};

/// Returns a mock dictionary without Pitch accent data.
fn no_pitch() -> FakeDictionary {
    FakeDictionary::new()
}

/// Creates a mock dictionary with the specified Pitch accent claims.
fn with_pitch(claims: &[(i64, &str, &str, Accent)]) -> FakeDictionary {
    let mut dict = FakeDictionary::new();
    for (dict_id, term, reading, accent) in claims {
        dict.add_pitch(term, reading, *dict_id, accent.clone());
    }
    dict
}

/// Creates an Accent with a downstep position and no tags.
fn downstep(fall: u32) -> Accent {
    Accent {
        position: Position::Downstep(fall),
        nasal: Vec::new(),
        devoice: Vec::new(),
        tags: Vec::new(),
    }
}

fn dicts() -> Vec<DictInfo> {
    vec![
        DictInfo { dict_id: 1, name: "Jitendex.org [2026-07-09]".into() },
        DictInfo { dict_id: 2, name: "大辞林　第四版".into() },
    ]
}

fn cfg() -> PresentConfig {
    PresentConfig {
        terms: vec!["大辞林　第四版".into(), "Jitendex.org [2026-07-09]".into()],
        pitch: vec!["大辞林　第四版".into(), "Jitendex.org [2026-07-09]".into()],
        summary_chars: 40,
    }
}

/// Creates a GlossBlock from plain string slices.
fn strings(dict: &str, glosses: &[&str]) -> GlossBlock {
    GlossBlock::parse(dict, &serde_json::to_string(glosses).unwrap())
}

/// Creates a Hit with a default noun tag.
fn hit(written: &str, reading: &str, dict_id: i64, gloss: &str) -> Hit {
    hit_tagged(written, reading, dict_id, gloss, &["noun"])
}

/// Creates a Hit with specified part-of-speech tags.
fn hit_tagged(
    written: &str,
    reading: &str,
    dict_id: i64,
    gloss: &str,
    pos: &[&str],
) -> Hit {
    let mut content: Vec<String> = pos
        .iter()
        .map(|p| {
            format!(
                r#"{{"tag": "span", "data": {{"content": "part-of-speech-info"}}, "content": {}}}"#,
                serde_json::to_string(p).unwrap(),
            )
        })
        .collect();
    content.push(format!(
        r#"{{"tag": "div", "content": {}}}"#,
        serde_json::to_string(gloss).unwrap(),
    ));
    let glossary =
        format!(r#"[{{"type": "structured-content", "content": [{}]}}]"#, content.join(","));
    Hit {
        written: Some(written.to_string()),
        reading: Some(reading.to_string()),
        match_len: 2,
        freq: Some(365),
        score: 770,
        process: vec![],
        entry: Entry::parse(dict_id * 100, dict_id, &glossary),
    }
}

/// Verifies that multiple rows from one dictionary combine into one block.
#[test]
fn three_rows_from_one_dictionary_become_one_block_with_three_entries() {
    let hits = vec![
        hit("昨日", "きのう", 2, "今日の一日前の日。"),
        hit("昨日", "きのう", 2, "過ぎ去った日。"),
        hit("昨日", "きのう", 2, "近い過去。"),
    ];
    let p = build(&hits, &dicts(), &cfg(), &no_pitch());
    let blocks = &p.top.as_ref().unwrap().blocks;
    assert_eq!(1, blocks.len(), "one dictionary, one block");
    assert_eq!(3, blocks[0].entries.len(), "one entry per matched row");
    assert_eq!(
        vec!["今日の一日前の日。", "過ぎ去った日。", "近い過去。"],
        blocks[0].glosses(),
        "in the order the rows ranked"
    );
}

/// Verifies that dictionary configuration order determines block sequence.
#[test]
fn a_multi_row_dictionary_still_orders_by_the_configuration() {
    let hits = vec![
        hit("昨日", "きのう", 1, "yesterday"),
        hit("昨日", "きのう", 2, "今日の一日前の日。"),
        hit("昨日", "きのう", 2, "過ぎ去った日。"),
    ];
    let p = build(&hits, &dicts(), &cfg(), &no_pitch());
    let blocks = &p.top.as_ref().unwrap().blocks;
    assert_eq!(2, blocks.len(), "two dictionaries, two blocks");
    assert!(blocks[0].dict_name.contains("大辞林"), "got {:?}", blocks[0].dict_name);
    assert_eq!(2, blocks[0].entries.len());
    assert!(blocks[1].dict_name.contains("Jitendex"));
    assert_eq!(1, blocks[1].entries.len());
}

/// A term bank can leave the reading empty. Babylon does so on 9 990 of its 10 000
/// rows, and 大辞泉 does so on alias rows. The build then stores the term as its own
/// reading with no written form, the shape of a kana-only headword.
///
/// Such a row must not open a Card of its own above the real one. It joins the Card
/// with the same written form, and that Card keeps the reading and pitch that the
/// other Dictionary supplies. Here the reading-less row ranks first, as it did for
/// 銀の匙 in the library.
#[test]
fn a_row_with_no_reading_joins_the_card_that_has_one() {
    let mut orphan = hit("銀の匙", "銀の匙", 1, "n. silver spoon");
    orphan.written = None;
    let hits = vec![orphan, hit("銀の匙", "ぎんのさじ", 2, "銀で作ったさじ。")];
    let p = build(&hits, &dicts(), &cfg(), &with_pitch(&[(2, "銀の匙", "ぎんのさじ", downstep(0))]));
    assert_eq!(1, p.all_cards.len(), "one word, one card: {:?}", p.all_cards);
    let card = p.top.expect("a top card");
    assert_eq!(Some("銀の匙"), card.written.as_deref());
    assert_eq!(Some("ぎんのさじ"), card.reading.as_deref(), "borrowed from 大辞林");
    assert_eq!(1, card.pitch.len(), "and the pitch of that reading");
    assert_eq!(2, card.blocks.len(), "both Dictionaries gloss the one card");
}

/// A reading-less row with no Dictionary to borrow from keeps its own Card. The Card
/// has the written form and no reading. The old shape claimed the kanji string as a
/// reading, so a mined note put 銀の in its reading field.
#[test]
fn a_row_with_no_reading_and_no_sibling_has_a_written_form_and_no_reading() {
    let mut orphan = hit("銀の", "銀の", 1, "adj. silver");
    orphan.written = None;
    let p = build(&[orphan], &dicts(), &cfg(), &no_pitch());
    let card = p.top.expect("a top card");
    assert_eq!(Some("銀の"), card.written.as_deref());
    assert_eq!(None, card.reading.as_deref());
}

/// A kana-only headword keeps its shape. Its reading is the headword, and the popup
/// shows it once.
#[test]
fn a_kana_only_headword_keeps_its_reading_as_its_headword() {
    let mut cat = hit("ねこ", "ねこ", 1, "cat");
    cat.written = None;
    let p = build(&[cat], &dicts(), &cfg(), &no_pitch());
    let card = p.top.expect("a top card");
    assert_eq!(None, card.written.as_deref());
    assert_eq!(Some("ねこ"), card.reading.as_deref());
}

/// Verifies that consecutive entries suppress duplicate tag displays.
#[test]
fn consecutive_rows_with_one_tag_set_print_it_once() {
    let hits = vec![
        hit_tagged("昨日", "きのう", 2, "a", &["noun"]),
        hit_tagged("昨日", "きのう", 2, "b", &["noun"]),
        hit_tagged("昨日", "きのう", 2, "c", &["adverb"]),
        hit_tagged("昨日", "きのう", 2, "d", &["adverb"]),
    ];
    let card = build(&hits, &dicts(), &cfg(), &no_pitch()).top.expect("a top card");
    assert_eq!(vec!["noun".to_string()], card.pos, "the card's own tag line");
    let printed: Vec<Vec<String>> =
        card.blocks[0].entries.iter().map(|e| e.tags.clone()).collect();
    assert_eq!(
        vec![vec![], vec![], vec!["adverb".to_string()], vec![]],
        printed,
        "the card line already said noun, so only the change prints"
    );
}

/// Verifies that numeric tags do not appear in output tag lists.
#[test]
fn a_numeric_tag_never_reaches_the_panel() {
    let hits = vec![
        hit_tagged("昨日", "きのう", 2, "a", &["1", "noun"]),
        hit_tagged("昨日", "きのう", 2, "b", &["\u{ff12}", "adverb"]),
        hit_tagged("昨日", "きのう", 2, "c", &["\u{2462}"]),
    ];
    let card = build(&hits, &dicts(), &cfg(), &no_pitch()).top.expect("a top card");
    assert_eq!(vec!["noun".to_string()], card.pos, "not \"1 · noun\"");
    let printed: Vec<Vec<String>> =
        card.blocks[0].entries.iter().map(|e| e.tags.clone()).collect();
    assert_eq!(vec![vec![], vec!["adverb".to_string()], vec![]], printed);
}

/// Verifies that exact names keep Dictionaries with shared prefixes separate.
#[test]
fn present_two_dictionaries_sharing_a_substring_are_enabled_independently() {
    let list = vec!["大辞林　第四版".to_string()];
    assert!(keeps_dict("大辞林　第四版", &list));
    assert!(!keeps_dict("大辞林　第三版", &list));
    assert!(!keeps_dict("大辞林", &list), "the shared prefix names nothing on its own");
}

/// Verifies that an empty terms list produces no output cards.
#[test]
fn an_empty_terms_list_searches_nothing() {
    let hits = vec![hit("猫", "ねこ", 1, "cat"), hit("犬", "いぬ", 2, "dog")];
    let cfg = PresentConfig { terms: Vec::new(), pitch: Vec::new(), summary_chars: 40 };
    let p = build(&hits, &dicts(), &cfg, &no_pitch());
    assert!(p.all_cards.is_empty(), "no dictionary is enabled, so nothing is searched");
    assert!(p.top.is_none());
}

#[test]
fn a_disabled_dictionary_contributes_no_card() {
    let hits = vec![hit("猫", "ねこ", 1, "cat"), hit("犬", "いぬ", 2, "dog")];
    let cfg = PresentConfig {
        terms: vec!["大辞林　第四版".to_string()],
        pitch: Vec::new(),
        summary_chars: 40,
    };
    let p = build(&hits, &dicts(), &cfg, &no_pitch());
    assert_eq!(1, p.all_cards.len(), "the disabled dictionary makes no card");
    assert!(p.all_cards[0].blocks.iter().all(|b| b.dict_name == "大辞林　第四版"));
    assert!(!p.all_cards[0].blocks.is_empty(), "and the card is not hollow");
}

#[test]
fn empty_hits_yield_nothing() {
    let p = build(&[], &dicts(), &cfg(), &no_pitch());
    assert!(p.top.is_none());
    assert!(p.collapsed.is_empty());
}

#[test]
fn a_single_hit_becomes_the_top_card_with_no_rows() {
    let p = build(&[hit("昨日", "きのう", 1, "yesterday")], &dicts(), &cfg(), &no_pitch());
    assert_eq!(Some("昨日".to_string()), p.top.as_ref().unwrap().written);
    assert!(p.collapsed.is_empty());
}

#[test]
fn same_word_from_two_dictionaries_merges_into_one_card() {
    let hits = vec![
        hit("昨日", "きのう", 1, "yesterday"),
        hit("昨日", "きのう", 2, "今日の一日前の日。"),
    ];
    let p = build(&hits, &dicts(), &cfg(), &no_pitch());
    assert!(p.collapsed.is_empty(), "the two must merge, not collapse");
    assert_eq!(2, p.top.as_ref().unwrap().blocks.len());
}

#[test]
fn daijirin_orders_before_jitendex_regardless_of_dict_id() {
    let hits = vec![
        hit("昨日", "きのう", 1, "yesterday"),
        hit("昨日", "きのう", 2, "今日の一日前の日。"),
    ];
    let p = build(&hits, &dicts(), &cfg(), &no_pitch());
    let blocks = &p.top.as_ref().unwrap().blocks;
    assert!(blocks[0].dict_name.contains("大辞林"), "got {:?}", blocks[0].dict_name);
    assert!(blocks[1].dict_name.contains("Jitendex"));
}

#[test]
fn a_different_reading_is_a_different_card() {
    let hits = vec![
        hit("昨日", "きのう", 1, "yesterday"),
        hit("昨日", "さくじつ", 1, "yesterday"),
    ];
    let p = build(&hits, &dicts(), &cfg(), &no_pitch());
    assert_eq!(1, p.collapsed.len());
    assert_eq!(Some("さくじつ".to_string()), p.collapsed[0].reading);
}

#[test]
fn group_order_follows_the_best_hits_rank() {
    let hits = vec![
        hit("昨日", "きのう", 1, "yesterday"),
        hit("昨", "さく", 1, "last (year)"),
        hit("昨日", "きのう", 2, "今日の一日前の日。"),
    ];
    let p = build(&hits, &dicts(), &cfg(), &no_pitch());
    assert_eq!(Some("昨日".to_string()), p.top.as_ref().unwrap().written);
    assert_eq!(1, p.collapsed.len());
    assert_eq!(Some("昨".to_string()), p.collapsed[0].written);
}

#[test]
fn summary_truncates_on_a_char_boundary_and_marks_the_cut() {
    let long = "あ".repeat(80);
    let hits = vec![
        hit("A", "あ", 1, "short"),
        hit("B", "い", 1, &long),
    ];
    let p = build(&hits, &dicts(), &cfg(), &no_pitch());
    let s = &p.collapsed[0].summary;
    assert!(s.ends_with('…'));
    assert_eq!(41, s.chars().count(), "40 chars plus the ellipsis");
}

#[test]
fn a_short_summary_is_not_marked() {
    let hits = vec![hit("A", "あ", 1, "short"), hit("B", "い", 1, "also short")];
    let p = build(&hits, &dicts(), &cfg(), &no_pitch());
    assert_eq!("also short", p.collapsed[0].summary);
}

/// Verifies that list rank orders listed names and rejects unlisted names.
#[test]
fn a_list_ranks_the_names_it_holds_and_no_others() {
    let list = vec!["大辞林　第四版".to_string(), "Jitendex.org [2026-07-09]".to_string()];
    assert_eq!(Some(0), list_rank("大辞林　第四版", &list));
    assert_eq!(Some(1), list_rank("Jitendex.org [2026-07-09]", &list));
    assert_eq!(None, list_rank("Jitendex", &list), "a prefix is not the name");
    assert_eq!(None, list_rank("大辞林　第四版", &[]));
}

/// Verifies that an empty string in a configuration list matches nothing.
#[test]
fn a_blank_list_entry_names_nothing() {
    let with_blank = vec![String::new(), "Jitendex.org".to_string()];
    assert!(!keeps_dict("", &["Jitendex.org".to_string()]));
    assert_eq!(Some(1), list_rank("Jitendex.org", &with_blank));
}

/// Verifies that an unlisted Dictionary ID still produces output.
#[test]
fn a_row_from_a_dictionary_no_identity_names_still_produces_a_block() {
    let hits = vec![hit("猫", "ねこ", 99, "cat")];
    let p = build(&hits, &dicts(), &cfg(), &no_pitch());
    assert_eq!(1, p.top.as_ref().unwrap().blocks.len());
}

fn bare_card(match_len: usize) -> Card {
    Card {
        written: None,
        reading: None,
        pos: vec![],
        freq: None,
        blocks: vec![],
        match_len,
        pitch: Vec::new(),
    }
}

/// Creates a mock text span with 30-pixel character geometries.
fn span_of(text: &str, cursor_byte_offset: usize) -> TextSpan {
    let geom = (0..text.chars().count())
        .map(|i| TextGeom {
            char_count: 1,
            rect: PhysRect { x: 100 + 30 * i as i32, y: 200, w: 30, h: 40 },
        })
        .collect();
    TextSpan {
        text: text.to_string(),
        cursor_byte_offset,
        anchor: PhysRect { x: 100, y: 200, w: 30, h: 40 },
        geom,
    }
}

#[test]
fn the_highlight_starts_at_the_hovered_character_not_the_line_start() {
    let span = span_of("その可哀想", "その".len());
    let r = match_highlight(&span, Some(&bare_card(3))).unwrap();
    assert_eq!(PhysRect { x: 157, y: 197, w: 96, h: 46 }, r,
               "three 30px boxes from x=160, padded 3px");
}

#[test]
fn leading_whitespace_at_the_cursor_is_skipped_by_the_highlight() {
    let span = span_of("あ 猫", "あ".len());
    let r = match_highlight(&span, Some(&bare_card(1))).unwrap();
    assert_eq!(160, r.x + HIGHLIGHT_PAD, "the box must start at 猫, not at the space");
}

/// Verifies that spans without character geometry produce no highlight rectangle.
#[test]
fn a_span_without_geometry_draws_no_highlight() {
    let mut span = span_of("可哀想", 0);
    span.geom.clear();
    assert_eq!(None, match_highlight(&span, Some(&bare_card(3))));
}

#[test]
fn no_top_card_draws_no_highlight() {
    assert_eq!(None, match_highlight(&span_of("可哀想", 0), None));
}

#[test]
fn a_match_longer_than_the_known_geometry_boxes_what_is_known() {
    let span = span_of("猫", 0);
    let r = match_highlight(&span, Some(&bare_card(9))).unwrap();
    assert_eq!(PhysRect { x: 97, y: 197, w: 36, h: 46 }, r);
}

#[test]
fn the_card_carries_its_best_hits_match_len() {
    let mut long = hit("可哀想", "かわいそう", 1, "pitiable");
    long.match_len = 3;
    let mut short = hit("可哀想", "かわいそう", 2, "気の毒なさま。");
    short.match_len = 3;
    let p = build(&[long, short], &dicts(), &cfg(), &no_pitch());
    assert_eq!(3, p.top.as_ref().unwrap().match_len);
}

#[test]
fn build_populates_all_cards_for_every_group() {
    let hits = vec![
        hit("昨日", "きのう", 1, "yesterday"),
        hit("昨", "さく", 1, "last (year)"),
    ];
    let p = build(&hits, &dicts(), &cfg(), &no_pitch());
    assert_eq!(2, p.all_cards.len());
    assert_eq!(Some("昨日".to_string()), p.all_cards[0].written);
    assert_eq!(Some("昨".to_string()), p.all_cards[1].written);
}

#[test]
fn collapsed_from_card_takes_the_first_gloss() {
    let card = Card {
        written: Some("猫".into()),
        reading: Some("ねこ".into()),
        pos: vec!["noun".into()],
        freq: Some(100),
        blocks: vec![strings("Test", &["cat", "feline"])],
        match_len: 1,
        pitch: Vec::new(),
    };
    let row = collapsed_from_card(&card, 40);
    assert_eq!(Some("猫".to_string()), row.written);
    assert_eq!(Some("ねこ".to_string()), row.reading);
    assert_eq!("cat", row.summary);
}

#[test]
fn collapsed_from_card_truncates_long_glosses() {
    let long = "あ".repeat(80);
    let card = Card {
        written: None,
        reading: None,
        pos: vec![],
        freq: None,
        blocks: vec![strings("D", &[&long])],
        match_len: 1,
        pitch: Vec::new(),
    };
    let row = collapsed_from_card(&card, 40);
    assert!(row.summary.ends_with('…'));
    assert_eq!(41, row.summary.chars().count());
}

#[test]
fn collapsed_from_card_with_no_blocks_yields_an_empty_summary() {
    let card = bare_card(1);
    let row = collapsed_from_card(&card, 40);
    assert_eq!("", row.summary);
}

/// Verifies that multi-line glosses convert into single-line summaries.
#[test]
fn collapsed_from_card_folds_a_multiline_gloss_onto_one_line() {
    let card = Card {
        written: Some("走る".into()),
        reading: None,
        pos: vec![],
        freq: None,
        blocks: vec![strings("D", &["to run\nto flow"])],
        match_len: 1,
        pitch: Vec::new(),
    };
    let row = collapsed_from_card(&card, 40);
    assert_eq!("to run; to flow", row.summary);
}

/// Verifies that truncation occurs after newline replacement.
#[test]
fn a_folded_summary_is_truncated_after_folding() {
    let card = Card {
        written: None,
        reading: None,
        pos: vec![],
        freq: None,
        blocks: vec![strings("D", &[&format!("{}\n{}", "あ".repeat(30), "い".repeat(30))])],
        match_len: 1,
        pitch: Vec::new(),
    };
    let row = collapsed_from_card(&card, 40);
    assert!(!row.summary.contains('\n'));
    assert_eq!(41, row.summary.chars().count());
}

#[test]
fn swap_top_promotes_the_selected_entry() {
    let hits = vec![
        hit("昨日", "きのう", 1, "yesterday"),
        hit("昨", "さく", 1, "last (year)"),
        hit("日", "にち", 1, "day"),
    ];
    let mut p = build(&hits, &dicts(), &cfg(), &no_pitch());
    assert_eq!(Some("昨日".to_string()), p.top.as_ref().unwrap().written);

    swap_top(&mut p, 0, 40);
    assert_eq!(Some("昨".to_string()), p.top.as_ref().unwrap().written);
    assert_eq!(2, p.collapsed.len());
    assert_eq!(Some("昨日".to_string()), p.collapsed[0].written);
    assert_eq!(Some("日".to_string()), p.collapsed[1].written);
}

#[test]
fn swap_top_out_of_range_is_a_no_op() {
    let hits = vec![hit("猫", "ねこ", 1, "cat")];
    let mut p = build(&hits, &dicts(), &cfg(), &no_pitch());
    let again = build(&hits, &dicts(), &cfg(), &no_pitch());
    swap_top(&mut p, 0, 40);
    assert_eq!(again, p);
}

#[test]
fn swap_top_preserves_all_cards_content() {
    let hits = vec![
        hit("昨日", "きのう", 1, "yesterday"),
        hit("昨", "さく", 1, "last (year)"),
    ];
    let mut p = build(&hits, &dicts(), &cfg(), &no_pitch());
    let originals: Vec<String> = p
        .all_cards
        .iter()
        .filter_map(|c| c.written.clone())
        .collect();

    swap_top(&mut p, 0, 40);

    let mut after: Vec<String> = p
        .all_cards
        .iter()
        .filter_map(|c| c.written.clone())
        .collect();
    after.sort();
    let mut expected = originals;
    expected.sort();
    assert_eq!(expected, after);
}

#[test]
fn swap_top_then_swap_back_restores_the_original() {
    let hits = vec![
        hit("昨日", "きのう", 1, "yesterday"),
        hit("昨", "さく", 1, "last (year)"),
    ];
    let mut p = build(&hits, &dicts(), &cfg(), &no_pitch());
    let original_top = p.top.clone();

    swap_top(&mut p, 0, 40);
    assert_ne!(original_top, p.top);
    swap_top(&mut p, 0, 40);
    assert_eq!(original_top, p.top);
}

#[test]
fn build_leaves_sentence_unset() {
    let p = build(&[hit("猫", "ねこ", 1, "cat")], &dicts(), &cfg(), &no_pitch());
    assert!(p.sentence.is_none());
}

// ---- pitch

/// Verifies that identical pitch accents collapse into a single row.
#[test]
fn two_dictionaries_giving_one_accent_draw_one_row_naming_both() {
    let dict = with_pitch(&[
        (1, "昨日", "きのう", downstep(1)),
        (2, "昨日", "きのう", downstep(1)),
    ]);

    let card = build(&[hit("昨日", "きのう", 1, "yesterday")], &dicts(), &cfg(), &dict)
        .top
        .expect("a top card");

    assert_eq!(1, card.pitch.len(), "one accent, one row: {:?}", card.pitch);
    assert_eq!(Position::Downstep(1), card.pitch[0].accent.position);
    assert_eq!(
        vec!["大辞林　第四版".to_string(), "Jitendex.org [2026-07-09]".to_string()],
        card.pitch[0].dicts,
        "both names against the one row, in the pitch list's order"
    );
}

/// Verifies that distinct pitch accents produce separate rows in priority order.
#[test]
fn two_dictionaries_giving_different_accents_draw_two_rows_in_list_order() {
    // The test seeds the lower-priority Dictionary first. This order catches code
    // that keeps stored order instead of using Pitch list order.
    let dict = with_pitch(&[
        (1, "昨日", "きのう", downstep(0)),
        (2, "昨日", "きのう", downstep(1)),
    ]);

    let card = build(&[hit("昨日", "きのう", 1, "yesterday")], &dicts(), &cfg(), &dict)
        .top
        .expect("a top card");

    assert_eq!(
        vec![Position::Downstep(1), Position::Downstep(0)],
        card.pitch.iter().map(|r| r.accent.position.clone()).collect::<Vec<_>>(),
        "大辞林 leads the configured order, so its accent leads"
    );
    assert_eq!(vec!["大辞林　第四版".to_string()], card.pitch[0].dicts);
    assert_eq!(vec!["Jitendex.org [2026-07-09]".to_string()], card.pitch[1].dicts);
}

/// Verifies that multiple Dictionaries that report one Accent share a row.
#[test]
fn a_majority_and_a_dissenter_draw_two_rows_with_the_names_split_between_them() {
    let mut dict = FakeDictionary::new();
    for id in [1, 2, 3] {
        dict.add_pitch("合縁奇縁", "あいえんきえん", id, downstep(5));
    }
    dict.add_pitch("合縁奇縁", "あいえんきえん", 4, downstep(0));
    let named = vec![
        DictInfo { dict_id: 1, name: "NHK".into() },
        DictInfo { dict_id: 2, name: "三省堂".into() },
        DictInfo { dict_id: 3, name: "新明解".into() },
        DictInfo { dict_id: 4, name: "大辞泉".into() },
    ];
    let hits = vec![hit("合縁奇縁", "あいえんきえん", 1, "a happy match")];
    let listed: Vec<String> = named.iter().map(|d| d.name.clone()).collect();
    let cfg = PresentConfig {
        terms: listed.clone(),
        pitch: listed,
        summary_chars: 40,
    };

    let card = build(&hits, &named, &cfg, &dict).top.expect("a top card");

    assert_eq!(2, card.pitch.len());
    assert_eq!(3, card.pitch[0].dicts.len(), "{:?}", card.pitch[0].dicts);
    assert_eq!(vec!["大辞泉".to_string()], card.pitch[1].dicts);
}

/// Verifies that accent position determines equality regardless of mora markers.
#[test]
fn one_accent_marked_by_one_dictionary_and_bare_by_another_is_still_one_row() {
    let marked = Accent {
        position: Position::Downstep(0),
        nasal: vec![4],
        devoice: vec![2],
        tags: Vec::new(),
    };
    let dict = with_pitch(&[
        (2, "合鍵", "あいかぎ", marked.clone()),
        (1, "合鍵", "あいかぎ", downstep(0)),
    ]);

    let card = build(&[hit("合鍵", "あいかぎ", 1, "spare key")], &dicts(), &cfg(), &dict)
        .top
        .expect("a top card");

    assert_eq!(1, card.pitch.len(), "{:?}", card.pitch);
    assert_eq!(
        marked, card.pitch[0].accent,
        "the markers kept are the highest-ordered dictionary's"
    );
    assert_eq!(2, card.pitch[0].dicts.len());
}

#[test]
fn a_reading_no_pitch_dictionary_has_draws_nothing() {
    let dict = with_pitch(&[(1, "昨日", "きのう", downstep(1))]);

    let card = build(&[hit("猫", "ねこ", 1, "cat")], &dicts(), &cfg(), &dict)
        .top
        .expect("a top card");

    assert!(card.pitch.is_empty(), "no row, and not an empty one");
}

/// Verifies that kana-only terms query pitch data using reading text.
#[test]
fn a_kana_only_headword_is_looked_up_by_its_reading() {
    let mut dict = FakeDictionary::new();
    dict.add_pitch("ねこ", "ねこ", 1, downstep(1));
    let hits = vec![Hit {
        written: None,
        reading: Some("ねこ".to_string()),
        ..hit("猫", "ねこ", 1, "cat")
    }];

    let card = build(&hits, &dicts(), &cfg(), &dict).top.expect("a top card");

    assert_eq!(1, card.pitch.len());
    assert_eq!(Position::Downstep(1), card.pitch[0].accent.position);
}

/// Verifies that exclusion from the pitch list removes accent data.
#[test]
fn a_dictionary_the_pitch_list_excludes_contributes_no_accent() {
    let dict = with_pitch(&[
        (1, "昨日", "きのう", downstep(0)),
        (2, "昨日", "きのう", downstep(1)),
    ]);
    let cfg = PresentConfig {
        pitch: vec!["大辞林　第四版".to_string()],
        ..cfg()
    };

    let card = build(&[hit("昨日", "きのう", 2, "yesterday")], &dicts(), &cfg, &dict)
        .top
        .expect("a top card");

    assert_eq!(1, card.pitch.len(), "{:?}", card.pitch);
    assert_eq!(vec!["大辞林　第四版".to_string()], card.pitch[0].dicts);
}

/// Verifies that cards without readings do not query pitch data.
#[test]
fn a_card_with_no_reading_draws_no_pitch() {
    let mut dict = FakeDictionary::new();
    dict.add_pitch("昨日", "きのう", 1, downstep(1));
    let hits = vec![Hit { reading: None, ..hit("昨日", "きのう", 1, "yesterday") }];

    let card = build(&hits, &dicts(), &cfg(), &dict).top.expect("a top card");

    assert!(card.pitch.is_empty());
}

/// Verifies that promoted cards retain their pitch accent data.
#[test]
fn a_promoted_card_already_carries_its_own_accents() {
    let dict = with_pitch(&[
        (1, "昨日", "きのう", downstep(1)),
        (1, "昨", "さく", downstep(0)),
    ]);
    let hits = vec![
        hit("昨日", "きのう", 1, "yesterday"),
        hit("昨", "さく", 1, "previous"),
    ];

    let mut p = build(&hits, &dicts(), &cfg(), &dict);
    swap_top(&mut p, 0, 40);

    let promoted = p.top.expect("a promoted card");
    assert_eq!(Some("昨".to_string()), promoted.written);
    assert_eq!(vec![Position::Downstep(0)], promoted.pitch.iter().map(|r| r.accent.position.clone()).collect::<Vec<_>>());
}

#[test]
fn no_two_cards_have_the_same_heading() {
    let mut bare = hit("生", "", 1, "bare");
    bare.reading = None;
    let hits = vec![
        hit("生", "せい", 1, "life"),
        hit("生", "なま", 2, "raw"),
        bare,
        hit("生", "せい", 2, "living"),
        hit("性", "せい", 1, "nature"),
    ];
    let p = build(&hits, &dicts(), &cfg(), &no_pitch());
    let headings: Vec<(Option<String>, Option<String>)> =
        p.all_cards.iter().map(|c| (c.written.clone(), c.reading.clone())).collect();
    assert_eq!(3, headings.len(), "{headings:?}");
    for (i, h) in headings.iter().enumerate() {
        assert!(!headings[..i].contains(h), "{h:?}");
    }
}

#[test]
fn a_popup_starts_with_no_headword_noted() {
    let off = AnkiPopupState::disabled();
    assert!(off.dupes.is_empty() && off.added.is_empty());
    assert!(!off.enabled && !off.adding && !off.checking && !off.connected && !off.failed);
    for enabled in [false, true] {
        let fresh = AnkiPopupState::fresh(enabled);
        assert!(fresh.dupes.is_empty() && fresh.added.is_empty());
        assert_eq!((enabled, enabled, enabled), (fresh.enabled, fresh.checking, fresh.connected));
        assert!(!fresh.adding && !fresh.failed);
    }
}

/// Only the boxes of the match decide whether its rect can be held.
#[test]
fn a_far_box_outside_the_match_does_not_matter() {
    let mut span = span_of("可哀想", 0);
    let near = span.geom[0];
    span.geom.push(TextGeom {
        char_count: 1,
        rect: PhysRect { x: i32::MIN, y: i32::MAX, w: i32::MAX, h: i32::MAX },
    });
    assert!(can_highlight(&span, Some(&bare_card(1))));
    let r = match_highlight(&span, Some(&bare_card(1))).unwrap();
    assert_eq!(near.rect.x - HIGHLIGHT_PAD, r.x);
    assert!(!can_highlight(&span, Some(&bare_card(9))));
    assert!(can_highlight(&span, None));
}
