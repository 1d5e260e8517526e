//! The lookup engine.
use chibipop::lookup::deconj::Deconjugator;
use chibipop::lookup::engine::{
    clean_input, dict_pos_for, LookupEngine, MAX_LOOKUP_CHARS, MAX_RESULTS,
};
use chibipop::lookup::model::FakeDictionary;
use chibipop::lookup::rules::{Rule, StrOrList};

fn one(s: &str) -> StrOrList {
    StrOrList::One(s.to_string())
}

fn many(s: &[&str]) -> StrOrList {
    StrOrList::Many(s.iter().map(|x| x.to_string()).collect())
}

fn rule(dec_end: StrOrList, con_end: StrOrList, dec_tag: StrOrList, con_tag: &str, detail: &str) -> Rule {
    Rule {
        rule_type: "stdrule".to_string(),
        dec_end,
        con_end,
        dec_tag: Some(dec_tag),
        con_tag: Some(one(con_tag)),
        detail: detail.to_string(),
    }
}

/// Enough of Japanese for the words below.
fn rules() -> Vec<Rule> {
    vec![
        rule(one("る"), one("た"), one("v1"), "stem-ren", "past"),
        rule(one("る"), one("させられる"), one("v1"), "v1", "causative passive"),
        rule(one("い"), one("かった"), one("adj-i"), "stem-past", "past"),
        rule(one(""), one("ない"), one("stem-mizenkei"), "adj-i", "negative"),
        rule(
            many(&["く", "ぐ", "す", "む", "する"]),
            many(&["か", "が", "さ", "ま", "し"]),
            many(&["v5k", "v5g", "v5s", "v5m", "vk", "vs-i"]),
            "stem-mizenkei",
            "(mizenkei)",
        ),
        rule(one("する"), one("しない"), one("vs-i"), "adj-i", "negative"),
        rule(one("い"), one("くない"), one("adj-i"), "adj-i", "negative"),
        rule(one("る"), one("ている"), one("v1"), "v1", "progressive"),
        rule(one("する"), one("してしまった"), one("vs-i"), "stem-te", "finish"),
    ]
}

fn engine() -> LookupEngine {
    LookupEngine::new(Deconjugator::new(rules()))
}

const DEFAULT_FREQ: f64 = 999_999.0;

/// Longer matches, commoner words, kana and fewer steps score higher.
fn score(match_len: usize, freq: Option<i64>, kana_bonus: bool, steps: usize) -> i64 {
    let f = freq.map(|v| v as f64).unwrap_or(DEFAULT_FREQ).max(1.0);
    let mut s = match_len as f64;
    s += 10.0 * (1.0 - f.ln() / DEFAULT_FREQ.ln());
    if kana_bonus {
        s += 3.0;
    }
    s -= steps as f64;
    let bits = s.to_bits() as i64;
    bits ^ (((bits >> 63) as u64) >> 1) as i64
}

fn sense(gloss: &str, pos: &str) -> String {
    format!(
        r#"[{{"type": "structured-content", "content": [
            {{"tag": "span", "data": {{"content": "part-of-speech-info"}}, "content": "{pos}"}},
            {{"tag": "div", "content": "{gloss}"}}
        ]}}]"#
    )
}

fn taberu_dict() -> FakeDictionary {
    let mut d = FakeDictionary::new();
    d.add_term("食べる", Some("食べる"), Some("たべる"), "v1", Some(500), 1, 1);
    d.add_entry(1, 1, &sense("to eat", "v1"));
    d
}

#[test]
fn exact_match_found() {
    let hits = engine().run(&taberu_dict(), "食べる", score).unwrap();
    assert_eq!(1, hits.len());
    assert_eq!(vec!["to eat".to_string()], hits[0].entry.glosses());
}

#[test]
fn conjugated_form_deconjugates_to_headword() {
    let hits = engine().run(&taberu_dict(), "食べさせられた", score).unwrap();
    assert_eq!(1, hits.len());
    assert_eq!(Some("食べる".to_string()), hits[0].written);
}

#[test]
fn trailing_context_is_ignored_by_prefix_scan() {
    let hits = engine().run(&taberu_dict(), "食べるのが好き", score).unwrap();
    assert!(!hits.is_empty());
    assert_eq!(Some("食べる".to_string()), hits[0].written);
}

#[test]
fn input_cut_at_japanese_separator() {
    assert_eq!("食べる", clean_input("食べる。おいしい"));
}

#[test]
fn input_truncated_by_character_not_byte_count() {
    let long = "あ".repeat(40);
    assert_eq!(MAX_LOOKUP_CHARS, clean_input(&long).chars().count());
}

#[test]
fn empty_input_returns_no_hits() {
    assert!(engine().run(&taberu_dict(), "   ", score).unwrap().is_empty());
}

#[test]
fn pos_filter_rejects_mismatched_part_of_speech() {
    let mut d = FakeDictionary::new();
    d.add_term("食べる", Some("食べる"), Some("たべる"), "v5r", Some(500), 1, 1);
    d.add_entry(1, 1, &sense("wrong pos", "v5r"));
    let hits = engine().run(&d, "食べさせられた", score).unwrap();
    assert!(hits.is_empty());
}

#[test]
fn dict_pos_for_maps_fine_grained_godan_tags_to_v5() {
    for tag in [
        "v5aru", "v5b", "v5g", "v5k", "v5k-s", "v5m", "v5n", "v5r",
        "v5r-i", "v5s", "v5t", "v5u", "v5u-s",
    ] {
        assert_eq!(Some(Some("v5")), dict_pos_for(tag), "tag {tag}");
    }
}

#[test]
fn dict_pos_for_maps_vs_i_to_vs() {
    assert_eq!(Some(Some("vs")), dict_pos_for("vs-i"));
}

#[test]
fn dict_pos_for_identity_mappings_are_explicit() {
    assert_eq!(Some(Some("adj-i")), dict_pos_for("adj-i"));
    assert_eq!(Some(Some("v1")), dict_pos_for("v1"));
    assert_eq!(Some(Some("vk")), dict_pos_for("vk"));
}

#[test]
fn dict_pos_for_context_tags_impose_no_constraint() {
    assert_eq!(Some(None), dict_pos_for("exp"));
    assert_eq!(Some(None), dict_pos_for("topic-condition"));
    assert_eq!(Some(None), dict_pos_for("uninflectable"));
}

#[test]
fn dict_pos_for_unrecognised_tag_imposes_no_constraint() {
    // Must fail open, not closed.
    assert_eq!(None, dict_pos_for("some-future-tag-not-yet-mapped"));
}

#[test]
fn v5k_tagged_form_matches_v5_row() {
    // v5k form, v5 row.
    let mut d = FakeDictionary::new();
    d.add_term("行く", Some("行く"), Some("いく"), "v5", Some(50), 1, 1);
    d.add_entry(1, 1, &sense("to go", "v5"));
    let hits = engine().run(&d, "行かなかった", score).unwrap();
    assert!(
        hits.iter().any(|h| h.written.as_deref() == Some("行く")),
        "expected 行く among hits, got {:?}",
        hits.iter().map(|h| h.written.clone()).collect::<Vec<_>>()
    );
}

#[test]
fn vs_i_tagged_form_matches_vs_row() {
    // vs-i form, vs row.
    let mut d = FakeDictionary::new();
    d.add_term("する", Some("する"), Some("する"), "vs", Some(10), 1, 1);
    d.add_entry(1, 1, &sense("to do", "vs"));
    let hits = engine().run(&d, "してしまった", score).unwrap();
    assert!(
        hits.iter().any(|h| h.written.as_deref() == Some("する")),
        "expected する among hits, got {:?}",
        hits.iter().map(|h| h.written.clone()).collect::<Vec<_>>()
    );
}

#[test]
fn v1_tagged_form_does_not_match_v5_only_row() {
    // The filter must still bite.
    let mut d = FakeDictionary::new();
    d.add_term("食べる", Some("食べる"), Some("たべる"), "v5", Some(500), 1, 1);
    d.add_entry(1, 1, &sense("wrong pos", "v5"));
    let hits = engine().run(&d, "食べさせられた", score).unwrap();
    assert!(hits.is_empty());
}

#[test]
fn empty_pos_column_is_never_filtered_out() {
    let mut d = FakeDictionary::new();
    d.add_term("ねこ", None, Some("ねこ"), "", None, 1, 1);
    d.add_entry(1, 1, &sense("cat", ""));
    assert_eq!(1, engine().run(&d, "ねこ", score).unwrap().len());
}

#[test]
fn more_common_word_ranks_first() {
    // Distinct ids: no grouping.
    let mut d = FakeDictionary::new();
    d.add_term("はし", None, Some("はし"), "", Some(50), 1, 1);
    d.add_entry(1, 1, &sense("chopsticks", ""));
    d.add_term("はし", None, Some("はし"), "", Some(9000), 2, 2);
    d.add_entry(2, 2, &sense("bridge", ""));
    let hits = engine().run(&d, "はし", score).unwrap();
    assert_eq!(vec!["chopsticks".to_string()], hits[0].entry.glosses());
}

#[test]
fn longer_match_outranks_shorter() {
    let mut d = FakeDictionary::new();
    d.add_term("日本", Some("日本"), Some("にほん"), "", Some(100), 1, 1);
    d.add_entry(1, 1, &sense("Japan", ""));
    d.add_term("日本語", Some("日本語"), Some("にほんご"), "", Some(900), 2, 1);
    d.add_entry(2, 1, &sense("Japanese language", ""));
    let hits = engine().run(&d, "日本語", score).unwrap();
    assert_eq!(Some("日本語".to_string()), hits[0].written);
}

#[test]
fn results_truncated_to_max() {
    let mut d = FakeDictionary::new();
    for i in 1..=25 {
        // Distinct ids, else grouped.
        d.add_term("あ", None, Some("あ"), "", Some(i), i, i);
        d.add_entry(i, i, &sense("x", ""));
    }
    assert_eq!(MAX_RESULTS, engine().run(&d, "あ", score).unwrap().len());
}

#[test]
fn each_entry_appears_at_most_once() {
    let hits = engine().run(&taberu_dict(), "食べさせられた", score).unwrap();
    let mut ids: Vec<i64> = hits.iter().map(|h| h.entry.entry_id).collect();
    ids.sort_unstable();
    let before = ids.len();
    ids.dedup();
    assert_eq!(before, ids.len());
}
