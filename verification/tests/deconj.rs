//! Deconjugation.
use chibipop::lookup::deconj::{Deconjugator, Form, MAX_DECONJ_ITERATIONS};
use chibipop::lookup::rules::{Rule, StrOrList};

fn one(s: &str) -> StrOrList {
    StrOrList::One(s.to_string())
}

fn many(s: &[&str]) -> StrOrList {
    StrOrList::Many(s.iter().map(|x| x.to_string()).collect())
}

fn rule(dec_end: StrOrList, con_end: StrOrList, dec_tag: StrOrList, con_tag: &str, detail: &str) -> Rule {
    Rule {
        rule_type: "stdrule".to_string(),
        dec_end,
        con_end,
        dec_tag: Some(dec_tag),
        con_tag: Some(one(con_tag)),
        detail: detail.to_string(),
    }
}

/// Enough of Japanese for the words below.
fn rules() -> Vec<Rule> {
    vec![
        rule(one("る"), one("た"), one("v1"), "stem-ren", "past"),
        rule(one("る"), one("させられる"), one("v1"), "v1", "causative passive"),
        rule(one("い"), one("かった"), one("adj-i"), "stem-past", "past"),
        rule(one(""), one("ない"), one("stem-mizenkei"), "adj-i", "negative"),
        rule(
            many(&["く", "ぐ", "す", "む", "する"]),
            many(&["か", "が", "さ", "ま", "し"]),
            many(&["v5k", "v5g", "v5s", "v5m", "vk", "vs-i"]),
            "stem-mizenkei",
            "(mizenkei)",
        ),
        rule(one("する"), one("しない"), one("vs-i"), "adj-i", "negative"),
        rule(one("い"), one("くない"), one("adj-i"), "adj-i", "negative"),
        rule(one("る"), one("ている"), one("v1"), "v1", "progressive"),
        rule(one("する"), one("してしまった"), one("vs-i"), "stem-te", "finish"),
    ]
}

fn deconjugator() -> Deconjugator {
    Deconjugator::new(rules())
}

fn reaches(d: &Deconjugator, input: &str, want: &str) -> bool {
    d.deconjugate(input).iter().any(|f| f.text == want)
}

#[test]
fn empty_input_yields_nothing() {
    assert!(deconjugator().deconjugate("   ").is_empty());
}

#[test]
fn seed_form_always_present() {
    assert!(reaches(&deconjugator(), "学校", "学校"));
}

#[test]
fn past_plain_ichidan() {
    assert!(reaches(&deconjugator(), "食べた", "食べる"));
}

#[test]
fn causative_passive_past() {
    assert!(reaches(&deconjugator(), "食べさせられた", "食べる"));
}

#[test]
fn negative_past_godan() {
    assert!(reaches(&deconjugator(), "行かなかった", "行く"));
}

#[test]
fn i_adjective_negative() {
    assert!(reaches(&deconjugator(), "面白くない", "面白い"));
}

#[test]
fn te_iru_progressive() {
    assert!(reaches(&deconjugator(), "見ている", "見る"));
}

#[test]
fn terminal_tag_recorded_for_filtering() {
    let d = deconjugator();
    let forms = d.deconjugate("食べた");
    let f = forms.iter().find(|f| f.text == "食べる").unwrap();
    assert_eq!(Some(&"v1".to_string()), f.tags.last());
}

/// The number of alternatives is driven by `dec_end` alone, so the mizenkei
/// rule's sixth `dec_tag` (`vs-i`) is unreachable and する arrives tagged `vk`
/// down that path. する arrives tagged `vs-i` by the negative rule as well.
#[test]
fn known_quirk_mizenkei_path_tags_suru_as_vk() {
    let d = deconjugator();
    let forms = d.deconjugate("しない");

    let via_mizenkei: Vec<&Form> = forms
        .iter()
        .filter(|f| f.text == "する" && f.process.iter().any(|p| p == "(mizenkei)"))
        .collect();
    assert!(
        !via_mizenkei.is_empty(),
        "the mizenkei path to する disappeared - deconjugation changed"
    );
    assert!(
        via_mizenkei
            .iter()
            .all(|f| f.tags.last().map(String::as_str) == Some("vk")),
        "quirk resolved upstream - update this test and the note in the module docs"
    );

    // The correct vs-i tagging is reachable in parallel; this is why the
    // quirk is harmless in practice.
    assert!(forms
        .iter()
        .any(|f| f.text == "する" && f.tags.last().map(String::as_str) == Some("vs-i")));
}

#[test]
fn no_form_comes_twice_and_every_form_knows_its_steps() {
    let forms = deconjugator().deconjugate("食べさせられた");
    for (i, form) in forms.iter().enumerate() {
        assert!(!forms[..i].contains(form), "{form:?}");
    }
    assert_eq!(forms[0].text, "食べさせられた");
    assert!(forms[0].process.is_empty());
    assert!(forms[1..].iter().all(|f| !f.tags.is_empty() || !f.process.is_empty()));
}

/// One rule that always applies makes one form a level, up to the cap.
#[test]
fn the_search_stops_at_the_cap_and_leaves_nothing_out_below_it() {
    let d = Deconjugator::new(vec![rule(one("あ"), one(""), one("t"), "t", "longer")]);
    let forms = d.deconjugate("ん");
    assert_eq!(MAX_DECONJ_ITERATIONS, forms.len());
    for (steps, form) in forms.iter().enumerate() {
        assert_eq!(steps, form.process.len());
        assert_eq!(format!("ん{}", "あ".repeat(steps)), form.text);
    }
}

#[test]
fn white_space_around_the_text_changes_nothing() {
    let d = deconjugator();
    assert_eq!(d.deconjugate("食べさせられた"), d.deconjugate(" \t食べさせられた\n"));
}
