//! Deconjugation rules.
use chibipop::lookup::rules::{keep_rules, Element, Rule, StrOrList};

fn rule(rule_type: &str) -> Rule {
    Rule {
        rule_type: rule_type.to_string(),
        dec_end: StrOrList::One("る".to_string()),
        con_end: StrOrList::One("た".to_string()),
        dec_tag: None,
        con_tag: None,
        detail: "x".to_string(),
    }
}

#[test]
fn parses_scalar_and_list_fields() {
    let one = StrOrList::One("る".to_string());
    assert_eq!(&["る".to_string()], one.as_slice());
    let many = StrOrList::Many(vec!["く".to_string(), "す".to_string()]);
    assert_eq!(2, many.as_slice().len());
}

#[test]
fn comments_and_substitutions_are_left_out() {
    let kept = keep_rules(vec![
        Element::Comment("a comment".to_string()),
        Element::Rule(rule("stdrule")),
        Element::Rule(rule("substitution")),
        Element::Rule(rule("contextrule")),
    ]);
    let types: Vec<&str> = kept.iter().map(|r| r.rule_type.as_str()).collect();
    assert_eq!(vec!["stdrule", "contextrule"], types);
    assert!(kept[0].dec_tag.is_none());
    assert!(kept[0].con_tag.is_none());
}
