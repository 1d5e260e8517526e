//! The lookup's records.
use chibipop::lookup::model::{Dictionary, Entry, FakeDictionary};

/// A structured-content glossary with one part-of-speech pill and one gloss.
/// The census reports one glossary item in 64 of 72 Dictionaries. It does not
/// report this exact node shape.
fn one_sense(gloss: &str, pos: &str) -> String {
    format!(
        r#"[{{"type": "structured-content", "content": [
            {{"tag": "span", "data": {{"content": "part-of-speech-info"}}, "content": "{pos}"}},
            {{"tag": "div", "content": "{gloss}"}}
        ]}}]"#
    )
}

#[test]
fn an_entry_carries_its_glosses_and_its_labels_directly() {
    let e = Entry::parse(1, 1, &one_sense("to eat", "v1"));
    assert_eq!(vec!["to eat".to_string()], e.glosses());
    assert_eq!(vec!["v1".to_string()], e.pos);
}

#[test]
fn a_plain_string_glossary_needs_no_structured_content() {
    let e = Entry::parse(1, 1, r#"["cat","feline"]"#);
    assert_eq!(vec!["cat".to_string(), "feline".to_string()], e.glosses());
    assert!(e.pos.is_empty());
}

/// An unreadable record becomes an Entry with no glosses, not a failed lookup.
/// A hover has nothing useful to do with this error.
#[test]
fn an_unreadable_record_yields_an_empty_entry() {
    let e = Entry::parse(1, 1, "not json");
    assert!(e.glosses().is_empty());
    assert!(e.pos.is_empty());
}

#[test]
fn fake_dictionary_returns_seeded_rows() {
    let mut d = FakeDictionary::new();
    d.add_term("食べる", Some("食べる"), Some("たべる"), "v1", Some(7), 1, 1);
    assert_eq!(1, d.terms_for("食べる").unwrap().len());
    assert!(d.terms_for("猫").unwrap().is_empty());
}

#[test]
fn fake_dictionary_returns_seeded_entries() {
    let mut d = FakeDictionary::new();
    d.add_entry(1, 1, &one_sense("to eat", "v1"));
    assert_eq!(1, d.entries(&vec![1]).unwrap().len());
}

#[test]
fn a_second_entry_under_an_id_takes_the_place_of_the_first() {
    let mut d = FakeDictionary::new();
    d.add_entry(1, 1, r#"["old"]"#);
    d.add_entry(2, 1, r#"["other"]"#);
    d.add_entry(1, 3, r#"["new"]"#);
    let found = d.entries(&vec![2, 9, 1]).unwrap();
    let glosses: Vec<String> = found.iter().flat_map(|e| e.glosses()).collect();
    assert_eq!(vec!["other".to_string(), "new".to_string()], glosses);
    assert_eq!(3, found[1].dict_id);
}
