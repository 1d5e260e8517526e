//! Which dictionaries are searched.
use chibipop::config::{Config, PerLanguage};
use chibipop::library::Role;
use chibipop::present::DictInfo;

fn info(dict_id: i64, name: &str) -> DictInfo {
    DictInfo { dict_id, name: name.to_string() }
}

fn list(names: &[&str]) -> Vec<String> {
    names.iter().map(|n| n.to_string()).collect()
}

#[test]
fn an_installed_dictionary_that_no_list_names_is_searched() {
    let dicts = [info(1, "A"), info(2, "B"), info(3, "C")];
    let mut config = Config::default();
    config.dictionaries.terms = list(&["B"]);
    config.dictionaries.terms_disabled = list(&["C"]);
    assert_eq!(config.present_config(&dicts).terms, list(&["B", "A"]));
}

#[test]
fn each_role_has_its_own_lists() {
    let mut config = Config::default();
    config.dictionaries.set_lists(Role::Pitch, list(&["P"]), list(&["Q"]));
    assert_eq!(config.dictionaries.lists(Role::Pitch), (&list(&["P"]), &list(&["Q"])));
    assert_eq!(
        config.dictionaries.listed(Role::Pitch, &[]),
        vec![("P".to_string(), true), ("Q".to_string(), false)]
    );
    assert!(config.dictionaries.listed(Role::Terms, &[]).is_empty());
}

#[test]
fn a_language_keeps_one_list() {
    let mut lists = PerLanguage::new();
    assert!(lists.is_empty());
    lists.insert("ja".to_string(), list(&["A", "B"]));
    lists.insert("en".to_string(), list(&["C"]));
    lists.insert("ja".to_string(), list(&["B", "C"]));
    assert_eq!(lists.get("ja"), Some(&list(&["B", "C"])));
    let mut turned = PerLanguage::new();
    turned.insert("en".to_string(), list(&["C"]));
    assert_ne!(lists, turned);
    turned.insert("ja".to_string(), list(&["B", "C"]));
    assert_eq!(lists, turned, "the order of the languages is no part of it");
    assert!(lists.contains_key("en") && !lists.contains_key("de"));
    lists.remove_name("C");
    assert_eq!(lists.get("ja"), Some(&list(&["B"])));
    assert!(!lists.contains_key("en"), "a list left empty loses its key");
}
