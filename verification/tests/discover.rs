//! Which folders are plugins.
use chibipop::plugin::discover::{discover, Folder};

fn folder(name: &str, has_manifest: bool) -> Folder {
    Folder { name: name.to_string(), has_manifest }
}

#[test]
fn a_missing_root_yields_nothing() {
    assert!(discover(&vec![]).is_empty());
}

#[test]
fn a_directory_without_a_manifest_is_skipped() {
    let found = discover(&vec![folder("notaplugin", false), folder("alpha", true)]);
    assert_eq!(found, vec!["alpha"]);
}

#[test]
fn plugins_come_in_the_order_of_their_names() {
    let found = discover(&vec![folder("beta", true), folder("alpha", true), folder("Zeta", true)]);
    assert_eq!(found, vec!["Zeta", "alpha", "beta"]);
}
