//! What a reader of the dictionary database decides.
use chibipop::dict::gloss::{scalar_str, GlossDoc, StyleKey, Tag};
use chibipop::dict::media::{image_paths, surface, Intrinsic, MediaFormat, Missing};
use chibipop::dict::pitch::Position;
use chibipop::lookup::store::{
    check_schema, pick_reported, pitch_claims, sized, EntryStore, PitchRecord,
    EXPECTED_SCHEMA_VERSION, GLOSS_CACHE_ENTRIES,
};
use std::sync::Arc;

fn refused(version: &str) -> String {
    check_schema("dict.sqlite", &Some(version.to_string())).unwrap_err()
}

#[test]
fn opening_a_version_three_database_fails_with_the_rebuild_message() {
    let msg = refused("3");
    assert!(msg.contains("schema_version is 3"), "{msg}");
    assert!(msg.contains("expects 4"), "{msg}");
    assert!(msg.to_lowercase().contains("rebuild"), "{msg}");
}

#[test]
fn open_fails_when_schema_version_does_not_match() {
    let msg = refused("1");
    assert!(
        msg.contains("schema_version is 1"),
        "error should name the version found in the file: {msg}"
    );
    assert!(
        msg.contains(&format!("expects {EXPECTED_SCHEMA_VERSION}")),
        "error should name the version this build expects: {msg}"
    );
    assert!(
        msg.to_lowercase().contains("rebuild"),
        "error should tell the reader to rebuild the dictionary: {msg}"
    );
    assert!(check_schema("dict.sqlite", &None).is_err());
    assert_eq!(Ok(()), check_schema("dict.sqlite", &Some("4".to_string())));
}

#[test]
fn the_media_store_refuses_a_database_this_build_does_not_understand() {
    let msg = refused("2");
    assert!(msg.contains("schema_version is 2"), "got: {msg}");
}

/// A second read must hand back the same parse rather than a second one.
#[test]
fn a_second_read_of_one_entry_reuses_the_parsed_tree() {
    let mut store = EntryStore::new(vec![]);
    assert!(store.cached(1).is_none());
    let first = store.record(1, 1, "[\"to eat\"]", &vec![]);
    let second = store.cached(1).unwrap();
    assert!(
        Arc::ptr_eq(&first.doc, &second.doc),
        "the second hover on one entry must not reparse it"
    );
}

#[test]
fn the_cache_drops_the_oldest_record_once_it_is_full() {
    let mut store = EntryStore::new(vec![]);
    for id in 0..GLOSS_CACHE_ENTRIES as i64 + 1 {
        store.record(id, 1, "[\"x\"]", &vec![]);
    }
    assert!(store.cached(0).is_none());
    assert!(store.cached(1).is_some());
    assert!(store.cached(GLOSS_CACHE_ENTRIES as i64).is_some());
}

fn span_of(doc: &GlossDoc) -> usize {
    (0..doc.all_nodes().len())
        .find(|id| doc.node(*id).tag == Tag::Span)
        .expect("the span parsed")
}

/// The text is compiled on first use, and the winners land in the resolved
/// style record that the renderer already reads.
#[test]
fn a_stored_stylesheet_reaches_the_resolved_style_record() {
    let mut store = EntryStore::new(vec![]);
    store.learn_sheet(
        1,
        Some(
            "span[data-sc-fbox] { padding: 0.1em; border-radius: 0.2em; border-style: solid }"
                .to_string(),
        ),
    );
    let glossary = r#"[{"type":"structured-content","content":[
        {"tag":"span","data":{"fbox":"1"},"content":"書き方"}]}]"#;
    let doc = store.record(1, 1, glossary, &vec![]).doc;
    let record: Vec<(String, String)> = doc
        .style(span_of(&doc))
        .iter()
        .map(|(k, v)| (format!("{k:?}"), scalar_str(v).unwrap_or("?").to_string()))
        .collect();
    assert_eq!(
        vec![
            ("PaddingTop".to_string(), "0.1em".to_string()),
            ("PaddingRight".to_string(), "0.1em".to_string()),
            ("PaddingBottom".to_string(), "0.1em".to_string()),
            ("PaddingLeft".to_string(), "0.1em".to_string()),
            ("BorderRadius".to_string(), "0.2em".to_string()),
            ("BorderStyle".to_string(), "solid".to_string()),
        ],
        record,
        "one entry per property, in the rule's own source order, and the \
         `padding` shorthand expanded into the four longhands it sets",
    );
}

#[test]
fn a_dictionary_without_a_stylesheet_folds_nothing() {
    let mut store = EntryStore::new(vec![]);
    store.learn_sheet(1, None);
    assert!(store.knows_sheet(1));
    let glossary = r#"[{"type":"structured-content","content":
         [{"tag":"span","data":{"fbox":"1"},"content":"x"}]}]"#;
    assert_eq!(GlossDoc::parse(glossary), *store.record(1, 1, glossary, &vec![]).doc);
}

#[test]
fn the_compiled_sheet_is_reused_across_entries() {
    let mut store = EntryStore::new(vec![]);
    assert!(!store.knows_sheet(1));
    store.learn_sheet(1, Some("span[data-sc-a] { margin-top: 3px }".to_string()));
    for (id, text) in [(1i64, "one"), (2, "two")] {
        let glossary = format!(
            r#"[{{"type":"structured-content","content":{{"tag":"span","data":{{"a":"1"}},"content":"{text}"}}}}]"#
        );
        let doc = store.record(id, 1, &glossary, &vec![]).doc;
        assert_eq!(
            Some("3px"),
            doc.style_of(span_of(&doc), StyleKey::MarginTop).and_then(scalar_str),
            "entry {id}",
        );
    }
    assert!(store.knows_sheet(1), "one compile for one dictionary");
}

fn row(dict_id: i64, downstep: Option<i64>, pattern: Option<&str>, lists: [&str; 3]) -> PitchRecord {
    PitchRecord {
        dict_id,
        downstep,
        pattern: pattern.map(str::to_string),
        nasal: lists[0].to_string(),
        devoice: lists[1].to_string(),
        tags: lists[2].to_string(),
    }
}

/// The claims come back with the dictionary that made them rather than
/// filtered or ordered.
#[test]
fn a_pitch_read_returns_every_claim_with_its_dictionary_and_its_markers() {
    let claims = pitch_claims(&vec![
        row(1, Some(0), None, ["[4]", "[2]", "[\"名\"]"]),
        row(2, Some(3), None, ["[]", "[]", "[]"]),
    ]);

    assert_eq!(2, claims.len());
    assert_eq!(1, claims[0].dict_id);
    assert_eq!(Position::Downstep(0), claims[0].accent.position);
    assert_eq!(vec![4], claims[0].accent.nasal);
    assert_eq!(vec![2], claims[0].accent.devoice);
    assert_eq!(vec!["名".to_string()], claims[0].accent.tags);
    assert_eq!(2, claims[1].dict_id);
    assert_eq!(Position::Downstep(3), claims[1].accent.position);
    assert!(claims[1].accent.nasal.is_empty());
}

#[test]
fn a_stored_pattern_comes_back_as_a_pattern_and_not_as_a_downstep() {
    let claims = pitch_claims(&vec![row(1, None, Some("LHHL"), ["[]", "[]", "[]"])]);
    assert_eq!(Position::Pattern("LHHL".to_string()), claims[0].accent.position);
}

#[test]
fn a_row_with_neither_position_claims_nothing() {
    assert!(pitch_claims(&vec![row(1, None, None, ["[]", "[]", "[]"])]).is_empty());
    let odd = pitch_claims(&vec![row(1, Some(2), None, ["oops", "{}", "3"])]);
    assert!(odd[0].accent.nasal.is_empty() && odd[0].accent.tags.is_empty());
}

/// The first listed Dictionary that claims a rank reports it.
#[test]
fn the_first_listed_dictionary_reports_the_frequency() {
    assert_eq!(None, pick_reported(&vec![], &vec![(1, true, 5)]));
    assert_eq!(Some(7), pick_reported(&vec![2, 1], &vec![(1, true, 5), (2, true, 7)]));
    assert_eq!(None, pick_reported(&vec![3], &vec![(1, true, 5)]));
    assert!(!EntryStore::new(vec![]).ranks());
    assert!(EntryStore::new(vec![1]).ranks());
}

#[test]
fn each_image_is_asked_for_once_and_kept_where_it_has_a_size() {
    let doc = GlossDoc::parse(
        r#"[{"type":"structured-content","content":[
            {"tag":"img","path":"a.png"},{"tag":"img","path":"b.png"},{"tag":"img","path":"a.png"}]}]"#,
    );
    let paths = image_paths(&doc);
    assert_eq!(vec!["a.png", "b.png"], paths);
    let size = Intrinsic { format: MediaFormat::Png, width: 1, height: 2, aspect: 3 };
    assert_eq!(vec![("b.png".to_string(), size)], sized(&paths, &vec![None, Some(size)]));
}

#[test]
fn an_asset_that_cannot_be_painted_says_why() {
    assert_eq!(surface(Ok(Some(Ok(7)))), Ok(7));
    assert_eq!(surface::<i32>(Ok(None)), Err(Missing::NotStored));
    let why = || "no such table".to_string();
    assert_eq!(surface::<i32>(Err(why())), Err(Missing::Unavailable(why())));
    assert_eq!(surface::<i32>(Ok(Some(Err(why())))), Err(Missing::Undecodable(why())));
}

#[test]
fn a_record_put_again_keeps_its_place_in_the_order() {
    let mut store = EntryStore::new(vec![]);
    for id in 0..GLOSS_CACHE_ENTRIES as i64 {
        store.record(id, 1, "[\"x\"]", &vec![]);
    }
    store.record(0, 2, "[\"y\"]", &vec![]);
    assert_eq!(2, store.cached(0).unwrap().dict_id, "the new record is read back");
    assert!(store.cached(1).is_some(), "nothing left for it");
    store.record(-5, 1, "[\"z\"]", &vec![]);
    assert!(store.cached(0).is_none(), "it is still the oldest");
    assert!(store.cached(1).is_some());
    assert!(store.cached(-5).is_some());
}

#[test]
fn a_stylesheet_is_known_for_its_own_dictionary_only() {
    let mut store = EntryStore::new(vec![]);
    store.learn_sheet(7, Some("span { color: red }".to_string()));
    store.learn_sheet(8, None);
    assert!(store.knows_sheet(7) && store.knows_sheet(8) && !store.knows_sheet(9));
    let glossary = r#"[{"type":"structured-content","content":{"tag":"span","content":"x"}}]"#;
    let red = store.record(1, 7, glossary, &vec![]).doc;
    assert_eq!(Some("red"), red.style_of(span_of(&red), StyleKey::Color).and_then(scalar_str));
    for dict in [8, 9] {
        let bare = store.record(1, dict, glossary, &vec![]).doc;
        assert!(bare.style(span_of(&bare)).is_empty());
    }
}
