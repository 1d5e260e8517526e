//! The screenshot-on-add rules.
use chibipop::config::{Config, FieldMapping};
use chibipop::shot::{attach, picture_of, plan_add, sanitize_filename, ShotPlan};

fn root() -> Vec<String> {
    vec!["tmp".to_string(), "chibipop-shot-tests".to_string()]
}

fn under_root(name: &str) -> Vec<String> {
    let mut path = root();
    path.push(name.to_string());
    path
}

fn cfg_on() -> Config {
    let mut cfg = Config::default();
    cfg.actions.screenshot.include_on_add = true;
    cfg
}

#[test]
fn an_authorized_payload_names_the_file_after_its_expression_and_epoch_second() {
    let fields: Vec<(String, String)> = Vec::new();
    let plan =
        plan_add("\u{5bbf}\u{820e}", &fields, &cfg_on(), &root(), 1_700_000_000)
            .unwrap();
    assert_eq!(
        under_root("\u{5bbf}\u{820e}_1700000000.png"),
        plan.path
    );
    assert_eq!("\u{5bbf}\u{820e}", plan.expr);
    assert_eq!(fields, plan.fields);
}

#[test]
fn an_authorized_payload_is_used_without_rebuilding_it() {
    let fields = vec![("Expression".to_string(), "card A".to_string())];
    let plan = plan_add("card A", &fields, &cfg_on(), &root(), 11).unwrap();

    assert_eq!("card A", plan.expr);
    assert_eq!(fields, plan.fields);
    assert_eq!(under_root("card A_11.png"), plan.path);
}

#[test]
fn the_picture_fields_are_the_screenshot_rows() {
    let mut cfg = cfg_on();
    cfg.anki.field_map.push(FieldMapping {
        anki_field: "Picture".into(),
        source: "screenshot".into(),
    });
    cfg.anki.field_map.push(FieldMapping {
        anki_field: "Picture2".into(),
        source: "screenshot".into(),
    });
    let plan = plan_add("", &Vec::new(), &cfg, &root(), 1).unwrap();
    assert_eq!(vec!["Picture".to_string(), "Picture2".to_string()], plan.picture_fields);
}

#[test]
fn a_field_map_that_routes_no_screenshot_plans_a_pictureless_add() {
    let plan = plan_add("宿舎", &Vec::new(), &cfg_on(), &root(), 1).unwrap();
    assert!(plan.picture_fields.is_empty());
}

#[test]
fn include_on_add_off_plans_nothing() {
    let cfg = Config::default();
    assert!(!cfg.actions.screenshot.include_on_add, "the shipped default");
    assert_eq!(None, plan_add("宿舎", &Vec::new(), &cfg, &root(), 1));
}

#[test]
fn an_authorized_empty_expression_still_has_a_payload_plan() {
    let fields: Vec<(String, String)> = Vec::new();
    let plan = plan_add("", &fields, &cfg_on(), &root(), 1).unwrap();
    assert_eq!("", plan.expr);
    assert_eq!(fields, plan.fields);
    assert_eq!(under_root("screenshot_1.png"), plan.path);
}

#[test]
fn sanitizing_replaces_every_windows_illegal_char() {
    assert_eq!("a_b_c", sanitize_filename("a/b\\c"));
    assert_eq!("a_b", sanitize_filename("a:b"));
    assert_eq!("a_b", sanitize_filename("a*b"));
    assert_eq!("a_b", sanitize_filename("a?b"));
    assert_eq!("a_b", sanitize_filename("a\"b"));
    assert_eq!("a_b", sanitize_filename("a<b"));
    assert_eq!("a_b", sanitize_filename("a>b"));
    assert_eq!("a_b", sanitize_filename("a|b"));
}

#[test]
fn sanitizing_collapses_consecutive_underscores() {
    assert_eq!("a_b", sanitize_filename("a///b"));
}

#[test]
fn sanitizing_truncates_long_names_at_a_char_boundary() {
    let long = "\u{3042}".repeat(100);
    let result = sanitize_filename(&long);
    assert!(result.len() <= 60, "{} bytes", result.len());
    assert_eq!("\u{3042}".repeat(20), result, "20 three-byte chars fit in 60");
}

#[test]
fn sanitizing_an_empty_name_falls_back() {
    assert_eq!("screenshot", sanitize_filename(""));
}

#[test]
fn sanitizing_an_all_illegal_name_falls_back() {
    assert_eq!("screenshot", sanitize_filename("///"));
}

#[test]
fn sanitizing_passes_japanese_through() {
    assert_eq!("\u{5bbf}\u{820e}", sanitize_filename("\u{5bbf}\u{820e}"));
}

fn plan(picture_fields: &[&str]) -> ShotPlan {
    ShotPlan {
        expr: "猫".to_string(),
        fields: Vec::new(),
        path: under_root("猫_7.v2.png"),
        picture_fields: picture_fields.iter().map(|f| f.to_string()).collect(),
    }
}

#[test]
fn a_picture_is_attached_under_the_name_of_its_file() {
    let picture = picture_of(&[0x89, 0x50, 0x4e, 0x47, 0xff], &plan(&["Picture", "Back"])).unwrap();
    assert_eq!(picture.data_base64, "iVBOR/8=");
    assert_eq!(picture.filename, "chibipop-screenshot-猫_7.v2.png");
    assert_eq!(picture.fields, vec!["Picture", "Back"]);
    assert!(picture_of(&[1], &plan(&[])).is_none(), "no field takes it");
}

#[test]
fn what_is_attached_follows_the_encoded_bytes() {
    let picture = attach("AAEC".to_string(), &plan(&["Picture"])).unwrap();
    assert_eq!(picture.data_base64, "AAEC");
    assert!(attach("AAEC".to_string(), &plan(&[])).is_none());
    let bare = ShotPlan { path: Vec::new(), ..plan(&["Picture"]) };
    assert_eq!(attach(String::new(), &bare).unwrap().filename, "chibipop-screenshot-.png");
}

#[test]
fn sanitizing_replaces_a_nul() {
    assert_eq!("a_b", sanitize_filename("a\0b"));
    assert_eq!("a_b", sanitize_filename("\0a\0\0b"));
    assert_eq!("screenshot", sanitize_filename("\0_/"));
    assert_eq!("screenshot", sanitize_filename("__"));
}

#[test]
fn a_name_is_smooth_and_short() {
    for word in ["_a__b", "/a*?b|", "<>", "\0", "猫___犬", "__\u{3042}", "a b"] {
        let name = sanitize_filename(word);
        assert!(!name.is_empty() && name.len() <= 60, "{name:?}");
        assert!(!name.starts_with('_') && !name.contains("__"), "{name:?}");
        assert!(!name.contains(['/', '\\', ':', '*', '?', '"', '<', '>', '|', '\0']), "{name:?}");
    }
}

#[test]
fn a_picture_is_padded_base64_in_the_standard_alphabet() {
    let cases: [(&[u8], &str); 7] = [
        (b"", ""),
        (b"f", "Zg=="),
        (b"fo", "Zm8="),
        (b"foo", "Zm9v"),
        (b"foob", "Zm9vYg=="),
        (&[0xfb, 0xff, 0xfe], "+//+"),
        (&[0, 0x10, 0x83], "ABCD"),
    ];
    for (bytes, want) in cases {
        assert_eq!(want, picture_of(bytes, &plan(&["Picture"])).unwrap().data_base64);
    }
}

#[test]
fn a_plan_keeps_every_field_once() {
    let fields = vec![
        ("Expression".to_string(), "猫".to_string()),
        ("Reading".to_string(), "ねこ".to_string()),
    ];
    let plan = plan_add("猫", &fields, &cfg_on(), &root(), 1).unwrap();
    assert_eq!(fields, plan.fields);
}
