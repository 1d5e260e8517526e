//! What the settings window reads and writes.
use chibipop::config::{
    Config, FieldMapping, LayoutMode, OcrClipboardConfig, PopupLayer, RankingStrategy,
    SelectionButtons, SelectionSeparator, SentenceMode, TripleClick, TriggerMode, CAPTURE_H_RANGE,
    CAPTURE_W_RANGE, MAX_HEIGHT_RANGE, MAX_WIDTH_RANGE, PASSES_RANGE, SUMMARY_RANGE,
};
use chibipop::library::{DiskFile, Entry, Library, Pending, Role, Roles};
use chibipop::present::DictInfo;
use chibipop::settings::{
    apply_to, archive_title, clamp_notice, dictionary_added, dictionary_removed, dictionary_work,
    drift, drift_notice, from_config, is_scoped, removed_files, scoped_entry, stage_into_library,
    stale_order_entries, terms_after_apply, with_library, DictRow, DictionaryWork, SettingsForm,
};
use std::collections::BTreeMap;


fn dicts() -> Vec<DictInfo> {
    vec![
        DictInfo { dict_id: 1, name: "Jitendex.org [2026-07-09]".into() },
        DictInfo { dict_id: 2, name: "大辞林　第四版".into() },
    ]
}

/// A config already written in the role shape.
fn cfg_with(terms: &[&str]) -> Config {
    let mut c = Config::default();
    c.dictionaries.terms = terms.iter().map(|s| (*s).to_string()).collect();
    c
}

/// A pre-roles config that carries the substrings that the role shape replaced.
fn pre_roles(order: &[&str]) -> Config {
    let mut c = Config::default();
    c.dictionaries.display_order = order.iter().map(|s| (*s).to_string()).collect();
    c
}

fn names(rows: &[DictRow]) -> Vec<String> {
    rows.iter().map(|row| row.name.clone()).collect()
}

fn enabled_names(rows: &[DictRow]) -> Vec<String> {
    rows.iter().filter(|row| row.enabled).map(|row| row.name.clone()).collect()
}

#[test]
fn the_form_lists_dictionaries_in_the_configured_order() {
    let form =
        from_config(&cfg_with(&["大辞林　第四版", "Jitendex.org [2026-07-09]"]), &dicts());
    assert_eq!(vec!["大辞林　第四版", "Jitendex.org [2026-07-09]"], names(&form.terms));
    assert!(form.terms.iter().all(|row| row.enabled));
}

#[test]
fn an_unlisted_dictionary_is_listed_last() {
    let form = from_config(&cfg_with(&["大辞林　第四版"]), &dicts());
    assert_eq!(vec!["大辞林　第四版", "Jitendex.org [2026-07-09]"], names(&form.terms));
}

/// Exact names must control order changes. The older substring model changed a
/// pattern, so one edition change changed every Dictionary that matched it.
/// A row now stores one name, and a move changes only that row.
#[test]
fn reordering_writes_the_exact_names_in_their_new_order() {
    let cfg = cfg_with(&["大辞林　第四版", "Jitendex.org [2026-07-09]"]);
    let mut form = from_config(&cfg, &dicts());
    form.terms.reverse();
    let out = apply_to(&form, &cfg);
    assert_eq!(
        vec!["Jitendex.org [2026-07-09]".to_string(), "大辞林　第四版".to_string()],
        out.dictionaries.terms,
    );
    assert!(out.dictionaries.terms_disabled.is_empty());
}

/// The migration converts a config with `大辞林` into exact installed names.
/// The first Apply writes those names into six arrays and retires the old key.
#[test]
fn a_pre_roles_config_is_written_back_as_exact_names() {
    let cfg = pre_roles(&["大辞林", "Kenkyusha"]);
    let form = from_config(&cfg, &dicts());
    assert_eq!(
        vec!["大辞林　第四版", "Jitendex.org [2026-07-09]"],
        names(&form.terms),
        "the substring resolved, the one matching nothing was dropped, and the \
         dictionary no substring named landed at the bottom",
    );

    let out = apply_to(&form, &cfg);

    assert_eq!(
        vec!["大辞林　第四版".to_string(), "Jitendex.org [2026-07-09]".to_string()],
        out.dictionaries.terms,
    );
    assert!(out.dictionaries.display_order.is_empty(), "the retired key is gone");
    for role in Role::EVERY {
        let (on, off) = out.dictionaries.lists(role);
        assert!(!on.iter().chain(off).any(|n| n == "大辞林"), "and so is the substring");
    }
}

/// The Windows Apply pipeline writes its fields and preserves Linux platform fields.
#[test]
fn applying_the_form_preserves_the_other_platforms_fields() {
    let mut cfg = cfg_with(&["大辞林　第四版", "Jitendex.org [2026-07-09]"]);
    cfg.trigger.trigger_key_linux = "SUPER+J".to_string();
    cfg.anki.add_key_linux = "SUPER+K".to_string();
    cfg.anki.static_region_key_linux = "SUPER+R".to_string();
    cfg.actions.screenshot.hotkey_linux = Some("SUPER+S".to_string());
    cfg.actions.ocr_clipboard = Some(OcrClipboardConfig {
        hotkey: Some("f9".into()),
        hotkey_linux: Some("SUPER+C".into()),
    });
    cfg.popup.layer = PopupLayer::Top;
    let mut form = from_config(&cfg, &dicts());
    form.theme = "light".to_string();
    let out = apply_to(&form, &cfg);
    assert_eq!("SUPER+J", out.trigger.trigger_key_linux);
    assert_eq!("SUPER+K", out.anki.add_key_linux);
    assert_eq!("SUPER+R", out.anki.static_region_key_linux);
    assert_eq!(
        Some("SUPER+C".to_string()),
        out.actions.ocr_clipboard.as_ref().and_then(|a| a.hotkey_linux.clone())
    );
    assert_eq!(Some("SUPER+S".to_string()), out.actions.screenshot.hotkey_linux);
    assert_eq!(PopupLayer::Top, out.popup.layer);
    assert_eq!("light", out.popup.theme);
}

/// The written name includes the Dictionary's edition and date. The old key
/// derivation cut text at the first bracket, so two editions became one entry.
#[test]
fn a_never_listed_dictionary_is_written_under_its_whole_name() {
    let cfg = cfg_with(&[]);
    let form = from_config(&cfg, &dicts());
    let out = apply_to(&form, &cfg);
    assert_eq!(
        vec!["Jitendex.org [2026-07-09]".to_string(), "大辞林　第四版".to_string()],
        out.dictionaries.terms,
    );
}

/// An unchecked row goes to the disabled list. It keeps its position there
/// and does not affect searches.
#[test]
fn an_unchecked_row_lands_in_the_disabled_twin() {
    let cfg = cfg_with(&[]);
    let mut form = from_config(&cfg, &dicts());
    form.terms[0].enabled = false;
    let out = apply_to(&form, &cfg);
    assert_eq!(vec!["大辞林　第四版".to_string()], out.dictionaries.terms);
    assert_eq!(
        vec!["Jitendex.org [2026-07-09]".to_string()],
        out.dictionaries.terms_disabled,
    );
    assert_eq!(
        vec!["大辞林　第四版".to_string()],
        out.present_config(&dicts()).terms,
        "and the popup searches only what is checked",
    );
}

/// Exact names let one edition stay disabled while another stays enabled.
#[test]
fn settings_two_dictionaries_sharing_a_substring_are_enabled_independently() {
    let editions = vec![
        DictInfo { dict_id: 1, name: "大辞林　第三版".into() },
        DictInfo { dict_id: 2, name: "大辞林　第四版".into() },
    ];
    let cfg = Config::default();
    let mut form = from_config(&cfg, &editions);
    form.terms[0].enabled = false;
    let out = apply_to(&form, &cfg);
    assert_eq!(vec!["大辞林　第四版".to_string()], out.dictionaries.terms);
    assert_eq!(vec!["大辞林　第三版".to_string()], out.dictionaries.terms_disabled);
    assert_eq!(vec!["大辞林　第四版".to_string()], out.present_config(&editions).terms);
}

/// A Config name with no Dictionary match must appear in the stale-name report.
#[test]
fn an_entry_matching_no_dictionary_is_reported() {
    let stale = stale_order_entries(&cfg_with(&["大辞林　第四版", "Kenkyusha"]), &dicts());
    assert_eq!(vec!["Kenkyusha".to_string()], stale);
}

#[test]
fn entries_that_all_match_report_nothing() {
    let cfg = cfg_with(&["大辞林　第四版", "Jitendex.org [2026-07-09]"]);
    assert!(stale_order_entries(&cfg, &dicts()).is_empty());
}

/// The stale-name report checks every role because all arrays store Dictionary
/// names with the same exact rule.
#[test]
fn a_stale_entry_is_reported_whichever_list_holds_it() {
    let mut cfg = Config::default();
    cfg.dictionaries.frequency = vec!["Gone".to_string()];
    cfg.dictionaries.pitch_disabled = vec!["Also gone".to_string()];
    assert_eq!(
        vec!["Gone".to_string(), "Also gone".to_string()],
        stale_order_entries(&cfg, &dicts()),
    );
}

/// An unchanged form must produce an equal Config.
#[test]
fn an_untouched_form_round_trips_to_an_equal_config() {
    let cfg = cfg_with(&["大辞林　第四版", "Jitendex.org [2026-07-09]"]);
    let form = from_config(&cfg, &dicts());
    assert_eq!(cfg, apply_to(&form, &cfg));
}

#[test]
fn every_setting_survives_the_round_trip() {
    let mut cfg = cfg_with(&["大辞林　第四版", "Jitendex.org [2026-07-09]"]);
    cfg.trigger.mode = TriggerMode::HoldKey;
    cfg.popup.theme = "light".into();
    cfg.popup.font = "Noto Sans JP".into();
    cfg.popup.max_width_percent = 35;
    cfg.popup.max_height_percent = 70;
    cfg.popup.summary_chars = 25;
    cfg.popup.highlight_match = false;
    cfg.popup.scroll_popup = false;
    cfg.popup.edge_autoscroll = false;
    cfg.popup.side_panel = true;
    cfg.popup.exclude_from_capture = true;
    cfg.popup.layout_mode = LayoutMode::Compact;
    cfg.popup.dictionary_styling = false;
    cfg.popup.show_examples = false;
    cfg.popup.show_attributions = false;
    cfg.popup.show_images = false;
    cfg.popup.show_part_of_speech = true;
    cfg.ocr.max_ocr_passes = 3;
    cfg.ocr.prefer_vertical = true;
    cfg.ocr.capture_width = 640;
    cfg.ocr.capture_height = 180;
    cfg.ocr.scan_alphanumeric = false;
    cfg.debug.show_scan_region = true;
    cfg.debug.show_engine_log = true;
    cfg.debug.show_adapter_log = true;
    cfg.anki.enabled = true;
    cfg.anki.url = "http://localhost:9999".into();
    cfg.anki.deck = "Mining".into();
    cfg.anki.model = "Custom".into();
    cfg.anki.add_key = "f2".into();
    cfg.anki.notify_on_add = false;
    cfg.anki.selection_buttons = SelectionButtons::PrimaryReplacing;
    cfg.anki.selection_separator = SelectionSeparator::ListItems;
    cfg.anki.triple_click = TripleClick::Line;
    let form = from_config(&cfg, &dicts());
    assert_eq!(cfg, apply_to(&form, &cfg));
}

/// This test checks each render field in both directions, one field at a time.
///
/// A field can reach the form through `from_config` but fail to return through
/// `apply_to`. Separate cases show which field fails. They keep failures separate.
#[test]
fn every_render_knob_round_trips_through_the_form() {
    type Edit = fn(&mut Config);
    type Read = fn(&SettingsForm) -> bool;
    type Back = fn(&Config) -> bool;
    let cases: [(&str, Edit, Read, Back); 6] = [
        (
            "layout_mode",
            |c| c.popup.layout_mode = LayoutMode::Compact,
            |f| f.layout_mode == LayoutMode::Compact,
            |c| c.popup.layout_mode == LayoutMode::Compact,
        ),
        (
            "dictionary_styling",
            |c| c.popup.dictionary_styling = false,
            |f| !f.dictionary_styling,
            |c| !c.popup.dictionary_styling,
        ),
        (
            "show_examples",
            |c| c.popup.show_examples = false,
            |f| !f.show_examples,
            |c| !c.popup.show_examples,
        ),
        (
            "show_attributions",
            |c| c.popup.show_attributions = false,
            |f| !f.show_attributions,
            |c| !c.popup.show_attributions,
        ),
        (
            "show_images",
            |c| c.popup.show_images = false,
            |f| !f.show_images,
            |c| !c.popup.show_images,
        ),
        (
            "show_part_of_speech",
            |c| c.popup.show_part_of_speech = true,
            |f| f.show_part_of_speech,
            |c| c.popup.show_part_of_speech,
        ),
    ];
    for (field, edit, read, back) in cases {
        let mut cfg = cfg_with(&["大辞林"]);
        edit(&mut cfg);
        let form = from_config(&cfg, &dicts());
        assert!(read(&form), "{field} did not reach the form");
        assert!(back(&apply_to(&form, &cfg)), "{field} did not come back from the form");
    }
}

#[test]
fn anki_add_key_round_trips_through_the_form() {
    let mut cfg = cfg_with(&["大辞林", "Jitendex"]);
    cfg.anki.add_key = "f2".into();
    let form = from_config(&cfg, &dicts());
    assert_eq!("f2", form.anki_add_key);
    assert_eq!("f2", apply_to(&form, &cfg).anki.add_key);
}

#[test]
fn field_map_round_trips_through_the_form() {
    let mut cfg = cfg_with(&["大辞林", "Jitendex"]);
    cfg.anki.field_map = vec![FieldMapping {
        anki_field: "Front".into(),
        source: "expression".into(),
    }];
    let form = from_config(&cfg, &dicts());
    assert_eq!(Some(cfg.anki.field_map.clone()), form.field_map);
    assert_eq!(cfg.anki.field_map, apply_to(&form, &cfg).anki.field_map);
}

/// An untouched field map must remain unchanged.
#[test]
fn an_untouched_field_map_survives_apply() {
    let cfg = cfg_with(&[]);
    let form = from_config(&cfg, &dicts());
    assert_eq!(cfg.anki.field_map, apply_to(&form, &cfg).anki.field_map);
}

/// An empty field map is an explicit user answer that Apply must save.
#[test]
fn emptying_the_field_map_saves_an_empty_map() {
    let mut cfg = cfg_with(&[]);
    cfg.anki.field_map =
        vec![FieldMapping { anki_field: "Front".into(), source: "expression".into() }];
    let mut form = from_config(&cfg, &dicts());
    form.field_map = Some(Vec::new());
    assert!(
        apply_to(&form, &cfg).anki.field_map.is_empty(),
        "the user emptied the map; Apply must save that"
    );
}

/// A form without loaded field names has no answer. That differs from an empty
/// field map, which is an explicit answer.
#[test]
fn a_window_with_nothing_to_say_cannot_wipe_the_field_map() {
    let mut cfg = cfg_with(&[]);
    cfg.anki.field_map =
        vec![FieldMapping { anki_field: "Front".into(), source: "expression".into() }];
    let mut form = from_config(&cfg, &dicts());
    form.field_map = None;
    assert_eq!(
        cfg.anki.field_map,
        apply_to(&form, &cfg).anki.field_map,
        "Anki was unreachable; Apply must leave the saved map alone"
    );
}

#[test]
fn include_screenshot_round_trips() {
    let mut cfg = cfg_with(&[]);
    cfg.actions.screenshot.include_on_add = true;
    let form = from_config(&cfg, &dicts());
    assert!(form.include_screenshot);
    let out = apply_to(&form, &cfg);
    assert!(out.actions.screenshot.include_on_add);
}

#[test]
fn include_on_add_defaults_to_false() {
    let cfg = Config::default();
    assert!(!cfg.actions.screenshot.include_on_add);
    let form = from_config(&cfg, &dicts());
    assert!(!form.include_screenshot);
}

#[test]
fn include_screenshot_false_round_trips() {
    let mut cfg = cfg_with(&[]);
    cfg.actions.screenshot.include_on_add = false;
    let form = from_config(&cfg, &dicts());
    assert!(!form.include_screenshot);
    let out = apply_to(&form, &cfg);
    assert!(!out.actions.screenshot.include_on_add);
}

#[test]
fn include_screenshot_does_not_touch_hotkey() {
    let mut cfg = cfg_with(&[]);
    cfg.actions.screenshot.hotkey = "f10".into();
    cfg.actions.screenshot.include_on_add = true;
    let form = from_config(&cfg, &dicts());
    let out = apply_to(&form, &cfg);
    assert_eq!("f10", out.actions.screenshot.hotkey);
}

#[test]
fn ocr_clipboard_key_round_trips_through_the_form() {
    let mut cfg = cfg_with(&[]);
    cfg.actions.ocr_clipboard = Some(OcrClipboardConfig {
        hotkey: Some("f9".into()),
        hotkey_linux: None,
    });

    let form = from_config(&cfg, &dicts());
    assert_eq!(Some("f9".to_string()), form.ocr_clipboard_key);

    let out = apply_to(&form, &cfg);
    assert_eq!(
        Some("f9".to_string()),
        out.actions.ocr_clipboard.and_then(|a| a.hotkey)
    );
}

/// An absent OCR clipboard section and key must remain `None` without a sentinel.
#[test]
fn an_absent_ocr_clipboard_action_reads_as_none() {
    let cfg = cfg_with(&[]);
    assert_eq!(None, cfg.actions.ocr_clipboard);

    let form = from_config(&cfg, &dicts());
    assert_eq!(None, form.ocr_clipboard_key);
    assert_eq!(None, apply_to(&form, &cfg).actions.ocr_clipboard);
}

#[test]
fn an_unset_ocr_clipboard_key_disables_the_action() {
    let mut cfg = cfg_with(&[]);
    cfg.actions.ocr_clipboard = Some(OcrClipboardConfig {
        hotkey: Some("f9".into()),
        hotkey_linux: None,
    });
    let mut form = from_config(&cfg, &dicts());
    form.ocr_clipboard_key = None;

    assert_eq!(None, apply_to(&form, &cfg).actions.ocr_clipboard);
}

/// The Windows chord can be clear while the Linux chord remains.
#[test]
fn an_unset_ocr_clipboard_key_keeps_the_linux_twin() {
    let mut cfg = cfg_with(&[]);
    cfg.actions.ocr_clipboard = Some(OcrClipboardConfig {
        hotkey: Some("f9".into()),
        hotkey_linux: Some("SUPER+C".into()),
    });
    let mut form = from_config(&cfg, &dicts());
    form.ocr_clipboard_key = None;

    assert_eq!(
        Some(OcrClipboardConfig { hotkey: None, hotkey_linux: Some("SUPER+C".into()) }),
        apply_to(&form, &cfg).actions.ocr_clipboard
    );
}

#[test]
fn first_dict_only_defaults_to_false() {
    let cfg = Config::default();
    let form = from_config(&cfg, &dicts());
    assert!(!form.first_dict_only);
}

#[test]
fn first_dict_only_round_trips() {
    let mut cfg = cfg_with(&[]);
    cfg.anki.first_dict_only = true;
    let form = from_config(&cfg, &dicts());
    assert!(form.first_dict_only);
    let out = apply_to(&form, &cfg);
    assert!(out.anki.first_dict_only);
}

#[test]
fn sentence_mode_round_trips() {
    let mut cfg = cfg_with(&[]);
    cfg.anki.sentence_mode = SentenceMode::All;
    let form = from_config(&cfg, &dicts());
    assert_eq!(SentenceMode::All, form.sentence_mode);
    let out = apply_to(&form, &cfg);
    assert_eq!(SentenceMode::All, out.anki.sentence_mode);
}

#[test]
fn sentence_mode_defaults_to_line_in_the_form() {
    let cfg = Config::default();
    let form = from_config(&cfg, &dicts());
    assert_eq!(SentenceMode::Line, form.sentence_mode);
}

#[test]
fn static_region_key_round_trips_through_the_form() {
    let mut cfg = cfg_with(&[]);
    cfg.anki.static_region_key = "alt+r".to_string();
    let form = from_config(&cfg, &dicts());
    assert_eq!("alt+r", form.static_region_key);
    let out = apply_to(&form, &cfg);
    assert_eq!("alt+r", out.anki.static_region_key);
}

#[test]
fn sentence_mode_static_round_trips() {
    let mut cfg = cfg_with(&[]);
    cfg.anki.sentence_mode = SentenceMode::Static;
    let form = from_config(&cfg, &dicts());
    assert_eq!(SentenceMode::Static, form.sentence_mode);
    let out = apply_to(&form, &cfg);
    assert_eq!(SentenceMode::Static, out.anki.sentence_mode);
}

#[test]
fn out_of_range_numbers_are_clamped_not_rejected() {
    let cfg = cfg_with(&[]);
    let mut form = from_config(&cfg, &dicts());
    form.max_width_percent = 250;
    form.max_height_percent = 250;
    form.summary_chars = 1;
    form.max_ocr_passes = 99;
    let out = apply_to(&form, &cfg);
    assert_eq!(MAX_WIDTH_RANGE.1, out.popup.max_width_percent);
    assert_eq!(MAX_HEIGHT_RANGE.1, out.popup.max_height_percent);
    assert_eq!(SUMMARY_RANGE.0, out.popup.summary_chars);
    assert_eq!(PASSES_RANGE.1, out.ocr.max_ocr_passes);
}

#[test]
fn apply_to_clamps_the_capture_size() {
    let cfg = Config::default();
    let mut form = from_config(&cfg, &dicts());
    form.capture_width = 99_999;
    form.capture_height = 1;
    let out = apply_to(&form, &cfg);
    assert_eq!(CAPTURE_W_RANGE.1, out.ocr.capture_width);
    assert_eq!(CAPTURE_H_RANGE.0, out.ocr.capture_height);
}

#[test]
fn a_clamped_height_is_named_in_the_notice() {
    let cfg = Config::default();
    let mut form = from_config(&cfg, &dicts());
    form.capture_height = 1;
    let out = apply_to(&form, &cfg);
    assert_eq!(
        Some("Capture height raised to the 80px minimum.".to_string()),
        clamp_notice(&form, &out)
    );
}

#[test]
fn a_clamped_width_is_named_with_its_ceiling() {
    let cfg = Config::default();
    let mut form = from_config(&cfg, &dicts());
    form.capture_width = 99_999;
    let out = apply_to(&form, &cfg);
    assert_eq!(
        Some("Capture width lowered to the 1600px maximum.".to_string()),
        clamp_notice(&form, &out)
    );
}

#[test]
fn both_clamped_axes_are_both_reported() {
    let cfg = Config::default();
    let mut form = from_config(&cfg, &dicts());
    form.capture_width = 1;
    form.capture_height = 9_999;
    let notice = clamp_notice(&form, &apply_to(&form, &cfg)).expect("both were clamped");
    assert!(notice.contains("Capture width raised to the 100px minimum."), "{notice}");
    assert!(notice.contains("Capture height lowered to the 600px maximum."), "{notice}");
}

#[test]
fn in_range_capture_values_produce_no_notice() {
    let cfg = Config::default();
    let mut form = from_config(&cfg, &dicts());
    form.capture_width = 500;
    form.capture_height = 220;
    assert_eq!(None, clamp_notice(&form, &apply_to(&form, &cfg)));
}

#[test]
fn apply_to_carries_scan_alphanumeric() {
    let cfg = Config::default();
    let mut form = from_config(&cfg, &dicts());
    form.scan_alphanumeric = false;
    assert!(!apply_to(&form, &cfg).ocr.scan_alphanumeric);
}

#[test]
fn apply_to_carries_per_character_lookup() {
    let cfg = Config::default();
    let mut form = from_config(&cfg, &dicts());
    form.per_character_lookup = true;
    assert!(apply_to(&form, &cfg).trigger.per_character_lookup);
}

#[test]
fn apply_to_carries_the_ocr_language() {
    let cfg = Config::default();
    let mut form = from_config(&cfg, &dicts());
    form.ocr_language = "zh-Hans".to_string();
    assert_eq!("zh-Hans", apply_to(&form, &cfg).ocr.language);
}

/// Checks that from_config copies per-character lookup into the form.
#[test]
fn from_config_seeds_per_character_lookup() {
    let mut cfg = Config::default();
    cfg.trigger.per_character_lookup = true;
    assert!(from_config(&cfg, &dicts()).per_character_lookup);
    assert!(
        !from_config(&Config::default(), &dicts()).per_character_lookup,
        "must default off"
    );
}

/// Checks that from_config copies the OCR language into the form.
#[test]
fn from_config_seeds_the_ocr_language() {
    let mut cfg = Config::default();
    cfg.ocr.language = "zh-Hans".to_string();
    assert_eq!("zh-Hans", from_config(&cfg, &dicts()).ocr_language);
    assert_eq!("ja", from_config(&Config::default(), &dicts()).ocr_language);
}

#[test]
fn apply_to_carries_the_engine() {
    let cfg = Config::default();
    let mut form = from_config(&cfg, &dicts());
    form.engine = "meikiocr".to_string();
    assert_eq!("meikiocr", apply_to(&form, &cfg).ocr.engine);
}

/// Checks that from_config copies the engine name into the form.
#[test]
fn from_config_seeds_the_engine() {
    let mut cfg = Config::default();
    cfg.ocr.engine = "meikiocr".to_string();
    assert_eq!("meikiocr", from_config(&cfg, &dicts()).engine);
    assert_eq!("builtin", from_config(&Config::default(), &dicts()).engine);
}

#[test]
fn apply_to_carries_enabled_plugins() {
    let cfg = Config::default();
    let mut form = from_config(&cfg, &dicts());
    form.enabled_plugins = vec!["meikiocr".to_string()];
    assert_eq!(
        vec!["meikiocr".to_string()],
        apply_to(&form, &cfg).plugins.enabled
    );
}

/// Checks that from_config copies enabled plugin names into the form.
#[test]
fn from_config_seeds_enabled_plugins() {
    let mut cfg = Config::default();
    cfg.plugins.enabled = vec!["meikiocr".to_string()];
    assert_eq!(
        vec!["meikiocr".to_string()],
        from_config(&cfg, &dicts()).enabled_plugins
    );
    assert!(from_config(&Config::default(), &dicts()).enabled_plugins.is_empty());
}

#[test]
fn from_config_puts_the_languages_own_terms_first_and_unchecks_the_rest() {
    let mut cfg = Config::default();
    cfg.ocr.language = "ja".to_string();
    cfg.dictionaries
        .per_language
        .insert("ja".to_string(), vec!["大辞林　第四版".to_string()]);
    let form = from_config(&cfg, &dicts());
    assert_eq!(vec!["大辞林　第四版".to_string()], enabled_names(&form.terms));
    assert!(form.terms.iter().any(|row| row.name.contains("Jitendex") && !row.enabled));
}

#[test]
fn apply_to_writes_the_checked_rows_into_their_language() {
    let mut cfg = Config::default();
    cfg.ocr.language = "ja".to_string();
    cfg.dictionaries
        .per_language
        .insert("ja".to_string(), vec!["大辞林　第四版".to_string()]);
    let mut form = from_config(&cfg, &dicts());
    form.terms = vec![
        DictRow { name: "大辞林　第四版".to_string(), enabled: true },
        DictRow { name: "Jitendex.org [2026-07-09]".to_string(), enabled: false },
    ];
    let out = apply_to(&form, &cfg);
    assert_eq!(vec!["大辞林　第四版".to_string()], *out.dictionaries.per_language.get("ja").unwrap());
}

/// Other language lists must remain unchanged.
#[test]
fn apply_to_preserves_other_languages() {
    let mut cfg = Config::default();
    cfg.ocr.language = "ja".to_string();
    let mut form = from_config(&cfg, &dicts());
    form.per_language.insert("zh-Hans-CN".to_string(), vec!["中日大辞典".to_string()]);
    form.terms = vec![DictRow { name: "大辞林　第四版".to_string(), enabled: true }];
    let out = apply_to(&form, &cfg);
    assert_eq!(
        vec!["中日大辞典".to_string()],
        *out.dictionaries.per_language.get("zh-Hans-CN").unwrap(),
        "the other language's list must survive",
    );
}

/// A second Apply must preserve the language key and write the exact names
/// that the second form contains.
#[test]
fn a_second_apply_rewrites_the_key_the_first_one_wrote() {
    let mut cfg = Config::default();
    cfg.ocr.language = "ja".to_string();
    cfg.dictionaries
        .per_language
        .insert("ja".to_string(), vec!["大辞林　第四版".to_string()]);
    let mut form = from_config(&cfg, &dicts());
    form.terms = vec![
        DictRow { name: "大辞林　第四版".to_string(), enabled: true },
        DictRow { name: "Jitendex.org [2026-07-09]".to_string(), enabled: false },
    ];
    let first = apply_to(&form, &cfg);
    assert_eq!(vec!["大辞林　第四版".to_string()], *first.dictionaries.per_language.get("ja").unwrap());

    form.reseed_per_language(&first.dictionaries.per_language);
    form.terms[1].enabled = true;
    let second = apply_to(&form, &first);
    assert_eq!(
        vec!["大辞林　第四版".to_string(), "Jitendex.org [2026-07-09]".to_string()],
        *second.dictionaries.per_language.get("ja").unwrap(),
        "the second Apply must rewrite the key, never drop it",
    );
}

/// The Library merge must preserve a language's scope.
#[test]
fn with_library_keeps_the_exclusion_scoped() {
    let mut cfg = Config::default();
    cfg.ocr.language = "ja".to_string();
    cfg.dictionaries
        .per_language
        .insert("ja".to_string(), vec!["大辞林　第四版".to_string()]);
    let form = with_library(from_config(&cfg, &dicts()), &library());
    assert!(!enabled_names(&form.terms).iter().any(|n| n.contains("Jitendex")));
    assert!(form.terms.iter().any(|row| row.name.contains("Jitendex") && !row.enabled));
}

/// A stale `dict_list_language` value must not replace the real language list.
#[test]
fn apply_to_does_not_write_a_stale_dict_list_language() {
    let mut cfg = Config::default();
    cfg.dictionaries
        .per_language
        .insert("zh-Hans-CN".to_string(), vec!["中日大辞典".to_string()]);
    let mut form = from_config(&cfg, &dicts());
    form.ocr_language = "zh-Hans-CN".to_string();
    let out = apply_to(&form, &cfg);
    assert_eq!(
        vec!["中日大辞典".to_string()],
        *out.dictionaries.per_language.get("zh-Hans-CN").unwrap(),
        "a stale dict list must not overwrite the real one",
    );
}

/// The same function defines the no-name result for both write paths.
#[test]
fn a_scoped_entry_naming_nothing_is_never_written() {
    let unreadable = ["bad.zip".to_string()];
    assert_eq!(None, scoped_entry(&[], &[]));
    assert_eq!(
        None,
        scoped_entry(&[DictRow { name: "bad.zip".into(), enabled: true }], &unreadable),
    );
    assert_eq!(
        None,
        scoped_entry(&[DictRow { name: "大辞林　第四版".into(), enabled: false }], &[]),
        "an unchecked row is not a dictionary this language searches",
    );
    assert_eq!(
        Some(vec!["大辞林　第四版".to_string()]),
        scoped_entry(&[DictRow { name: "大辞林　第四版".into(), enabled: true }], &[]),
    );
}

/// I2-a: No searchable row remains, so Apply must preserve the current entry.
#[test]
fn apply_to_will_not_erase_a_list_when_nothing_is_searched() {
    let mut cfg = Config::default();
    cfg.ocr.language = "ja".to_string();
    cfg.dictionaries
        .per_language
        .insert("ja".to_string(), vec!["大辞林　第四版".to_string()]);
    let mut form = from_config(&cfg, &dicts());
    for row in &mut form.terms {
        row.enabled = false;
    }
    let out = apply_to(&form, &cfg);
    assert_eq!(
        vec!["大辞林　第四版".to_string()],
        *out.dictionaries.per_language.get("ja").unwrap(),
        "an empty split must leave the entry alone",
    );
}

/// I2-b: Only unreadable rows remain, so Apply must preserve the current entry.
#[test]
fn apply_to_will_not_erase_a_list_for_an_unreadable_row() {
    let mut cfg = Config::default();
    cfg.ocr.language = "ja".to_string();
    cfg.dictionaries
        .per_language
        .insert("ja".to_string(), vec!["大辞林　第四版".to_string()]);
    let mut form = from_config(&cfg, &dicts());
    form.terms = vec![
        DictRow { name: "bad.zip".to_string(), enabled: true },
        DictRow { name: "Jitendex.org [2026-07-09]".to_string(), enabled: false },
    ];
    form.unreadable = vec!["bad.zip".to_string()];
    let out = apply_to(&form, &cfg);
    assert_eq!(
        vec!["大辞林　第四版".to_string()],
        *out.dictionaries.per_language.get("ja").unwrap(),
        "a split naming only an unreadable file must leave the entry alone",
    );
}

/// A language list that names no installed Dictionary remains that language's
/// list. The old guard discarded it and searched every Dictionary to avoid
/// substring matches. Exact names prevent that false match.
#[test]
fn from_config_keeps_a_language_list_naming_nothing_installed() {
    let mut cfg = Config::default();
    cfg.ocr.language = "ja".to_string();
    cfg.dictionaries.per_language.insert("ja".to_string(), vec!["Daijirin".to_string()]);
    let form = from_config(&cfg, &dicts());
    assert_eq!(vec!["Daijirin".to_string()], enabled_names(&form.terms));
    assert!(
        form.terms.iter().filter(|row| !row.enabled).count() == 2,
        "and both installed dictionaries sit unchecked below it: {:?}",
        form.terms,
    );
}

#[test]
fn from_config_still_splits_a_list_that_matches_one() {
    let mut cfg = Config::default();
    cfg.ocr.language = "ja".to_string();
    cfg.dictionaries
        .per_language
        .insert("ja".to_string(), vec!["大辞林　第四版".to_string()]);
    let form = from_config(&cfg, &dicts());
    assert_eq!(vec!["大辞林　第四版".to_string()], enabled_names(&form.terms));
    assert_eq!(
        vec!["Jitendex.org [2026-07-09]".to_string()],
        form.terms.iter().filter(|r| !r.enabled).map(|r| r.name.clone()).collect::<Vec<_>>(),
    );
}

fn staged_form() -> SettingsForm {
    from_config(&cfg_with(&["大辞林　第四版", "Jitendex.org [2026-07-09]"]), &dicts())
}

#[test]
fn a_fresh_form_stages_nothing() {
    let form = staged_form();
    assert!(!form.has_staged());
    assert!(!form.freq_changed);
    assert!(form.frequency.is_empty());
    assert!(form.pitch.is_empty());
    assert!(!form.library_empty);
}

#[test]
fn staging_an_add_then_removing_it_is_a_no_op() {
    let mut form = staged_form();
    let before = names(&form.terms);
    assert_eq!(
        Some(Roles::only(&[Role::Terms])),
        stage(&mut form, "terms.zip"),
    );
    assert_eq!(1, form.staged_adds.len());
    assert_eq!("FixtureTerms", form.staged_adds[0].name, "the title, not the filename");

    form.stage_remove("FixtureTerms");

    assert!(form.staged_adds.is_empty());
    assert!(form.staged_removes.is_empty(), "the library was never asked for it");
    assert_eq!(before, names(&form.terms));
    assert!(!form.has_staged());
}

#[test]
fn a_staged_add_keeps_the_position_the_user_gave_it() {
    let cfg = Config::default();
    let installed = vec![DictInfo { dict_id: 1, name: "Jitendex.org [2026]".into() }];
    let mut form = from_config(&cfg, &installed);
    stage(&mut form, "terms.zip").expect("a real archive stages");

    // Move the staged row to the top.
    let name = form.staged_adds[0].name.clone();
    form.terms.retain(|row| row.name != name);
    form.terms.insert(0, DictRow { name: name.clone(), enabled: true });

    let out = apply_to(&form, &cfg);

    assert_eq!(
        Some(&name),
        out.dictionaries.terms.first(),
        "the position the user chose must survive Apply",
    );
}

/// An import goes to the bottom of each role list, enabled. It does not move
/// a prior row.
#[test]
fn an_import_lands_at_the_bottom_of_each_of_its_role_lists() {
    let mut form = staged_form();
    let before = names(&form.terms);

    assert_eq!(
        Some(Roles::only(&[Role::Terms, Role::Pitch])),
        stage(&mut form, "both.zip"),
    );

    let mut expected = before.clone();
    expected.push("FixtureBoth".to_string());
    assert_eq!(expected, names(&form.terms), "at the bottom, and nothing else moved");
    assert_eq!(vec!["FixtureBoth".to_string()], names(&form.pitch));
    assert!(form.frequency.is_empty(), "it supplies no frequency data");
    assert!(
        form.terms.last().unwrap().enabled && form.pitch[0].enabled,
        "and it arrives switched on in both",
    );
}

/// A pitch-only archive belongs only in the Pitch list. The old filename
/// heuristic placed it in the terms list.
#[test]
fn a_pitch_only_import_reaches_the_pitch_list_alone() {
    let mut form = staged_form();
    let terms_before = names(&form.terms);

    assert_eq!(Some(Roles::only(&[Role::Pitch])), stage(&mut form, "pitch.zip"));

    assert_eq!(vec!["FixturePitch".to_string()], names(&form.pitch));
    assert_eq!(terms_before, names(&form.terms));
    assert!(form.frequency.is_empty());
}

#[test]
fn a_frequency_archive_lands_in_the_frequency_list_whichever_button_was_used() {
    let mut form = staged_form();
    let terms_before = names(&form.terms);

    // The test starts with the archive under Dictionaries.
    assert_eq!(
        Some(Roles::only(&[Role::Frequency])),
        stage(&mut form, "freq.zip"),
    );

    assert_eq!(vec!["FixtureFreq".to_string()], names(&form.frequency));
    assert_eq!(terms_before, names(&form.terms), "it supplies no definitions");
}

#[test]
fn staging_a_freq_add_sets_freq_changed() {
    let mut form = staged_form();
    assert_eq!(
        Some(Roles::only(&[Role::Frequency])),
        stage(&mut form, "freq.zip"),
    );
    assert!(form.freq_changed);
}

#[test]
fn staging_a_term_add_does_not_set_freq_changed() {
    let mut form = staged_form();
    assert_eq!(
        Some(Roles::only(&[Role::Terms])),
        stage(&mut form, "terms.zip"),
    );
    assert!(!form.freq_changed);
}

#[test]
fn an_unreadable_file_cannot_be_staged() {
    let mut form = staged_form();

    assert_eq!(None, form.stage_add(&path("notazip.zip"), Roles::default(), None));

    assert!(form.staged_adds.is_empty());
    assert!(!form.has_staged());
}

#[test]
fn a_removal_preserves_the_order_of_the_rest() {
    let mut form = staged_form();
    form.terms = ["a", "b", "c"]
        .into_iter()
        .map(|name| DictRow { name: name.to_string(), enabled: true })
        .collect();

    form.stage_remove("b");

    assert_eq!(vec!["a".to_string(), "c".to_string()], names(&form.terms));
    assert_eq!(vec!["b".to_string()], form.staged_removes);
    assert!(form.has_staged());
}

/// One archive is one Dictionary. Removal therefore removes every role that
/// it held, not only the role list that received the click.
#[test]
fn a_removal_drops_the_dictionary_from_every_list() {
    let mut form = staged_form();
    stage(&mut form, "both.zip").expect("a mixed archive stages");
    form.frequency.push(DictRow { name: "FixtureBoth".to_string(), enabled: true });

    form.stage_remove("FixtureBoth");

    assert!(!names(&form.terms).contains(&"FixtureBoth".to_string()));
    assert!(form.pitch.is_empty());
    assert!(form.frequency.is_empty());
}

#[test]
fn two_parts_sharing_a_title_can_both_be_staged() {
    let mut form = staged_form();
    let terms = Roles::only(&[Role::Terms]);
    let title = || Some("FixtureTerms".to_string());

    assert_eq!(Some(terms), form.stage_add(&path("part1.zip"), terms, title()));
    assert_eq!(
        Some(terms),
        form.stage_add(&path("part2.zip"), terms, title()),
        "a split edition shares its title",
    );

    assert_eq!(2, form.staged_adds.len());
}

#[test]
fn the_same_file_cannot_be_staged_twice() {
    let mut form = staged_form();
    assert_eq!(
        Some(Roles::only(&[Role::Terms])),
        stage(&mut form, "terms.zip"),
    );
    assert_eq!(None, stage(&mut form, "terms.zip"));
    assert_eq!(1, form.staged_adds.len());
}

#[test]
fn an_add_of_an_already_listed_name_is_rejected_not_duplicated() {
    let mut form = staged_form();
    assert_eq!(
        Some(Roles::only(&[Role::Terms])),
        stage(&mut form, "terms.zip"),
    );

    assert_eq!(None, stage(&mut form, "terms.zip"));

    assert_eq!(1, form.staged_adds.len());
    assert_eq!(1, names(&form.terms).iter().filter(|n| *n == "FixtureTerms").count());
}

/// Only the same source file blocks a duplicate stage.
#[test]
fn a_title_an_installed_dictionary_uses_does_not_block_the_add() {
    let mut form = staged_form();
    form.terms.push(DictRow { name: "FixtureTerms".into(), enabled: true });
    assert_eq!(
        Some(Roles::only(&[Role::Terms])),
        stage(&mut form, "terms.zip"),
    );
    assert_eq!(1, form.staged_adds.len());
}

#[test]
fn removing_the_same_row_twice_records_it_once() {
    let mut form = staged_form();
    let name = form.terms[0].name.clone();
    form.stage_remove(&name);
    form.stage_remove(&name);
    assert_eq!(vec![name], form.staged_removes);
}

#[test]
fn a_frequency_row_is_removable_by_the_same_call() {
    let mut form = staged_form();
    form.frequency = vec![DictRow { name: "jiten_freq_global.zip".into(), enabled: true }];
    form.stage_remove("jiten_freq_global.zip");
    assert!(form.frequency.is_empty());
    assert_eq!(vec!["jiten_freq_global.zip".to_string()], form.staged_removes);
}

#[test]
fn removing_a_freq_row_sets_freq_changed() {
    let mut form = staged_form();
    form.frequency = vec![DictRow { name: "FixtureFreq".into(), enabled: true }];
    form.stage_remove("FixtureFreq");
    assert!(form.freq_changed);
}

#[test]
fn removing_a_term_row_does_not_set_freq_changed() {
    let mut form = staged_form();
    let name = form.terms[0].name.clone();
    form.stage_remove(&name);
    assert!(!form.freq_changed);
}

#[test]
fn a_removed_dictionary_loses_its_place_in_every_array() {
    let cfg = cfg_with(&["大辞林　第四版", "Jitendex.org [2026-07-09]"]);
    let mut form = from_config(&cfg, &dicts());
    form.stage_remove("大辞林　第四版");
    assert_eq!(
        vec!["Jitendex.org [2026-07-09]".to_string()],
        apply_to(&form, &cfg).dictionaries.terms,
    );
}

/// The Dictionary title controls order. The source file name does not.
#[test]
fn a_staged_add_is_ordered_by_its_title_not_its_filename() {
    let cfg = cfg_with(&["大辞林　第四版", "Jitendex.org [2026-07-09]"]);
    let mut form = from_config(&cfg, &dicts());
    assert_eq!(
        Some(Roles::only(&[Role::Terms])),
        stage(&mut form, "terms.zip"),
    );
    let out = apply_to(&form, &cfg);
    assert!(
        !out.dictionaries.terms.iter().any(|e| e.contains(".zip")),
        "a filename must never reach a Dictionary list",
    );
    assert_eq!(
        vec![
            "大辞林　第四版".to_string(),
            "Jitendex.org [2026-07-09]".to_string(),
            "FixtureTerms".to_string()
        ],
        out.dictionaries.terms,
    );
}

fn library() -> Library {
    Library {
        entries: vec![
            Entry {
                file: "jitendex.zip".into(),
                name: "Jitendex.org [2026-07-09]".into(),
                roles: Roles::only(&[Role::Terms]),
            },
            Entry {
                file: "daijirin.zip".into(),
                name: "大辞林　第四版".into(),
                roles: Roles::only(&[Role::Terms]),
            },
            Entry {
                file: "freq.zip".into(),
                name: "jiten_freq_global".into(),
                roles: Roles::only(&[Role::Frequency]),
            },
        ],
    }
}

#[test]
fn the_frequency_list_comes_from_the_library_not_the_database() {
    let form = with_library(staged_form(), &library());
    assert_eq!(vec!["jiten_freq_global".to_string()], names(&form.frequency));
    assert!(!form.library_empty);
    assert_eq!(vec!["大辞林　第四版", "Jitendex.org [2026-07-09]"], names(&form.terms));
}

/// A mixed archive appears once in each role list that it provides.
/// It does not appear in the list for a role that it does not provide.
#[test]
fn a_mixed_archive_appears_in_both_its_lists_once_each() {
    let lib = Library {
        entries: vec![Entry {
            file: "mixed.zip".into(),
            name: "Mixed".into(),
            roles: Roles::only(&[Role::Terms, Role::Frequency]),
        }],
    };
    let form = with_library(from_config(&Config::default(), &[]), &lib);
    assert_eq!(vec!["Mixed".to_string()], names(&form.terms));
    assert_eq!(vec!["Mixed".to_string()], names(&form.frequency));
    assert!(form.pitch.is_empty());
}

/// The Library supplies the role set. A known name in a role that its
/// archive does not provide leaves that list. An unknown name keeps its
/// config position, so a disconnected drive keeps its name.
#[test]
fn the_library_corrects_a_role_and_leaves_a_name_it_does_not_know() {
    let mut cfg = Config::default();
    cfg.dictionaries.pitch = vec!["jiten_freq_global".to_string()];
    cfg.dictionaries.terms = vec!["On the USB stick".to_string()];
    let form = with_library(from_config(&cfg, &[]), &library());
    assert!(form.pitch.is_empty(), "the archive supplies no pitch: {:?}", form.pitch);
    assert_eq!(
        vec![
            "On the USB stick".to_string(),
            "Jitendex.org [2026-07-09]".to_string(),
            "大辞林　第四版".to_string()
        ],
        names(&form.terms),
    );
}

#[test]
fn an_empty_library_says_so() {
    assert!(with_library(staged_form(), &Library::default()).library_empty);
}

/// A staged removal resolves a Dictionary name to its source file.
#[test]
fn a_removed_row_resolves_to_the_file_that_produced_it() {
    let mut form = with_library(staged_form(), &library());
    form.stage_remove("大辞林　第四版");
    form.stage_remove("jiten_freq_global");
    assert_eq!(
        vec!["daijirin.zip".to_string(), "freq.zip".to_string()],
        removed_files(&form, &library())
    );
}

/// A name absent from the Library has no source file.
#[test]
fn a_row_the_library_never_held_names_no_file() {
    let mut form = staged_form();
    form.stage_remove("大辞林　第四版");
    assert!(removed_files(&form, &Library::default()).is_empty());
}

#[test]
fn removing_every_dictionary_would_leave_nothing_to_build_from() {
    let mut form = with_library(staged_form(), &library());
    assert_eq!(2, terms_left(&form, &library()));
    form.stage_remove("大辞林　第四版");
    assert_eq!(1, terms_left(&form, &library()));
    form.stage_remove("Jitendex.org [2026-07-09]");
    assert_eq!(0, terms_left(&form, &library()));
}

/// Frequency data alone cannot provide term archives.
#[test]
fn a_frequency_only_library_leaves_no_term_archives() {
    let mut form = with_library(staged_form(), &Library::default());
    form.terms.clear();
    assert_eq!(
        Some(Roles::only(&[Role::Frequency])),
        stage(&mut form, "freq.zip"),
    );
    assert_eq!(0, terms_left(&form, &Library::default()));
    assert_eq!(
        Some(Roles::only(&[Role::Terms])),
        stage(&mut form, "terms.zip"),
    );
    assert_eq!(1, terms_left(&form, &Library::default()));
}

/// An absent source path cannot stage an import.
#[test]
fn an_add_that_no_longer_exists_cannot_be_staged_at_all() {
    let mut form = with_library(staged_form(), &Library::default());
    form.terms.clear();
    let gone = vec!["C:".to_string(), "gone".to_string(), "jmdict.zip".to_string()];
    assert_eq!(None, form.stage_add(&gone, Roles::default(), None));
    assert_eq!(0, terms_left(&form, &Library::default()));
}

/// The stale row stays visible, so Apply writes it back. The drive can then
/// return without loss of its list position.
#[test]
fn a_stale_entry_survives_an_apply_that_never_saw_its_dictionary() {
    let cfg = cfg_with(&["Kenkyusha", "大辞林　第四版"]);
    assert_eq!(vec!["Kenkyusha".to_string()], stale_order_entries(&cfg, &dicts()));
    let out = apply_to(&from_config(&cfg, &dicts()), &cfg);
    assert!(out.dictionaries.terms.contains(&"Kenkyusha".to_string()));
    assert_eq!(vec!["Kenkyusha".to_string()], stale_order_entries(&out, &dicts()));
    assert!(
        !dicts().iter().any(|d| d.name == "Kenkyusha"),
        "and nothing installed answers to it, so it orders and enables nothing",
    );
}

// ---- library changes ----

/// What each fixture archive is titled and supplies.
fn fixture(name: &str) -> (&'static str, &'static str, Roles) {
    match name {
        "terms.zip" => ("terms", "FixtureTerms", Roles::only(&[Role::Terms])),
        "freq.zip" => ("freq", "FixtureFreq", Roles::only(&[Role::Frequency])),
        "both.zip" => ("terms and pitch", "FixtureBoth", Roles::only(&[Role::Terms, Role::Pitch])),
        "pitch.zip" => ("pitch", "FixturePitch", Roles::only(&[Role::Pitch])),
        other => panic!("no fixture {other}"),
    }
}

fn read(bytes: &str) -> (Option<&'static str>, Roles) {
    for name in ["terms.zip", "freq.zip", "both.zip", "pitch.zip"] {
        let (held, title, roles) = fixture(name);
        if held == bytes {
            return (Some(title), roles);
        }
    }
    (None, Roles::default())
}

fn path(name: &str) -> Vec<String> {
    vec!["tests".to_string(), "fixtures".to_string(), "yomitan".to_string(), name.to_string()]
}

fn stage(form: &mut SettingsForm, name: &str) -> Option<Roles> {
    let (_, title, roles) = fixture(name);
    form.stage_add(&path(name), roles, archive_title(Some(Some(title)), Some(name)))
}

fn staged_roles(form: &SettingsForm) -> Vec<Roles> {
    form.staged_adds.iter().map(|add| fixture(add.source.last().unwrap()).2).collect()
}

fn terms_left(form: &SettingsForm, lib: &Library) -> usize {
    terms_after_apply(form, lib, &staged_roles(form))
}

/// A library folder: what is in it, what is set aside, and its manifest.
#[derive(Default)]
struct Folder {
    present: BTreeMap<String, &'static str>,
    held: BTreeMap<String, &'static str>,
    manifest: Option<Library>,
}

impl Folder {
    fn files(&self) -> Vec<String> {
        let mut out: Vec<String> = self.present.keys().cloned().collect();
        if self.manifest.is_some() {
            out.push("library.json".to_string());
        }
        out.sort();
        out
    }

    fn archives(&self) -> Vec<String> {
        self.files().into_iter().filter(|n| n.ends_with(".zip")).collect()
    }

    fn load(&self) -> Library {
        let mut lib = self.manifest.clone().unwrap_or_default();
        let disk = self
            .present
            .iter()
            .map(|(name, bytes)| {
                let (title, roles) = read(bytes);
                DiskFile { name: name.clone(), title: title.map(str::to_string), roles }
            })
            .collect();
        lib.reconcile(&disk);
        let sizes = lib.entries.iter().map(|e| self.present[&e.file].len() as u64).collect();
        let hashes = lib.entries.iter().map(|e| Some(self.present[&e.file].to_string())).collect();
        lib.collapse_duplicates(&sizes, &hashes);
        lib
    }

    fn apply(&mut self, form: &SettingsForm) -> Result<Pending, String> {
        let mut lib = self.load();
        let gone = stage_into_library(form, &lib, &staged_roles(form))?;
        let mut pending = Pending::new(&lib);
        for add in &form.staged_adds {
            let source = add.source.last().unwrap();
            let (bytes, title, roles) = fixture(source);
            let file = lib.free_name(Some(source), |n: &str| self.present.contains_key(n)).unwrap();
            self.present.insert(file.clone(), bytes);
            let entry = lib.adopt(file, Some(title), roles);
            pending.added(entry.file);
        }
        for file in gone {
            lib.quarantine(&file);
            let bytes = self.present.remove(&file).unwrap();
            self.held.insert(file.clone(), bytes);
            pending.held(file);
        }
        self.manifest = Some(lib);
        Ok(pending)
    }

    fn commit(&mut self, pending: &Pending) {
        for file in pending.commit() {
            self.held.remove(file);
        }
    }

    fn rollback(&mut self, pending: &Pending) {
        let undo = pending.rollback();
        for file in undo.delete {
            self.present.remove(file);
        }
        for file in undo.restore {
            let bytes = self.held.remove(file).unwrap();
            self.present.insert(file.clone(), bytes);
        }
        self.manifest = Some(undo.manifest.clone());
    }
}

fn stocked() -> Folder {
    let mut dir = Folder::default();
    dir.present.insert("terms.zip".to_string(), fixture("terms.zip").0);
    dir.present.insert("freq.zip".to_string(), fixture("freq.zip").0);
    dir
}

fn form_for(dir: &mut Folder) -> SettingsForm {
    with_library(from_config(&Config::default(), &[]), &dir.load())
}

/// The staged copy gets a free file name, but the manifest treats it as the
/// same Dictionary.
///
/// `stocked` already holds `terms.zip`, so the test copies it to
/// `terms (2).zip`. The files have identical bytes. `Library::load` treats
/// both names as one Dictionary. The duplicate file remains where the copy
/// placed it.
#[test]
fn an_add_lands_a_copy_in_the_library_and_in_the_manifest() {
    let mut dir = stocked();
    let mut form = form_for(&mut dir);
    assert!(stage(&mut form, "terms.zip").is_some());

    let pending = dir.apply(&form).unwrap();
    dir.commit(&pending);

    assert_eq!(
        vec!["freq.zip", "library.json", "terms (2).zip", "terms.zip"],
        dir.files()
    );
    let lib = dir.load();
    assert_eq!(2, lib.entries.len(), "the copy is not a second dictionary");
    assert_eq!(
        vec!["freq.zip", "terms.zip"],
        lib.dict_paths(),
        "the byte-identical copy is not a second dictionary, and the frequency \
         archive is one in its own right",
    );
}

/// The archive moves to `.removed` before commit. It is deleted only after
/// commit.
#[test]
fn a_remove_deletes_the_archive_it_names_only_once_committed() {
    let mut dir = stocked();
    let mut form = form_for(&mut dir);
    assert!(stage(&mut form, "terms.zip").is_some());
    form.stage_remove("FixtureFreq");

    let pending = dir.apply(&form).unwrap();
    assert!(dir.held.contains_key("freq.zip"), "held, not deleted");
    dir.commit(&pending);

    assert_eq!(vec!["library.json", "terms (2).zip", "terms.zip"], dir.files());
    assert!(dir.load().freq_paths().is_empty());
}

/// Removal cancels a staged add with the same Dictionary title.
/// One title identifies one row.
#[test]
fn removing_a_row_that_is_a_staged_add_cancels_the_add() {
    let mut dir = stocked();
    let before = dir.files();
    let mut form = form_for(&mut dir);
    assert!(stage(&mut form, "terms.zip").is_some());

    form.stage_remove("FixtureTerms");

    assert!(!form.has_staged(), "add and remove cancel out");
    assert_eq!(before, dir.files(), "nothing was copied or deleted");
}

/// The function checks all term archives that would remain before it deletes anything.
#[test]
fn removing_every_dictionary_is_refused_and_changes_nothing() {
    let mut dir = stocked();
    let before = dir.files();
    let mut form = form_for(&mut dir);
    form.stage_remove("FixtureTerms");
    form.stage_remove("FixtureFreq");

    let refused = dir.apply(&form).unwrap_err();

    assert!(refused.contains("no dictionary"), "{refused}");
    assert_eq!(before, dir.files(), "nothing was deleted");
}

/// Frequency data alone is not a Dictionary for term lookup.
#[test]
fn a_frequency_only_library_is_refused_too() {
    let mut dir = stocked();
    let mut form = form_for(&mut dir);
    // The form now has only frequency data.
    form.stage_remove("FixtureTerms");

    assert!(dir.apply(&form).is_err());
    assert!(dir.files().contains(&"terms.zip".to_string()));
}

/// The archive banks determine the role, not the list where the user added it.
#[test]
fn a_frequency_archive_added_under_dictionaries_supplies_no_terms() {
    let mut dir = stocked();
    let before = dir.files();
    let mut form = form_for(&mut dir);
    form.stage_remove("FixtureTerms");
    form.frequency.clear();
    // The archive banks supply this role.
    assert_eq!(
        Some(Roles::only(&[Role::Frequency])),
        stage(&mut form, "freq.zip"),
    );
    assert!(!names(&form.terms).iter().any(|n| n.contains("Freq")));
    assert!(names(&form.frequency).contains(&"FixtureFreq".to_string()));

    assert_eq!(0, terms_left(&form, &dir.load()));
    let refused = dir.apply(&form).unwrap_err();

    assert!(refused.contains("no dictionary"), "{refused}");
    assert_eq!(before, dir.files());
}

/// An unreadable archive cannot provide a usable Dictionary.
#[test]
fn a_corrupt_archive_does_not_satisfy_the_guard() {
    let mut dir = stocked();
    dir.present.remove("freq.zip");
    dir.present.insert("broken.zip".to_string(), "not a zip at all");
    let before = dir.files();
    let mut form = form_for(&mut dir);
    assert!(
        names(&form.terms).contains(&"broken.zip".to_string()),
        "it must stay visible so it can be removed: {:?}",
        form.terms
    );
    form.stage_remove("FixtureTerms");

    let refused = dir.apply(&form).unwrap_err();

    assert!(refused.contains("no dictionary"), "{refused}");
    assert_eq!(before, dir.files(), "terms.zip survives");
}

#[test]
fn an_unreadable_row_reaches_no_dictionary_list() {
    let mut dir = stocked();
    dir.present.insert("broken.zip".to_string(), "not a zip at all");
    let cfg = cfg_with(&[]);
    let form = with_library(from_config(&cfg, &dicts()), &dir.load());

    let out = apply_to(&form, &cfg);

    for role in Role::EVERY {
        let (on, off) = out.dictionaries.lists(role);
        assert!(
            !on.iter().chain(off).any(|e| e.contains("broken")),
            "{role:?}: {on:?} {off:?}",
        );
    }
}

/// The user must be able to remove an unreadable file.
#[test]
fn removing_an_unreadable_row_quarantines_the_file_it_names() {
    let mut dir = stocked();
    dir.present.insert("broken.zip".to_string(), "not a zip at all");
    let mut form = form_for(&mut dir);
    form.stage_remove("broken.zip");

    let pending = dir.apply(&form).unwrap();
    dir.commit(&pending);

    assert_eq!(vec!["freq.zip", "library.json", "terms.zip"], dir.files());
}

/// A failed Apply must leave the Library unchanged.
#[test]
fn a_rolled_back_apply_leaves_the_library_exactly_as_it_was() {
    let mut dir = stocked();
    let before = dir.archives();
    let manifest = dir.load();
    let mut form = form_for(&mut dir);
    assert!(stage(&mut form, "terms.zip").is_some());
    form.stage_remove("FixtureFreq");

    let pending = dir.apply(&form).unwrap();
    dir.rollback(&pending);

    assert_eq!(before, dir.archives());
    assert!(dir.held.is_empty());
    assert_eq!(manifest.entries, dir.load().entries);
}

/// A retry must not import a second copy.
#[test]
fn retrying_a_failed_apply_never_imports_a_second_copy() {
    let mut dir = stocked();
    let mut form = form_for(&mut dir);
    assert!(stage(&mut form, "terms.zip").is_some());

    for _ in 0..3 {
        let pending = dir.apply(&form).unwrap();
        dir.rollback(&pending);
    }
    let pending = dir.apply(&form).unwrap();
    dir.commit(&pending);

    assert_eq!(
        vec!["freq.zip", "library.json", "terms (2).zip", "terms.zip"],
        dir.files()
    );
}

/// A form with no staged changes gives Apply no work.
#[test]
fn clearing_the_staged_list_leaves_nothing_for_apply_to_do() {
    let mut dir = stocked();
    let mut form = form_for(&mut dir);
    assert!(stage(&mut form, "terms.zip").is_some());
    form.stage_remove("FixtureFreq");
    assert!(form.has_staged());

    form.clear_staged();

    assert!(!form.has_staged());
    assert!(form.staged_adds.is_empty());
    assert!(form.staged_removes.is_empty());
}

#[test]
fn clear_staged_resets_freq_changed() {
    let mut form = staged_form();
    form.freq_changed = true;
    form.clear_staged();
    assert!(!form.freq_changed);
}

#[test]
fn the_frequency_list_a_window_opens_with_comes_from_the_library() {
    let mut dir = stocked();
    let form = form_for(&mut dir);
    assert_eq!(vec!["FixtureFreq".to_string()], names(&form.frequency));
    assert!(!form.library_empty);
    assert!(!form.has_staged());
}

#[test]
fn a_library_that_is_not_there_yet_reads_as_empty() {
    let mut dir = Folder::default();
    assert!(form_for(&mut dir).library_empty);
}
/// Apply lists a Library term even when the database has no row for it.
#[test]
fn a_library_term_with_no_database_row_is_still_listed() {
    let lib = Library {
        entries: vec![Entry {
            file: "dropped-in.zip".into(),
            name: "DroppedIn".into(),
            roles: Roles::only(&[Role::Terms]),
        }],
    };
    let form = with_library(from_config(&Config::default(), &[]), &lib);
    assert!(names(&form.terms).contains(&"DroppedIn".to_string()), "{form:?}");
}

// ---- incremental ----

fn strs(items: &[&str]) -> Vec<String> {
    items.iter().map(|s| (*s).to_string()).collect()
}

fn with_list(mut cfg: Config, lang: &str, list: &[&str]) -> Config {
    cfg.dictionaries.per_language.insert(lang.to_string(), strs(list));
    cfg
}

#[test]
fn a_removed_dictionary_loses_its_entry_in_every_array() {
    let mut cfg = cfg_with(&["大辞林　第四版", "Jitendex.org"]);
    cfg.dictionaries.frequency_disabled = strs(&["大辞林　第四版"]);
    cfg.dictionaries.pitch = strs(&["大辞林　第四版", "NHK"]);
    dictionary_removed(&mut cfg, "大辞林　第四版");
    assert_eq!(strs(&["Jitendex.org"]), cfg.dictionaries.terms);
    assert!(cfg.dictionaries.frequency_disabled.is_empty());
    assert_eq!(strs(&["NHK"]), cfg.dictionaries.pitch);
}

#[test]
fn a_removal_drops_the_name_from_every_language_list() {
    let mut cfg = with_list(
        with_list(
            cfg_with(&["大辞林　第四版", "Jitendex.org"]),
            "ja",
            &["大辞林　第四版", "Jitendex.org"],
        ),
        "zh-Hans-CN",
        &["大辞林　第四版", "中日大辞典"],
    );
    dictionary_removed(&mut cfg, "大辞林　第四版");
    assert_eq!(strs(&["Jitendex.org"]), *cfg.dictionaries.per_language.get("ja").unwrap());
    assert_eq!(strs(&["中日大辞典"]), *cfg.dictionaries.per_language.get("zh-Hans-CN").unwrap());
}

/// When the last name is removed, the empty language entry is removed.
#[test]
fn a_language_list_left_empty_loses_its_key() {
    let mut cfg =
        with_list(cfg_with(&["大辞林　第四版", "Jitendex.org"]), "ja", &["大辞林　第四版"]);
    dictionary_removed(&mut cfg, "大辞林　第四版");
    assert!(
        !cfg.dictionaries.per_language.contains_key("ja"),
        "an emptied entry must be removed, not written as []: {:?}",
        cfg.dictionaries.per_language
    );
}

/// An empty list still scopes the language, so dictionary_removed must delete its key.
#[test]
fn an_empty_list_left_behind_would_scope_the_language() {
    let mut cfg = with_list(cfg_with(&["Jitendex.org"]), "ja", &["大辞林　第四版"]);
    dictionary_removed(&mut cfg, "大辞林　第四版");
    assert!(!is_scoped(&from_config(&cfg, &[])), "the language must be unscoped again");

    let blanked = with_list(cfg_with(&["Jitendex.org"]), "ja", &[]);
    assert!(
        is_scoped(&from_config(&blanked, &[])),
        "[] keeps the language scoped and pins it at the next Apply",
    );
}

/// Exact names limit removal to the named edition. The other edition remains.
#[test]
fn a_removal_leaves_the_other_edition_of_a_shared_name_alone() {
    let mut cfg = cfg_with(&["大辞林　第三版", "大辞林　第四版"]);
    dictionary_removed(&mut cfg, "大辞林　第四版");
    assert_eq!(strs(&["大辞林　第三版"]), cfg.dictionaries.terms);
}

#[test]
fn a_removal_naming_no_entry_changes_nothing() {
    let before =
        with_list(cfg_with(&["大辞林　第四版", "Jitendex.org"]), "ja", &["大辞林　第四版"]);
    let mut cfg = before.clone();
    dictionary_removed(&mut cfg, "jiten_freq_global");
    assert_eq!(before, cfg);
}

#[test]
fn a_list_that_was_already_empty_is_removed_too() {
    let mut cfg = with_list(cfg_with(&["Jitendex.org"]), "zh-Hans-CN", &[]);
    dictionary_removed(&mut cfg, "大辞林　第四版");
    assert!(cfg.dictionaries.per_language.is_empty());
}

/// An added Dictionary goes to the bottom of every role list that its roles provide.
#[test]
fn an_added_dictionary_is_appended_to_each_of_its_role_lists() {
    let mut cfg = cfg_with(&["大辞林　第四版"]);
    dictionary_added(
        &mut cfg,
        "Jitendex.org [2026-07-09]",
        Roles::only(&[Role::Terms, Role::Frequency]),
    );
    assert_eq!(
        strs(&["大辞林　第四版", "Jitendex.org [2026-07-09]"]),
        cfg.dictionaries.terms,
    );
    assert_eq!(strs(&["Jitendex.org [2026-07-09]"]), cfg.dictionaries.frequency);
    assert!(cfg.dictionaries.pitch.is_empty(), "and no list it has no role for");
}

#[test]
fn an_added_dictionary_joins_a_language_that_has_a_list() {
    let mut cfg = with_list(cfg_with(&["大辞林　第四版"]), "ja", &["大辞林　第四版"]);
    dictionary_added(&mut cfg, "Jitendex.org [2026-07-09]", Roles::only(&[Role::Terms]));
    assert_eq!(
        strs(&["大辞林　第四版", "Jitendex.org [2026-07-09]"]),
        *cfg.dictionaries.per_language.get("ja").unwrap(),
    );
}

/// `per_language` lists Dictionaries for term lookup. An archive without the
/// Terms role does not belong in this list.
#[test]
fn an_added_frequency_dictionary_never_joins_a_language_list() {
    let mut cfg = with_list(cfg_with(&["大辞林　第四版"]), "ja", &["大辞林　第四版"]);
    dictionary_added(&mut cfg, "jiten_freq_global", Roles::only(&[Role::Frequency]));
    assert_eq!(strs(&["大辞林　第四版"]), *cfg.dictionaries.per_language.get("ja").unwrap());
}

/// Without a language entry, dictionary_added changes only the global lists.
#[test]
fn an_added_dictionary_never_creates_a_language_list() {
    let mut cfg = cfg_with(&["大辞林　第四版"]);
    dictionary_added(&mut cfg, "Jitendex.org [2026-07-09]", Roles::only(&[Role::Terms]));
    assert!(
        cfg.dictionaries.per_language.is_empty(),
        "creating an entry would pin the language: {:?}",
        cfg.dictionaries.per_language
    );
}

/// An empty language list remains empty after an added Dictionary.
#[test]
fn an_added_dictionary_never_fills_an_empty_language_list() {
    let mut cfg = with_list(cfg_with(&["大辞林　第四版"]), "ja", &[]);
    dictionary_added(&mut cfg, "Jitendex.org [2026-07-09]", Roles::only(&[Role::Terms]));
    assert!(
        cfg.dictionaries.per_language.get("ja").unwrap().is_empty(),
        "filling [] would scope ja to the new dictionary alone",
    );
}

#[test]
fn an_added_dictionary_leaves_the_other_languages_alone() {
    let mut cfg = with_list(
        with_list(cfg_with(&["大辞林　第四版"]), "ja", &["大辞林　第四版"]),
        "zh-Hans-CN",
        &["中日大辞典"],
    );
    dictionary_added(&mut cfg, "Jitendex.org [2026-07-09]", Roles::only(&[Role::Terms]));
    assert_eq!(strs(&["中日大辞典"]), *cfg.dictionaries.per_language.get("zh-Hans-CN").unwrap());
}

/// A prior name stays in place, whether its row is enabled or disabled.
#[test]
fn a_name_an_array_already_holds_is_not_added_twice() {
    let mut cfg = with_list(cfg_with(&["Jitendex.org"]), "ja", &["Jitendex.org"]);
    cfg.dictionaries.pitch_disabled = strs(&["Jitendex.org"]);
    dictionary_added(
        &mut cfg,
        "Jitendex.org",
        Roles::only(&[Role::Terms, Role::Pitch]),
    );
    assert_eq!(strs(&["Jitendex.org"]), cfg.dictionaries.terms);
    assert!(cfg.dictionaries.pitch.is_empty(), "an unchecked row stays unchecked");
    assert_eq!(strs(&["Jitendex.org"]), *cfg.dictionaries.per_language.get("ja").unwrap());
}

#[test]
fn a_dictionary_with_no_title_adds_no_entry() {
    let mut cfg = with_list(cfg_with(&["大辞林　第四版"]), "ja", &["大辞林　第四版"]);
    dictionary_added(&mut cfg, "", Roles::only(&[Role::Terms]));
    assert_eq!(strs(&["大辞林　第四版"]), cfg.dictionaries.terms);
    assert_eq!(strs(&["大辞林　第四版"]), *cfg.dictionaries.per_language.get("ja").unwrap());
}

/// The incremental removal and full Apply must produce the same result.
#[test]
fn an_incremental_removal_agrees_with_a_full_apply() {
    let cfg = cfg_with(&["大辞林　第四版", "Jitendex.org [2026-07-09]"]);
    let kept = vec![DictInfo { dict_id: 1, name: "Jitendex.org [2026-07-09]".into() }];
    let mut form = from_config(&cfg, &kept);
    form.stage_remove("大辞林　第四版");
    let full = apply_to(&form, &cfg);
    let mut incremental = cfg.clone();
    dictionary_removed(&mut incremental, "大辞林　第四版");
    assert_eq!(full.dictionaries, incremental.dictionaries);
}

// ---- what a change costs ----

/// Only frequency inputs affect `term.freq`, so only they need a Reindex.
/// None of them needs a rebuild.
#[test]
fn reordering_the_frequency_list_costs_a_reindex() {
    let before = Config::default();
    let mut after = before.clone();
    after.dictionaries.frequency = strs(&["B", "A"]);
    assert_eq!(DictionaryWork::Reindex, dictionary_work(&before, &after));
}

#[test]
fn toggling_a_frequency_checkbox_costs_a_reindex() {
    let mut before = Config::default();
    before.dictionaries.frequency = strs(&["A"]);
    let mut after = before.clone();
    after.dictionaries.frequency = Vec::new();
    after.dictionaries.frequency_disabled = strs(&["A"]);
    assert_eq!(DictionaryWork::Reindex, dictionary_work(&before, &after));
}

#[test]
fn selecting_a_ranking_strategy_costs_a_reindex() {
    let before = Config::default();
    let mut after = before.clone();
    after.dictionaries.ranking_strategy = RankingStrategy::Median;
    assert_eq!(DictionaryWork::Reindex, dictionary_work(&before, &after));
}

#[test]
fn reordering_or_toggling_terms_and_pitch_costs_nothing_extra() {
    let before = Config::default();
    let mut after = before.clone();
    after.dictionaries.terms = strs(&["B", "A"]);
    after.dictionaries.terms_disabled = strs(&["C"]);
    after.dictionaries.pitch = strs(&["NHK"]);
    after.dictionaries.pitch_disabled = strs(&["三省堂"]);
    after.popup.summary_chars = 55;
    assert_eq!(DictionaryWork::Reload, dictionary_work(&before, &after));
}

/// The incremental addition and full Apply must produce the same result.
#[test]
fn an_incremental_addition_agrees_with_a_full_apply() {
    let cfg = cfg_with(&["大辞林　第四版"]);
    let full = apply_to(&from_config(&cfg, &dicts()), &cfg);
    let mut incremental = cfg.clone();
    dictionary_added(
        &mut incremental,
        "Jitendex.org [2026-07-09]",
        Roles::only(&[Role::Terms]),
    );
    assert_eq!(full.dictionaries, incremental.dictionaries);
}

// ---- drift ----

const LIB_DIR: &str = r"C:\chibipop\library";
const DB_FILE: &str = r"C:\chibipop\data\chibipop.sqlite";

/// `build.rs` writes JSON with `json.dumps` spaces.
const BUILT_JSON: &str = r#"[{"name": "jitendex.zip", "bytes": 462, "sha256": "b1a8"}, {"name": "daijirin.zip", "bytes": 385, "sha256": "d49c"}, {"name": "freq.zip", "bytes": 12, "sha256": "0f0f"}]"#;

/// `edit.rs` writes the same records with sorted keys and compact JSON.
const EDITED_JSON: &str = r#"[{"bytes":462,"name":"jitendex.zip","sha256":"b1a8"},{"bytes":385,"name":"daijirin.zip","sha256":"d49c"},{"bytes":12,"name":"freq.zip","sha256":"0f0f"}]"#;

fn notice(sources: &str, lib: &Library) -> Option<String> {
    drift_notice(Some(sources), lib, LIB_DIR, DB_FILE)
}

fn entry(file: &str, roles: &[Role]) -> Entry {
    Entry {
        file: file.into(),
        name: file.into(),
        roles: Roles::only(roles),
    }
}

#[test]
fn a_library_that_matches_the_source_list_reports_no_drift() {
    assert_eq!(None, notice(EDITED_JSON, &library()));
}

/// Different spaces in JSON do not indicate archive drift.
#[test]
fn the_builders_own_json_reports_no_drift() {
    assert_ne!(BUILT_JSON, EDITED_JSON, "same bytes proves nothing");
    assert_eq!(None, notice(BUILT_JSON, &library()));
}

#[test]
fn a_source_list_in_another_order_reports_no_drift() {
    let shuffled = r#"[{"bytes":12,"name":"freq.zip","sha256":"0f0f"},{"bytes":385,"name":"daijirin.zip","sha256":"d49c"},{"bytes":462,"name":"jitendex.zip","sha256":"b1a8"}]"#;
    assert_eq!(None, notice(shuffled, &library()));
}

/// An archive present in the Library but absent from the source list creates drift.
#[test]
fn an_archive_the_database_never_built_from_is_drift() {
    let mut lib = library();
    lib.entries.push(entry("dropped-in.zip", &[Role::Terms]));
    let text = notice(EDITED_JSON, &lib).expect("a dropped-in archive is drift");
    assert!(text.contains("dropped-in.zip"), "{text}");
}

/// An archive present in the source list but absent from the Library creates drift.
#[test]
fn an_archive_the_library_no_longer_has_is_drift() {
    let mut lib = library();
    lib.entries.retain(|e| e.file != "daijirin.zip");
    let text = notice(EDITED_JSON, &lib).expect("a deleted archive is drift");
    assert!(text.contains("daijirin.zip"), "{text}");
}

#[test]
fn drift_names_each_side_in_its_own_list() {
    let mut lib = library();
    lib.entries.retain(|e| e.file != "daijirin.zip");
    lib.entries.push(entry("dropped-in.zip", &[Role::Terms]));
    let found = drift(Some(EDITED_JSON), &lib);
    assert_eq!(strs(&["dropped-in.zip"]), found.unbuilt);
    assert_eq!(strs(&["daijirin.zip"]), found.orphaned);
}

/// The build record excludes unreadable archives.
#[test]
fn an_unreadable_archive_is_not_drift() {
    let mut lib = library();
    lib.entries.push(entry("broken.zip", &[]));
    assert_eq!(None, notice(EDITED_JSON, &lib));
}

/// `write_meta` records a frequency archive like any other archive.
#[test]
fn a_frequency_archive_is_compared_like_any_other() {
    let partial = r#"[{"bytes":462,"name":"jitendex.zip","sha256":"b1a8"},{"bytes":385,"name":"daijirin.zip","sha256":"d49c"}]"#;
    let text = notice(partial, &library()).expect("freq.zip is in neither list");
    assert!(text.contains("freq.zip"), "{text}");
}

/// An absent source list does not report drift.
#[test]
fn a_database_with_no_source_list_reports_no_drift() {
    let none = drift_notice(None, &library(), LIB_DIR, DB_FILE);
    assert_eq!(None, none);
}

/// An unreadable source list does not report drift.
#[test]
fn a_source_list_that_will_not_parse_reports_no_drift() {
    assert_eq!(None, notice("not json at all", &library()));
}

/// A source record without a name does not report drift.
#[test]
fn a_source_record_with_no_name_is_ignored() {
    let odd = r#"[{"bytes":1},{"name":"jitendex.zip"},{"name":"daijirin.zip"},{"name":"freq.zip"}]"#;
    assert_eq!(None, notice(odd, &library()));
}

/// The notice includes the rebuild command with both supplied paths.
#[test]
fn the_notice_names_the_rebuild_command_with_real_paths() {
    let mut lib = library();
    lib.entries.retain(|e| e.file != "freq.zip");
    let text = notice(EDITED_JSON, &lib).unwrap();
    let command = "\r\nchibipop build-dict \
         --library \"C:\\chibipop\\library\" \
         --out \"C:\\chibipop\\data\\chibipop.sqlite\"";
    assert!(text.ends_with(command), "{text}");
}

/// A Library with no archive cannot offer a rebuild.
#[test]
fn a_library_with_no_archives_offers_no_rebuild() {
    assert_eq!(None, notice(EDITED_JSON, &Library::default()));
}

/// A Library with only frequency archives cannot offer a term rebuild.
#[test]
fn a_library_with_no_term_archive_offers_no_rebuild() {
    let lib = Library { entries: vec![entry("freq.zip", &[Role::Frequency])] };
    assert_eq!(None, notice(EDITED_JSON, &lib));
}

/// Drift still appears when no term archive can support a rebuild.
#[test]
fn drift_is_still_seen_when_no_rebuild_is_offered() {
    let found = drift(Some(EDITED_JSON), &Library::default());
    assert_eq!(strs(&["jitendex.zip", "daijirin.zip", "freq.zip"]), found.orphaned);
}

/// The notice lists only the side that differs.
#[test]
fn the_notice_omits_the_side_that_agrees() {
    let mut lib = library();
    lib.entries.retain(|e| e.file != "freq.zip");
    let text = notice(EDITED_JSON, &lib).unwrap();
    assert!(text.contains("no longer in your library: freq.zip"), "{text}");
    assert!(!text.contains("not in the database"), "{text}");
}

#[test]
fn one_list_is_reordered_and_the_others_stay() {
    let cfg = cfg_with(&["Jitendex.org [2026-07-09]", "大辞林　第四版"]);
    let mut form = from_config(&cfg, &dicts());
    let pitch = names(form.list(Role::Pitch));
    form.list_mut(Role::Terms).swap(0, 1);
    assert_eq!(
        vec!["大辞林　第四版", "Jitendex.org [2026-07-09]"],
        names(form.list(Role::Terms))
    );
    assert_eq!(pitch, names(form.list(Role::Pitch)));
}

/// The count reads the staged changes and no list of the form.
#[test]
fn the_count_of_term_archives_reads_no_row() {
    let mut form = with_library(staged_form(), &library());
    form.stage_remove("大辞林　第四版");
    let before = terms_left(&form, &library());
    form.terms.clear();
    form.frequency.clear();
    assert_eq!(1, before);
    assert_eq!(before, terms_left(&form, &library()));
    assert!(stage_into_library(&form, &library(), &staged_roles(&form)).is_ok());
    form.stage_remove("Jitendex.org [2026-07-09]");
    assert_eq!(
        Err("that would leave chibipop with no dictionary".to_string()),
        stage_into_library(&form, &library(), &staged_roles(&form)),
    );
}
