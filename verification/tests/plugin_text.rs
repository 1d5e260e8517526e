//! Plugin text becomes a span.
use chibipop::geom::{PhysPoint, PhysRect};
use chibipop::plugin::text::{
    estimate_offset, span_from_lines, Line, PluginText, RecogniseResult, Rect, TextProvider, Word,
};

fn region() -> PhysRect {
    PhysRect { x: 100, y: 200, w: 500, h: 100 }
}

#[test]
fn the_estimate_lands_on_the_first_char_at_the_left_edge() {
    assert_eq!(estimate_offset("宿舎に戻る", 100, region()), 0);
}

#[test]
fn the_estimate_lands_on_the_last_char_at_the_right_edge() {
    let line = "宿舎に戻る";
    let off = estimate_offset(line, 599, region());
    assert_eq!(&line[off..], "る");
}

#[test]
fn the_estimate_clamps_left_of_the_region() {
    assert_eq!(estimate_offset("宿舎に戻る", -50, region()), 0);
}

#[test]
fn the_estimate_always_returns_a_char_boundary() {
    let line = "宿舎に戻る";
    for x in 0..700 {
        let off = estimate_offset(line, x, region());
        assert!(line.is_char_boundary(off), "x={x} off={off}");
    }
}

#[test]
fn an_empty_line_estimates_zero() {
    assert_eq!(estimate_offset("", 300, region()), 0);
}

#[test]
fn geometry_maps_image_pixels_back_to_the_screen() {
    let r = RecogniseResult {
        lines: vec![Line {
            text: "宿舎に".into(),
            words: Some(vec![Word {
                text: "宿舎".into(),
                rect: Rect { x: 0, y: 0, w: 112, h: 60 },
            }]),
        }],
    };
    let span =
        span_from_lines(&r, PhysPoint { x: 110, y: 210 }, region(), 2).unwrap();
    assert_eq!(span.geom[0].rect, PhysRect { x: 100, y: 200, w: 56, h: 30 });
    assert_eq!(span.geom[0].char_count, 2);
    assert_eq!(span.anchor, span.geom[0].rect);
}

#[test]
fn a_text_only_line_yields_empty_geometry() {
    let r = RecogniseResult {
        lines: vec![Line { text: "宿舎に戻る".into(), words: None }],
    };
    let span =
        span_from_lines(&r, PhysPoint { x: 350, y: 210 }, region(), 2).unwrap();
    assert!(span.geom.is_empty());
    assert_eq!(span.anchor, region());
}

#[test]
fn a_result_without_lines_gives_no_span() {
    let none = RecogniseResult { lines: Vec::new() };
    assert!(span_from_lines(&none, PhysPoint { x: 0, y: 0 }, region(), 1).is_none());
}

#[test]
fn a_region_without_width_estimates_zero() {
    let flat = PhysRect { x: 0, y: 0, w: 0, h: 10 };
    assert_eq!(estimate_offset("宿舎", 5, flat), 0);
}

fn plugin() -> PluginText {
    let provider = TextProvider {
        provides_geometry: true,
        languages: vec!["ja".to_string(), "en".to_string()],
        timeout_ms: 800,
    };
    PluginText::new("meikiocr", &provider)
}

#[test]
fn a_plugin_reads_its_first_language() {
    let text = plugin();
    assert_eq!((text.name.as_str(), text.language.as_str()), ("meikiocr", "ja"));
    assert_eq!((text.geometry, text.timeout_ms), (true, 800));
    let bare =
        TextProvider { provides_geometry: false, languages: Vec::new(), timeout_ms: 1 };
    assert_eq!(PluginText::new("bare", &bare).language, "");
}

#[test]
fn three_failures_in_a_row_switch_a_plugin_off() {
    let mut text = plugin();
    for read in [false, false, true, false, false] {
        text.record(read);
        assert!(!text.disabled(), "one success takes the strikes back");
    }
    text.record(false);
    assert!(text.disabled());
    text.record(true);
    assert!(text.disabled(), "off until the next start");
}

#[test]
fn a_pointer_further_right_never_gives_an_earlier_byte() {
    for line in ["宿舎に戻る", "a宿b", "x"] {
        let mut last = 0;
        for x in 0..700 {
            let off = estimate_offset(line, x, region());
            assert!(last <= off && off < line.len(), "x={x} off={off}");
            last = off;
        }
        let end = line.char_indices().last().unwrap().0;
        for x in [599, 600, 10_000] {
            assert_eq!(end, estimate_offset(line, x, region()), "x={x}");
        }
    }
}

#[test]
fn a_pointer_in_the_middle_is_at_the_middle_character() {
    assert_eq!(6, estimate_offset("宿舎に戻る", 350, region()));
    assert_eq!(3, estimate_offset("宿舎に戻る", 200, region()));
    assert_eq!(0, estimate_offset("宿舎に戻る", 199, region()));
}
