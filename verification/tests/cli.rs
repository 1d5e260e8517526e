//! What the command line asks for, and what a terminal is told.
use chibipop::cli::{
    centred, parse_at, parse_pair, parse_region, print_hits, region_about, scan_rects, unresolved,
    PairError, Watch,
};
use chibipop::geom::{PhysPoint, PhysRect, ScanKind, ScanRect};
use chibipop::lookup::model::{Entry, Hit};

fn at(x: i32, y: i32) -> PhysPoint {
    PhysPoint { x, y }
}

fn rect(x: i32, y: i32, w: i32, h: i32) -> PhysRect {
    PhysRect { x, y, w, h }
}

fn scan(rect: PhysRect, kind: ScanKind) -> ScanRect {
    ScanRect { rect, kind }
}

#[test]
fn a_pair_is_two_numbers_parted_by_the_first_comma() {
    assert_eq!(parse_pair("1200,400"), Ok((1200, 400)));
    assert_eq!(parse_pair(" -5 ,\t+7 "), Ok((-5, 7)));
    assert_eq!(parse_pair("-2147483648,2147483647"), Ok((i32::MIN, i32::MAX)));
    assert_eq!(parse_pair("1200"), Err(PairError::NoComma));
    assert_eq!(parse_pair(""), Err(PairError::NoComma));
    assert_eq!(parse_pair(",1"), Err(PairError::First));
    assert_eq!(parse_pair("x,y"), Err(PairError::First));
    assert_eq!(parse_pair("1,"), Err(PairError::Second));
    assert_eq!(parse_pair("1,2,3"), Err(PairError::Second));
    assert_eq!(parse_pair("1,2147483648"), Err(PairError::Second));
}

#[test]
fn a_wrong_point_is_named() {
    assert_eq!(parse_at("3,4"), Ok(at(3, 4)));
    assert_eq!(parse_at("3"), Err("--at must be X,Y (e.g. --at 1200,400)".to_string()));
    assert_eq!(parse_at("a,4"), Err("X in --at is not an integer".to_string()));
    assert_eq!(parse_at("3,b"), Err("Y in --at is not an integer".to_string()));
}

#[test]
fn a_wrong_size_is_named() {
    assert_eq!(parse_region("900,300"), Ok((900, 300)));
    assert_eq!(parse_region("900"), Err("--region must be W,H (e.g. --region 900,300)".to_string()));
    assert_eq!(parse_region("a,3"), Err("W in --region is not an integer".to_string()));
    assert_eq!(parse_region("9,b"), Err("H in --region is not an integer".to_string()));
}

#[test]
fn a_region_is_centred_on_the_point() {
    assert_eq!(centred(at(1000, 500), 900, 300), rect(550, 350, 900, 300));
    assert_eq!(region_about(at(10, 10), 5, -5), Some(rect(8, 12, 5, -5)));
    assert_eq!(region_about(at(i32::MIN, 0), 2, 2), None);
    assert_eq!(region_about(at(i32::MIN, 0), 1, 1), Some(rect(i32::MIN, 0, 1, 1)));
}

#[test]
fn the_two_ways_to_find_nothing_are_told_apart() {
    assert!(unresolved(true).ends_with("OCR recognised no lines in the region"));
    assert!(unresolved(false).ends_with("close enough to the cursor"));
}

#[test]
fn the_match_is_drawn_last() {
    let region = rect(0, 0, 90, 30);
    let anchor = rect(5, 5, 10, 10);
    let highlight = rect(4, 4, 12, 12);
    assert_eq!(
        scan_rects(None, region, Some(anchor), Some(highlight)),
        vec![
            scan(region, ScanKind::Pass1),
            scan(anchor, ScanKind::Anchor),
            scan(highlight, ScanKind::Match),
        ]
    );
    assert_eq!(scan_rects(None, region, None, None), vec![scan(region, ScanKind::Pass1)]);
    assert_eq!(scan_rects(Some(Vec::new()), region, Some(anchor), None), Vec::new());
}

#[test]
fn a_resting_pointer_asks_for_nothing() {
    let mut watch = Watch::new();
    assert!(watch.moved(at(100, 100)));
    assert!(!watch.moved(at(104, 96)));
    assert!(watch.moved(at(105, 100)), "five pixels from the last accepted point");
    assert_eq!(watch.last_pos, Some(at(105, 100)));
}

#[test]
fn a_word_is_printed_when_it_changes() {
    let mut watch = Watch::new();
    assert!(watch.changed(rect(1, 2, 3, 4), Some('猫')));
    assert!(!watch.changed(rect(1, 2, 30, 40), Some('猫')), "the size is not compared");
    assert!(watch.changed(rect(1, 2, 3, 4), Some('犬')));
    assert!(watch.changed(rect(1, 3, 3, 4), Some('犬')));
    assert!(watch.changed(rect(1, 3, 3, 4), None));
}

fn hit(written: Option<&str>, freq: Option<i64>, process: &[&str]) -> Hit {
    Hit {
        written: written.map(str::to_string),
        reading: Some("たべる".to_string()),
        match_len: 4,
        freq,
        score: 0,
        process: process.iter().map(|p| p.to_string()).collect(),
        entry: Entry::parse(1, 1, r#"["to eat", "to live on"]"#),
    }
}

#[test]
fn a_hit_is_told_in_its_place() {
    let hits =
        vec![hit(Some("食べる"), Some(-7), &["polite", "past"]), hit(None, None, &[])];
    let scores = vec!["12.50".to_string(), "0.25".to_string()];
    assert_eq!(
        print_hits(&hits, &scores),
        vec![
            "1. 食べる [たべる]  freq=-7  match=4  score=12.50",
            "     via: polite -> past",
            "     to eat; to live on",
            "2. たべる [たべる]  freq=-  match=4  score=0.25",
            "     to eat; to live on",
        ]
    );
    assert_eq!(print_hits(&[], &Vec::new()), vec!["no results"]);
}
