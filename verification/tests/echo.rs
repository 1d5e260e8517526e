//! The fixture plugin.
use chibipop::plugin::echo::{act, answer, Action};
use chibipop::plugin::host::{Call, Heard, Next};

fn call(id: u64) -> Call {
    Call { id, deadline_ns: 1_000_000_000 }
}

fn written(action: Action) -> String {
    match action {
        Action::Write(line) => line,
        other => panic!("{other:?}"),
    }
}

#[test]
fn a_hello_is_answered_in_every_mode() {
    for mode in ["", "crash", "hang", "garbage"] {
        let line = written(answer(r#"{"id": 7, "method": "hello", "params": {}}"#, mode));
        let v: serde_json::Value = serde_json::from_str(&line).unwrap();
        assert_eq!(v["id"].as_u64(), Some(7));
        assert_eq!(v["result"]["name"].as_str(), Some("echo"));
        assert_eq!(v["result"]["protocol"].as_u64(), Some(1));
        assert_eq!(v["result"]["roles"][0].as_str(), Some("text-provider"));
        assert_eq!(v["result"]["capabilities"]["geometry"].as_bool(), Some(true));
        assert_eq!(v.to_string(), line, "the line is compact");
    }
}

#[test]
fn each_mode_fails_in_its_own_way() {
    assert_eq!(act(1, "text/recognise", "crash"), Action::Exit(3));
    assert_eq!(act(1, "text/recognise", "hang"), Action::Hang);
    assert_eq!(act(1, "text/recognise", "garbage"), Action::Write("not json at all".to_string()));
    assert_eq!(answer("not json", ""), Action::Skip);
}

#[test]
fn a_reading_reaches_the_call_that_asked() {
    let line = written(answer(r#"{"id":9,"method":"text/recognise"}"#, ""));
    match call(9).hear(Heard::Line(line.clone())) {
        Next::Answer(json) => assert_eq!(
            json,
            r#"{"lines":[{"text":"宿舎","words":[{"rect":{"h":60,"w":112,"x":0,"y":0},"text":"宿舎"}]}]}"#
        ),
        other => panic!("{other:?}"),
    }
    assert_eq!(call(8).hear(Heard::Line(line)), Next::Wait);
}

#[test]
fn an_unknown_method_is_reported() {
    let line = written(answer(r#"{"method": 5}"#, ""));
    assert_eq!(line, r#"{"error":"unknown method","id":0}"#);
    match call(0).hear(Heard::Line(line)) {
        Next::Fail(e) => assert_eq!(e.message(), "plugin reported: \"unknown method\""),
        other => panic!("{other:?}"),
    }
}
