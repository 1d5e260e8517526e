//! Talking to a plugin.
use chibipop::plugin::host::{
    engine_log_lines, judge, push_log_line, Call, CallError, Heard, Host, Next, Outbox, Taken, LOG_CAP,
};
use std::collections::VecDeque;

/// What a writer that waits until it may go on would get.
fn take(outbox: &mut Outbox) -> Option<Vec<u8>> {
    match outbox.take() {
        Taken::Message(bytes) => Some(bytes),
        Taken::Closed => None,
        Taken::Wait => panic!("nothing was put in"),
    }
}

#[test]
fn a_second_request_replaces_the_first_rather_than_queueing_behind_it() {
    let mut outbox = Outbox::default();
    assert!(outbox.put(b"one".to_vec()));
    assert!(outbox.put(b"two".to_vec()));
    assert_eq!(take(&mut outbox), Some(b"two".to_vec()));
    outbox.close();
    assert_eq!(take(&mut outbox), None);
}

/// The deaf-plugin leak.
#[test]
fn an_abandoned_request_is_dropped_rather_than_left_queued() {
    let mut outbox = Outbox::default();
    assert!(outbox.put(vec![0u8; 256 * 1024]));
    outbox.clear();
    outbox.close();
    // A dump would be 256 KiB.
    assert!(take(&mut outbox).is_none());
}

#[test]
fn a_closed_outbox_refuses_a_request_instead_of_swallowing_it() {
    let mut outbox = Outbox::default();
    outbox.close();
    assert!(!outbox.put(b"one".to_vec()));
    assert_eq!(take(&mut outbox), None);
}

/// Or the writer thread leaks.
#[test]
fn a_waiting_writer_wakes_when_the_outbox_closes() {
    let mut outbox = Outbox::default();
    assert_eq!(outbox.take(), Taken::Wait);
    outbox.close();
    assert_eq!(take(&mut outbox), None);
}

#[test]
fn the_log_ring_keeps_only_the_newest_lines_once_full() {
    let mut buf = VecDeque::new();
    for i in 0..LOG_CAP + 5 {
        push_log_line(&mut buf, i.to_string());
    }
    let got: Vec<String> = buf.iter().cloned().collect();
    assert_eq!(got.len(), LOG_CAP);
    assert_eq!(got.first(), Some(&"5".to_string()));
    assert_eq!(got.last(), Some(&(LOG_CAP + 4).to_string()));
}

fn heard(line: &str) -> Next {
    let call = Call { id: 3, deadline_ns: 2_500_000_000 };
    call.hear(Heard::Line(line.to_string()))
}

fn failed(next: Next) -> String {
    match next {
        Next::Fail(e) => e.message(),
        other => panic!("{other:?}"),
    }
}

#[test]
fn only_an_answer_with_the_same_id_ends_a_call() {
    assert_eq!(heard(r#"{"id": 2, "result": 1}"#), Next::Wait);
    assert_eq!(heard(r#"{"id": "3", "result": 1}"#), Next::Wait, "a string is no id");
    assert_eq!(heard(r#"{"result": 1}"#), Next::Wait);
    assert_eq!(heard("[1, 2]"), Next::Wait, "JSON, but not an object");
    assert_eq!(
        heard(r#"{"id": 3, "result": {"b": 1, "a": [2, "x"]}}"#),
        Next::Answer(r#"{"a":[2,"x"],"b":1}"#.to_string())
    );
    assert_eq!(heard(r#"{"id": 3, "result": null}"#), Next::Answer("null".to_string()));
}

#[test]
fn every_failure_of_a_call_says_why() {
    let call = Call { id: 3, deadline_ns: 2_500_000_000 };
    assert_eq!(failed(heard("{")), "plugin sent malformed JSON");
    assert_eq!(failed(heard(r#"{"id": 3}"#)), "plugin sent no result");
    assert_eq!(
        failed(heard(r#"{"id": 3, "error": {"code": 4}, "result": 1}"#)),
        r#"plugin reported: {"code":4}"#
    );
    assert_eq!(failed(call.hear(Heard::Unreadable)), "reading from the plugin");
    assert_eq!(
        failed(call.hear(Heard::Disconnected)),
        "plugin closed its output, or it exited"
    );
    assert_eq!(failed(call.hear(Heard::TimedOut)), "plugin missed its 2500 ms deadline");
    assert_eq!(CallError::InputClosed.message(), "the plugin's input is closed");
}

#[test]
fn what_a_line_held_is_judged_without_the_line() {
    let (why, got) = ("\"no\"".to_string(), "1".to_string());
    assert_eq!(judge(3, false, Some(3), None, Some(&got)), Next::Fail(CallError::Malformed));
    assert_eq!(judge(3, true, None, None, Some(&got)), Next::Wait);
    assert_eq!(judge(3, true, Some(4), Some(&why), None), Next::Wait);
    assert_eq!(
        judge(3, true, Some(3), Some(&why), Some(&got)),
        Next::Fail(CallError::Reported(why.clone()))
    );
    assert_eq!(judge(3, true, Some(3), None, Some(&got)), Next::Answer(got.clone()));
    assert_eq!(judge(3, true, Some(3), None, None), Next::Fail(CallError::NoResult));
}

#[test]
fn a_call_has_one_budget() {
    let call = Call { id: 1, deadline_ns: 5_000_000 };
    assert_eq!(call.left(0), Ok(5_000_000));
    assert_eq!(call.left(4_999_999), Ok(1));
    assert_eq!(call.left(5_000_000), Err(CallError::Deadline(5)));
    assert_eq!(call.left(u64::MAX), Err(CallError::Deadline(5)));
}

#[test]
fn a_failed_call_leaves_no_request_behind() {
    let mut host = Host::new();
    let first = host.next_call(1);
    assert!(host.send(b"one".to_vec()).is_ok());
    host.finish(true);
    assert_eq!(host.outbox.take(), Taken::Wait);
    let second = host.next_call(1);
    assert_eq!((first.id, second.id), (1, 2));
    assert!(host.send(b"two".to_vec()).is_ok());
    host.finish(false);
    assert_eq!(host.outbox.take(), Taken::Message(b"two".to_vec()));
    host.shutdown();
    assert_eq!(host.outbox.take(), Taken::Closed);
    assert_eq!(host.send(b"three".to_vec()), Err(CallError::InputClosed));
    assert_eq!(host.outbox.take(), Taken::Closed);
}

#[test]
fn a_log_reads_oldest_first() {
    assert!(engine_log_lines(None).is_empty());
    let mut log = VecDeque::new();
    for n in 0..LOG_CAP + 2 {
        push_log_line(&mut log, n.to_string());
    }
    let lines = engine_log_lines(Some(&log));
    assert_eq!(lines.len(), LOG_CAP);
    assert_eq!((lines[0].as_str(), lines[LOG_CAP - 1].as_str()), ("2", "51"));
}
