//! A fixture plugin for tests.
use crate::chars::{chars_of, decimal, decimal_of, push_chars, same_str, string_of};
use crate::json::{find_field, find_string, is_json, json_string, json_valid, read_fields, read_number};
use crate::plugin::host::{line_field, line_id};
use vstd::prelude::*;

verus! {

/// What the fixture does with a request.
#[derive(Debug, PartialEq, Eq)]
pub enum Action {
    /// It passes over a line that is no JSON.
    Skip,
    /// It writes a line.
    Write(String),
    /// It ends with a code.
    Exit(i32),
    /// It never answers.
    Hang,
}

/// What the fixture says of itself.
pub const HELLO: &'static str =
    "\"result\":{\"capabilities\":{\"geometry\":true,\"languages\":[\"ja\"]},\"features\":[],\"name\":\"echo\",\"protocol\":1,\"roles\":[\"text-provider\"],\"version\":\"0.1.0\"}}";

/// What the fixture always reads.
pub const LINES: &'static str =
    "\"result\":{\"lines\":[{\"text\":\"宿舎\",\"words\":[{\"rect\":{\"h\":60,\"w\":112,\"x\":0,\"y\":0},\"text\":\"宿舎\"}]}]}}";

/// The line that answers anything else.
pub open spec fn unknown_line(id: u64) -> Seq<char> {
    "{\"error\":\"unknown method\",\"id\":"@ + decimal(id as nat) + "}"@
}

/// The line of a reply.
pub open spec fn reply_line(id: u64, body: Seq<char>) -> Seq<char> {
    "{\"id\":"@ + decimal(id as nat) + ","@ + body
}

/// Is this what the fixture does with a request, in a mode?
pub open spec fn acts(id: u64, method: Seq<char>, mode: Seq<char>, a: Action) -> bool {
    if method == "hello"@ {
        a matches Action::Write(s) && s@ == reply_line(id, HELLO@)
    } else if mode == "crash"@ {
        a == Action::Exit(3)
    } else if mode == "hang"@ {
        a == Action::Hang
    } else if mode == "garbage"@ {
        a matches Action::Write(s) && s@ == "not json at all"@
    } else if method == "text/recognise"@ {
        a matches Action::Write(s) && s@ == reply_line(id, LINES@)
    } else {
        a matches Action::Write(s) && s@ == unknown_line(id)
    }
}

fn reply(id: u64, body: &str) -> (r: Action)
    ensures
        r matches Action::Write(s) && s@ == reply_line(id, body@),
{
    let mut out = chars_of("{\"id\":");
    push_chars(&mut out, decimal_of(id).as_slice());
    push_chars(&mut out, chars_of(",").as_slice());
    push_chars(&mut out, chars_of(body).as_slice());
    Action::Write(string_of(out.as_slice()))
}

/// What the fixture does with a request, in a mode.
pub fn act(id: u64, method: &str, mode: &str) -> (r: Action)
    ensures
        acts(id, method@, mode@, r),
{
    if same_str(method, "hello") {
        return reply(id, HELLO);
    }
    if same_str(mode, "crash") {
        return Action::Exit(3);
    }
    if same_str(mode, "hang") {
        return Action::Hang;
    }
    if same_str(mode, "garbage") {
        return Action::Write("not json at all".to_owned());
    }
    if same_str(method, "text/recognise") {
        return reply(id, LINES);
    }
    let mut out = chars_of("{\"error\":\"unknown method\",\"id\":");
    push_chars(&mut out, decimal_of(id).as_slice());
    push_chars(&mut out, chars_of("}").as_slice());
    Action::Write(string_of(out.as_slice()))
}

/// The id of a request, or 0.
pub open spec fn asked_id(line: Seq<char>) -> u64 {
    match line_id(line) {
        Some(id) => id,
        None => 0,
    }
}

/// The method of a request, or none.
pub open spec fn asked_method(line: Seq<char>) -> Seq<char> {
    match line_field(line, "method"@) {
        Some(t) => match json_string(t) {
            Some(m) => m,
            None => seq![],
        },
        None => seq![],
    }
}

/// What the fixture does with a line.
pub fn answer(line: &str, mode: &str) -> (r: Action)
    ensures
        if json_valid(line@) {
            acts(asked_id(line@), asked_method(line@), mode@, r)
        } else {
            r == Action::Skip
        },
{
    if !is_json(line) {
        return Action::Skip;
    }
    let none = String::new();
    assert(none@ =~= seq![]);
    match read_fields(line) {
        Some(fields) => {
            let id: u64 = match find_field(&fields, "id") {
                Some(t) => match read_number(t.as_str()) {
                    Some(id) => id,
                    None => 0,
                },
                None => 0,
            };
            let method = match find_string(&fields, "method") {
                Some(m) => m,
                None => none,
            };
            act(id, method.as_str(), mode)
        },
        None => act(0, none.as_str(), mode),
    }
}

} // verus!
