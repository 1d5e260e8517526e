//! Talking to one plugin process.
//!
//! The process, its pipes and the clock are elsewhere: what they bring comes in
//! as plain values, and what to do next goes out.
use crate::chars::{chars_of, decimal, decimal_of, push_chars, string_of};
use crate::json::{
    field, find_field, is_json, json_fields, json_number, json_valid, read_fields, read_number,
};
use std::collections::VecDeque;
use vstd::prelude::*;

verus! {

/// Ring buffer capacity.
pub const LOG_CAP: usize = 50;

/// A log with one more line. The oldest goes once it is full.
pub open spec fn logged<T>(log: Seq<T>, line: T) -> Seq<T> {
    if log.len() >= LOG_CAP {
        log.drop_first().push(line)
    } else {
        log.push(line)
    }
}

/// A log with some more lines.
pub open spec fn logged_all<T>(log: Seq<T>, lines: Seq<T>) -> Seq<T>
    decreases lines.len(),
{
    if lines.len() == 0 {
        log
    } else {
        logged(logged_all(log, lines.drop_last()), lines.last())
    }
}

/// Evicts the oldest once full.
pub fn push_log_line(log: &mut VecDeque<String>, line: String)
    ensures
        final(log)@ == logged(old(log)@, line),
{
    if log.len() >= LOG_CAP {
        let _oldest = log.pop_front();
        assert(log@ =~= old(log)@.drop_first());
    }
    log.push_back(line);
}

/// The lines of a log, the oldest first. A log that was never begun has none.
pub fn engine_log_lines(log: Option<&VecDeque<String>>) -> (r: Vec<String>)
    ensures
        r@ == (match log {
            Some(lines) => lines@,
            None => seq![],
        }),
{
    let mut out: Vec<String> = Vec::new();
    if let Some(lines) = log {
        let mut i: usize = 0;
        while i < lines.len()
            invariant
                i <= lines@.len(),
                out@ == lines@.take(i as int),
            decreases lines@.len() - i,
        {
            out.push(lines[i].clone());
            assert(lines@.take(i + 1) =~= lines@.take(i as int).push(lines@[i as int]));
            i += 1;
        }
        assert(lines@.take(i as int) =~= lines@);
    }
    out
}

/// A log holds the newest lines, in their order, and no more than its
/// capacity.
pub proof fn a_log_keeps_the_newest_lines<T>(lines: Seq<T>)
    ensures
        logged_all(seq![], lines) == lines.skip(
            if lines.len() > LOG_CAP {
                lines.len() - LOG_CAP
            } else {
                0
            },
        ),
    decreases lines.len(),
{
    let gone: int = if lines.len() > LOG_CAP {
        lines.len() - LOG_CAP
    } else {
        0
    };
    if lines.len() > 0 {
        a_log_keeps_the_newest_lines(lines.drop_last());
        assert(logged_all(seq![], lines) =~= lines.skip(gone));
    } else {
        assert(lines.skip(0) =~= seq![]);
    }
}

/// One request, never a backlog.
#[derive(Debug, PartialEq, Eq)]
pub struct Outbox {
    pub bytes: Option<Vec<u8>>,
    pub closed: bool,
}

/// What a writer finds in an outbox.
#[derive(Debug, PartialEq, Eq)]
pub enum Taken {
    Message(Vec<u8>),
    /// Nothing will come any more.
    Closed,
    /// Nothing is there yet.
    Wait,
}

impl Default for Outbox {
    fn default() -> (r: Self)
        ensures
            r.bytes is None,
            !r.closed,
    {
        Outbox { bytes: None, closed: false }
    }
}

impl Outbox {
    /// Puts a request in, in place of one that nobody took. Says whether there
    /// is still a writer.
    pub fn put(&mut self, bytes: Vec<u8>) -> (r: bool)
        ensures
            r == !old(self).closed,
            final(self).closed == old(self).closed,
            final(self).bytes == (if r {
                Some(bytes)
            } else {
                old(self).bytes
            }),
    {
        if self.closed {
            return false;
        }
        self.bytes = Some(bytes);
        true
    }

    /// Drops a request that nobody took.
    pub fn clear(&mut self)
        ensures
            final(self).bytes is None,
            final(self).closed == old(self).closed,
    {
        self.bytes = None;
    }

    pub fn close(&mut self)
        ensures
            final(self).closed,
            final(self).bytes == old(self).bytes,
    {
        self.closed = true;
    }

    /// Takes the request out, if there is one. A closed outbox still gives out
    /// what was put in before.
    pub fn take(&mut self) -> (r: Taken)
        ensures
            r == (match old(self).bytes {
                Some(bytes) => Taken::Message(bytes),
                None => if old(self).closed {
                    Taken::Closed
                } else {
                    Taken::Wait
                },
            }),
            final(self).bytes is None,
            final(self).closed == old(self).closed,
    {
        match self.bytes.take() {
            Some(bytes) => Taken::Message(bytes),
            None => if self.closed {
                Taken::Closed
            } else {
                Taken::Wait
            },
        }
    }
}

/// Why a call came to nothing.
#[derive(Debug, PartialEq, Eq)]
pub enum CallError {
    /// The plugin's input is closed.
    InputClosed,
    /// No answer came in so many milliseconds.
    Deadline(u64),
    /// The plugin's output could not be read.
    Unreadable,
    /// The plugin's output is at its end.
    OutputClosed,
    /// A line is no JSON.
    Malformed,
    /// The plugin reported an error, in JSON.
    Reported(String),
    /// An answer has neither an error nor a result.
    NoResult,
}

/// What an error reads as.
pub open spec fn call_error_text(e: CallError) -> Seq<char> {
    match e {
        CallError::InputClosed => "the plugin's input is closed"@,
        CallError::Deadline(ms) => "plugin missed its "@ + decimal(ms as nat) + " ms deadline"@,
        CallError::Unreadable => "reading from the plugin"@,
        CallError::OutputClosed => "plugin closed its output, or it exited"@,
        CallError::Malformed => "plugin sent malformed JSON"@,
        CallError::Reported(why) => "plugin reported: "@ + why@,
        CallError::NoResult => "plugin sent no result"@,
    }
}

impl CallError {
    pub fn message(&self) -> (r: String)
        ensures
            r@ == call_error_text(*self),
    {
        match self {
            CallError::InputClosed => "the plugin's input is closed".to_owned(),
            CallError::Deadline(ms) => {
                let mut out = chars_of("plugin missed its ");
                push_chars(&mut out, decimal_of(*ms).as_slice());
                push_chars(&mut out, chars_of(" ms deadline").as_slice());
                string_of(out.as_slice())
            },
            CallError::Unreadable => "reading from the plugin".to_owned(),
            CallError::OutputClosed => "plugin closed its output, or it exited".to_owned(),
            CallError::Malformed => "plugin sent malformed JSON".to_owned(),
            CallError::Reported(why) => {
                let mut out = chars_of("plugin reported: ");
                push_chars(&mut out, chars_of(why.as_str()).as_slice());
                string_of(out.as_slice())
            },
            CallError::NoResult => "plugin sent no result".to_owned(),
        }
    }
}

/// What a waiting call hears.
#[derive(Debug, PartialEq, Eq)]
pub enum Heard {
    Line(String),
    Unreadable,
    TimedOut,
    Disconnected,
}

/// What a waiting call does next.
#[derive(Debug, PartialEq, Eq)]
pub enum Next {
    /// It goes on waiting.
    Wait,
    /// It has its result, in JSON.
    Answer(String),
    Fail(CallError),
}

/// What a line is to a call: whether it is JSON, the id, error and result that
/// it holds.
pub open spec fn judged(
    id: u64,
    valid: bool,
    said: Option<u64>,
    error: Option<Seq<char>>,
    result: Option<Seq<char>>,
    next: Next,
) -> bool {
    if !valid {
        next == Next::Fail(CallError::Malformed)
    } else if said != Some(id) {
        next == Next::Wait
    } else if error is Some {
        next matches Next::Fail(CallError::Reported(why)) && why@ == error->0
    } else if result is Some {
        next matches Next::Answer(a) && a@ == result->0
    } else {
        next == Next::Fail(CallError::NoResult)
    }
}

/// Judges what a line held.
pub fn judge(
    id: u64,
    valid: bool,
    said: Option<u64>,
    error: Option<&String>,
    result: Option<&String>,
) -> (r: Next)
    ensures
        judged(
            id,
            valid,
            said,
            match error {
                Some(e) => Some(e@),
                None => None,
            },
            match result {
                Some(a) => Some(a@),
                None => None,
            },
            r,
        ),
{
    if !valid {
        return Next::Fail(CallError::Malformed);
    }
    if said != Some(id) {
        return Next::Wait;
    }
    match error {
        Some(why) => Next::Fail(CallError::Reported(why.clone())),
        None => match result {
            Some(a) => Next::Answer(a.clone()),
            None => Next::Fail(CallError::NoResult),
        },
    }
}

/// What a field of a line holds, where the line is an object.
pub open spec fn line_field(line: Seq<char>, key: Seq<char>) -> Option<Seq<char>> {
    match json_fields(line) {
        Some(f) => field(f, key),
        None => None,
    }
}

/// The id that a line says it answers.
pub open spec fn line_id(line: Seq<char>) -> Option<u64> {
    match line_field(line, "id"@) {
        Some(t) => json_number(t),
        None => None,
    }
}

/// Is this what a call does after a line?
pub open spec fn answers(id: u64, line: Seq<char>, next: Next) -> bool {
    judged(
        id,
        json_valid(line),
        line_id(line),
        line_field(line, "error"@),
        line_field(line, "result"@),
        next,
    )
}

/// What a line is to a call.
pub fn read_answer(id: u64, line: &str) -> (r: Next)
    ensures
        answers(id, line@, r),
{
    let valid = is_json(line);
    match read_fields(line) {
        Some(fields) => {
            let said: Option<u64> = match find_field(&fields, "id") {
                Some(t) => read_number(t.as_str()),
                None => None,
            };
            judge(
                id,
                valid,
                said,
                find_field(&fields, "error"),
                find_field(&fields, "result"),
            )
        },
        None => judge(id, valid, None, None, None),
    }
}

/// One call that waits for its answer.
#[derive(Debug, Clone, Copy, PartialEq, Eq, Structural)]
pub struct Call {
    pub id: u64,
    /// How long it waits, in nanoseconds.
    pub deadline_ns: u64,
}

impl Call {
    /// How long the call still waits: one budget, not one per line.
    pub fn left(&self, elapsed_ns: u64) -> (r: Result<u64, CallError>)
        ensures
            r == (if elapsed_ns < self.deadline_ns {
                Ok::<u64, CallError>((self.deadline_ns - elapsed_ns) as u64)
            } else {
                Err(CallError::Deadline(self.deadline_ns / 1_000_000))
            }),
    {
        if elapsed_ns < self.deadline_ns {
            Ok(self.deadline_ns - elapsed_ns)
        } else {
            Err(CallError::Deadline(self.deadline_ns / 1_000_000))
        }
    }

    /// What the call does when it hears something.
    pub fn hear(&self, heard: Heard) -> (r: Next)
        ensures
            match heard {
                Heard::Line(line) => answers(self.id, line@, r),
                Heard::Unreadable => r == Next::Fail(CallError::Unreadable),
                Heard::TimedOut => r == Next::Fail(CallError::Deadline(self.deadline_ns / 1_000_000)),
                Heard::Disconnected => r == Next::Fail(CallError::OutputClosed),
            },
    {
        match heard {
            Heard::Line(line) => read_answer(self.id, line.as_str()),
            Heard::Unreadable => Next::Fail(CallError::Unreadable),
            Heard::TimedOut => Next::Fail(CallError::Deadline(self.deadline_ns / 1_000_000)),
            Heard::Disconnected => Next::Fail(CallError::OutputClosed),
        }
    }
}

/// What is known of a running plugin between calls.
#[derive(Debug, PartialEq, Eq)]
pub struct Host {
    pub outbox: Outbox,
    pub next_id: u64,
}

impl Host {
    pub fn new() -> (r: Self)
        ensures
            r.outbox.bytes is None,
            !r.outbox.closed,
            r.next_id == 1,
    {
        Host { outbox: Outbox { bytes: None, closed: false }, next_id: 1 }
    }

    /// The id of the next call, which no other call has.
    pub fn next_call(&mut self, deadline_ns: u64) -> (r: Call)
        requires
            old(self).next_id < u64::MAX,
        ensures
            r == (Call { id: old(self).next_id, deadline_ns }),
            final(self).next_id == old(self).next_id + 1,
            final(self).outbox == old(self).outbox,
    {
        let id = self.next_id;
        self.next_id = id + 1;
        Call { id, deadline_ns }
    }

    /// Hands the plugin a request.
    pub fn send(&mut self, request: Vec<u8>) -> (r: Result<(), CallError>)
        ensures
            r == (if old(self).outbox.closed {
                Err::<(), CallError>(CallError::InputClosed)
            } else {
                Ok(())
            }),
            final(self).next_id == old(self).next_id,
            final(self).outbox.closed == old(self).outbox.closed,
            final(self).outbox.bytes == (if old(self).outbox.closed {
                old(self).outbox.bytes
            } else {
                Some(request)
            }),
    {
        if self.outbox.put(request) {
            Ok(())
        } else {
            Err(CallError::InputClosed)
        }
    }

    /// Ends a call. A failed one leaves no request behind: only its own can be
    /// waiting.
    pub fn finish(&mut self, failed: bool)
        ensures
            final(self).next_id == old(self).next_id,
            final(self).outbox.closed == old(self).outbox.closed,
            final(self).outbox.bytes == (if failed {
                None
            } else {
                old(self).outbox.bytes
            }),
    {
        if failed {
            self.outbox.clear();
        }
    }

    /// Frees an idle writer.
    pub fn shutdown(&mut self)
        ensures
            final(self).outbox.closed,
            final(self).outbox.bytes == old(self).outbox.bytes,
            final(self).next_id == old(self).next_id,
    {
        self.outbox.close();
    }
}

/// A call never takes another call's answer for its own.
pub proof fn a_stale_answer_is_passed_over(id: u64, line: Seq<char>, next: Next)
    requires
        json_valid(line),
        line_id(line) != Some(id),
        answers(id, line, next),
    ensures
        next == Next::Wait,
{
}

/// The answer to a call is the plugin's error where it reports one, else its
/// result; an answer with neither is a failure, and so is a line that is no
/// JSON.
pub proof fn an_error_comes_before_a_result(id: u64, line: Seq<char>, next: Next)
    requires
        answers(id, line, next),
    ensures
        !json_valid(line) ==> next == Next::Fail(CallError::Malformed),
        json_valid(line) && line_id(line) == Some(id) ==> {
            &&& line_field(line, "error"@) matches Some(e) ==> (next matches Next::Fail(
                CallError::Reported(why),
            ) && why@ == e)
            &&& line_field(line, "error"@) is None && line_field(line, "result"@) is Some ==> (
            next matches Next::Answer(a) && a@ == line_field(line, "result"@)->0)
            &&& line_field(line, "error"@) is None && line_field(line, "result"@) is None ==> next
                == Next::Fail(CallError::NoResult)
        },
{
}

} // verus!
