//! Decisions of the streaming download runner: what each line of output
//! becomes, the bounded tail of stderr kept for error reports, and how a
//! finished run is reported.
use vstd::prelude::*;
use std::collections::VecDeque;
use crate::archive::{join_lines, strs};
use crate::events::{classifies, classifies_stderr, classify_yt_dlp_line, classify_yt_dlp_stderr_line, YtDlpEvent};
use crate::text::{i32_to_string, signed_decimal};

verus! {

broadcast use vstd::string::group_string_axioms;

/// How many stderr lines an error report keeps.
pub const STDERR_TAIL: usize = 20;

/// The text of a queue of strings.
pub open spec fn queue_strs(q: Seq<String>) -> Seq<Seq<char>> {
    strs(q)
}

/// The tail after `line` arrives: the oldest line leaves once the tail is full.
pub open spec fn pushed_tail(tail: Seq<Seq<char>>, line: Seq<char>) -> Seq<Seq<char>> {
    if tail.len() == STDERR_TAIL {
        tail.drop_first().push(line)
    } else {
        tail.push(line)
    }
}

/// Adds `line` to the stderr tail, dropping the oldest line once it holds twenty.
pub fn push_tail(tail: &mut VecDeque<String>, line: String)
    ensures
        strs(final(tail)@) == pushed_tail(strs(old(tail)@), line@),
{
    let ghost before = tail@;
    if tail.len() == STDERR_TAIL {
        tail.pop_front();
        assert(strs(tail@) =~= strs(before).drop_first());
    }
    let ghost mid = tail@;
    tail.push_back(line);
    assert(strs(tail@) =~= strs(mid).push(line@));
}

/// The last `n` elements of `s` (all of them when there are fewer).
pub open spec fn last_n(s: Seq<Seq<char>>, n: nat) -> Seq<Seq<char>> {
    if s.len() > n {
        s.skip(s.len() - n)
    } else {
        s
    }
}

/// The tail after pushing `lines` one by one onto `tail`.
pub open spec fn tail_after(tail: Seq<Seq<char>>, lines: Seq<Seq<char>>) -> Seq<Seq<char>>
    decreases lines.len(),
{
    if lines.len() == 0 {
        tail
    } else {
        pushed_tail(tail_after(tail, lines.drop_last()), lines.last())
    }
}

/// Law: starting from an empty tail, pushing any sequence of stderr lines
/// leaves exactly the last twenty of them (all of them when fewer), oldest first.
pub proof fn lemma_tail_keeps_last_lines(lines: Seq<Seq<char>>)
    ensures
        tail_after(Seq::empty(), lines) == last_n(lines, STDERR_TAIL as nat),
    decreases lines.len(),
{
    if lines.len() > 0 {
        lemma_tail_keeps_last_lines(lines.drop_last());
        let prev = last_n(lines.drop_last(), STDERR_TAIL as nat);
        if lines.drop_last().len() >= STDERR_TAIL {
            assert(prev.len() == STDERR_TAIL);
            assert(prev.drop_first().push(lines.last()) =~= last_n(lines, STDERR_TAIL as nat));
        } else {
            assert(prev.push(lines.last()) =~= last_n(lines, STDERR_TAIL as nat));
        }
    }
}

/// `Some(<code>)` or `None`, as `{:?}` shows an exit code.
pub open spec fn debug_code(code: Option<i32>) -> Seq<char> {
    match code {
        Some(c) => "Some("@ + signed_decimal(c as int) + ")"@,
        None => "None"@,
    }
}

/// The report of a nonzero exit: the status, then the stderr tail.
pub open spec fn exit_report(code: Option<i32>, tail: Seq<Seq<char>>) -> Seq<char> {
    "process exited with status "@ + debug_code(code) + "\n"@ + join_lines(tail)
}

/// The error text for a run that exited unsuccessfully.
pub fn exit_error(code: Option<i32>, tail: &VecDeque<String>) -> (r: String)
    ensures
        r@ == exit_report(code, strs(tail@)),
{
    let mut r = "process exited with status ".to_owned();
    match code {
        Some(c) => {
            r.append("Some(");
            let n = i32_to_string(c);
            r.append(n.as_str());
            r.append(")");
        },
        None => {
            r.append("None");
        },
    }
    r.append("\n");
    let ghost ls = strs(tail@);
    let mut body = String::new();
    let n = tail.len();
    for i in 0..n
        invariant
            n == tail@.len(),
            ls == strs(tail@),
            body@ == join_lines(ls.take(i as int)),
    {
        assert(ls[i as int] == tail@[i as int]@);
        assert(ls.take(i + 1).drop_last() =~= ls.take(i as int));
        if i > 0 {
            body.append("\n");
            proof {
                reveal_strlit("\n");
            }
        } else {
            assert(ls.take(1) =~= seq![ls[0]]);
        }
        body.append(tail[i].as_str());
        assert(body@ =~= join_lines(ls.take(i + 1)));
    }
    assert(ls.take(n as int) =~= ls);
    r.append(body.as_str());
    r
}

/// How a streaming run ended, when it did not fail.
#[derive(Debug, Clone, Copy, PartialEq, Eq)]
pub enum RunOutcome {
    Success,
    Cancelled,
}

/// What the runner observed next.
pub enum StreamInput {
    /// A line of standard output.
    StdoutLine(String),
    /// Standard output reached its end.
    StdoutClosed,
    /// A line of standard error.
    StderrLine(String),
    /// Standard error reached its end.
    StderrClosed,
    /// The caller asked to cancel.
    CancelRequested,
}

/// What the runner does next.
#[derive(Debug, PartialEq, Eq)]
pub enum StreamStep {
    /// Report this event and keep reading.
    Event(YtDlpEvent),
    /// Keep reading.
    Continue,
    /// Both pipes are drained: wait for the process to exit.
    Drained,
    /// Stop the process and report the run as cancelled.
    Cancel,
}

/// The runner's state between observations.
pub struct StreamState {
    pub stdout_done: bool,
    pub stderr_done: bool,
    pub stderr_tail: VecDeque<String>,
}

impl StreamState {
    /// Both pipes open, nothing seen yet.
    pub fn new() -> (r: StreamState)
        ensures
            !r.stdout_done,
            !r.stderr_done,
            r.stderr_tail@.len() == 0,
    {
        StreamState { stdout_done: false, stderr_done: false, stderr_tail: VecDeque::new() }
    }

    /// Takes in one observation: lines are classified (stderr lines may be
    /// error reports, and also join the tail), closed pipes are noted, and once both are closed the
    /// process is awaited.
    pub fn step(&mut self, input: StreamInput) -> (r: StreamStep)
        ensures
            match input {
                StreamInput::StdoutLine(l) => (r matches StreamStep::Event(e) && classifies(e, l@))
                    && final(self).stdout_done == old(self).stdout_done
                    && final(self).stderr_done == old(self).stderr_done
                    && final(self).stderr_tail@ == old(self).stderr_tail@,
                StreamInput::StderrLine(l) => (r matches StreamStep::Event(e) && classifies_stderr(e, l@))
                    && final(self).stdout_done == old(self).stdout_done
                    && final(self).stderr_done == old(self).stderr_done
                    && strs(final(self).stderr_tail@) == pushed_tail(
                    strs(old(self).stderr_tail@),
                    l@,
                ),
                StreamInput::StdoutClosed => final(self).stdout_done
                    && final(self).stderr_done == old(self).stderr_done
                    && final(self).stderr_tail@ == old(self).stderr_tail@
                    && r == if final(self).stderr_done {
                    StreamStep::Drained
                } else {
                    StreamStep::Continue
                },
                StreamInput::StderrClosed => final(self).stderr_done
                    && final(self).stdout_done == old(self).stdout_done
                    && final(self).stderr_tail@ == old(self).stderr_tail@
                    && r == if final(self).stdout_done {
                    StreamStep::Drained
                } else {
                    StreamStep::Continue
                },
                StreamInput::CancelRequested => r == StreamStep::Cancel
                    && final(self).stdout_done == old(self).stdout_done
                    && final(self).stderr_done == old(self).stderr_done
                    && final(self).stderr_tail@ == old(self).stderr_tail@,
            },
    {
        match input {
            StreamInput::StdoutLine(l) => StreamStep::Event(classify_yt_dlp_line(l.as_str())),
            StreamInput::StderrLine(l) => {
                let e = classify_yt_dlp_stderr_line(l.as_str());
                push_tail(&mut self.stderr_tail, l);
                StreamStep::Event(e)
            },
            StreamInput::StdoutClosed => {
                self.stdout_done = true;
                if self.stderr_done {
                    StreamStep::Drained
                } else {
                    StreamStep::Continue
                }
            },
            StreamInput::StderrClosed => {
                self.stderr_done = true;
                if self.stdout_done {
                    StreamStep::Drained
                } else {
                    StreamStep::Continue
                }
            },
            StreamInput::CancelRequested => StreamStep::Cancel,
        }
    }

    /// The result of a run whose pipes are drained and whose process exited:
    /// success, or the exit report with the stderr tail.
    pub fn finish(&self, success: bool, code: Option<i32>) -> (r: Result<RunOutcome, String>)
        ensures
            success ==> r == Ok::<RunOutcome, String>(RunOutcome::Success),
            !success ==> (r matches Err(m) && m@ == exit_report(code, strs(self.stderr_tail@))),
    {
        if success {
            Ok(RunOutcome::Success)
        } else {
            Err(exit_error(code, &self.stderr_tail))
        }
    }
}


} // verus!
