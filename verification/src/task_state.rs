//! The outcome of a finished task and its text encoding.
//!
//! The status grammar is `OK` | `WARNINGS: <count>` | `ERROR: <message>` |
//! `unknown`; on well-formed values the encoding is a bijection, proved by
//! [`lemma_status_roundtrip`].

use vstd::prelude::*;
use crate::bytes::{has_byte, slice_starts_with, starts_with, bytes_eq, sub_vec};
use crate::hex::{dec_seq, dec_value, dec_canonical, render_dec, parse_dec, lemma_dec_seq_wf};

verus! {

/// Outcome of a finished worker task.
#[derive(Debug, Clone, PartialEq, Eq)]
pub enum TaskState {
    /// The task ended in an undefined state.
    Unknown { endtime: i64 },
    /// The task ended without errors or warnings.
    OK { endtime: i64 },
    /// The task emitted `count` warnings and no error.
    Warning { count: u64, endtime: i64 },
    /// The task failed with `message`.
    Error { message: Vec<u8>, endtime: i64 },
}

/// Mathematical model of a [`TaskState`].
#[verifier::ext_equal]
pub ghost enum TaskStateView {
    Unknown { endtime: int },
    OK { endtime: int },
    Warning { count: nat, endtime: int },
    Error { message: Seq<u8>, endtime: int },
}

impl View for TaskState {
    type V = TaskStateView;

    open spec fn view(&self) -> TaskStateView {
        match self {
            TaskState::Unknown { endtime } => TaskStateView::Unknown { endtime: *endtime as int },
            TaskState::OK { endtime } => TaskStateView::OK { endtime: *endtime as int },
            TaskState::Warning { count, endtime } => TaskStateView::Warning {
                count: *count as nat,
                endtime: *endtime as int,
            },
            TaskState::Error { message, endtime } => TaskStateView::Error {
                message: message@,
                endtime: *endtime as int,
            },
        }
    }
}

pub open spec fn view_endtime(v: TaskStateView) -> int {
    match v {
        TaskStateView::Unknown { endtime } => endtime,
        TaskStateView::OK { endtime } => endtime,
        TaskStateView::Warning { endtime, .. } => endtime,
        TaskStateView::Error { endtime, .. } => endtime,
    }
}

/// Endtimes are epoch seconds and must fit the eight-digit hexadecimal
/// archive column; an error message is a nonempty single line.
pub open spec fn status_wf(v: TaskStateView) -> bool {
    &&& 0 <= view_endtime(v) < 0x1_0000_0000
    &&& match v {
        TaskStateView::Warning { count, .. } => count <= u64::MAX,
        TaskStateView::Error { message, .. } => message.len() > 0 && !has_byte(message, 10),
        _ => true,
    }
}

pub open spec fn unknown_b() -> Seq<u8> {
    seq![117u8, 110u8, 107u8, 110u8, 111u8, 119u8, 110u8]
}

pub open spec fn ok_b() -> Seq<u8> {
    seq![79u8, 75u8]
}

pub open spec fn warnings_prefix_b() -> Seq<u8> {
    seq![87u8, 65u8, 82u8, 78u8, 73u8, 78u8, 71u8, 83u8, 58u8, 32u8]
}

pub open spec fn error_prefix_b() -> Seq<u8> {
    seq![69u8, 82u8, 82u8, 79u8, 82u8, 58u8, 32u8]
}

pub open spec fn task_prefix_b() -> Seq<u8> {
    seq![84u8, 65u8, 83u8, 75u8, 32u8]
}

/// The status column of an archive row or log trailer.
pub open spec fn status_text_of(v: TaskStateView) -> Seq<u8> {
    match v {
        TaskStateView::Unknown { .. } => unknown_b(),
        TaskStateView::OK { .. } => ok_b(),
        TaskStateView::Warning { count, .. } => warnings_prefix_b() + dec_seq(count),
        TaskStateView::Error { message, .. } => error_prefix_b() + message,
    }
}

/// Reading a status column back, given the endtime from elsewhere on the row.
pub open spec fn status_from(endtime: int, s: Seq<u8>) -> Option<TaskStateView> {
    if s == unknown_b() {
        Some(TaskStateView::Unknown { endtime })
    } else if s == ok_b() {
        Some(TaskStateView::OK { endtime })
    } else if starts_with(s, warnings_prefix_b()) {
        let rest = s.skip(warnings_prefix_b().len() as int);
        if dec_canonical(rest) && dec_value(rest) is Some && dec_value(rest).unwrap()
            <= u64::MAX {
            Some(TaskStateView::Warning { count: dec_value(rest).unwrap(), endtime })
        } else {
            None
        }
    } else if starts_with(s, error_prefix_b()) && s.len() > error_prefix_b().len() {
        Some(TaskStateView::Error { message: s.skip(error_prefix_b().len() as int), endtime })
    } else {
        None
    }
}

/// On well-formed states the status text reads back to the same state.
pub proof fn lemma_status_roundtrip(v: TaskStateView)
    requires
        status_wf(v),
    ensures
        status_from(view_endtime(v), status_text_of(v)) == Some(v),
{
    let s = status_text_of(v);
    match v {
        TaskStateView::Unknown { .. } => {
        },
        TaskStateView::OK { .. } => {
        },
        TaskStateView::Warning { count, endtime } => {
            lemma_dec_seq_wf(count);
            assert(s != unknown_b());
            assert(s != ok_b()) by {
                assert(s.len() >= warnings_prefix_b().len() + 1);
            }
            assert(starts_with(s, warnings_prefix_b())) by {
                assert(s.subrange(0, warnings_prefix_b().len() as int) =~= warnings_prefix_b());
            }
            assert(s.skip(warnings_prefix_b().len() as int) =~= dec_seq(count));
        },
        TaskStateView::Error { message, endtime } => {
            assert(s[0] == 69u8);
            assert(s != unknown_b());
            assert(s != ok_b());
            assert(!starts_with(s, warnings_prefix_b())) by {
                if starts_with(s, warnings_prefix_b()) {
                    assert(s.subrange(0, warnings_prefix_b().len() as int)[0] == s[0]);
                }
            }
            assert(starts_with(s, error_prefix_b())) by {
                assert(s.subrange(0, error_prefix_b().len() as int) =~= error_prefix_b());
            }
            assert(s.skip(error_prefix_b().len() as int) =~= message);
        },
    }
}

/// A status read out of a newline-free column with an in-range endtime is
/// well-formed.
pub proof fn lemma_status_from_wf(endtime: int, s: Seq<u8>, st: TaskStateView)
    requires
        status_from(endtime, s) == Some(st),
        0 <= endtime < 0x1_0000_0000,
        !has_byte(s, 10),
    ensures
        status_wf(st),
{
    match st {
        TaskStateView::Error { message, .. } => {
            let p = error_prefix_b().len() as int;
            assert(message =~= s.skip(p));
            assert forall|i: int| 0 <= i < message.len() implies message[i] != 10 by {
                assert(message[i] == s[i + p]);
            }
        },
        _ => {},
    }
}

pub fn unknown_text() -> (r: Vec<u8>)
    ensures
        r@ == unknown_b(),
{
    let mut v: Vec<u8> = Vec::new();
    v.push(117);
    v.push(110);
    v.push(107);
    v.push(110);
    v.push(111);
    v.push(119);
    v.push(110);
    proof {
        assert(v@ =~= unknown_b());
    }
    v
}

fn ok_text() -> (r: Vec<u8>)
    ensures
        r@ == ok_b(),
{
    let mut v: Vec<u8> = Vec::new();
    v.push(79);
    v.push(75);
    proof {
        assert(v@ =~= ok_b());
    }
    v
}

fn warnings_prefix() -> (r: Vec<u8>)
    ensures
        r@ == warnings_prefix_b(),
{
    let mut v: Vec<u8> = Vec::new();
    v.push(87);
    v.push(65);
    v.push(82);
    v.push(78);
    v.push(73);
    v.push(78);
    v.push(71);
    v.push(83);
    v.push(58);
    v.push(32);
    proof {
        assert(v@ =~= warnings_prefix_b());
    }
    v
}

fn error_prefix() -> (r: Vec<u8>)
    ensures
        r@ == error_prefix_b(),
{
    let mut v: Vec<u8> = Vec::new();
    v.push(69);
    v.push(82);
    v.push(82);
    v.push(79);
    v.push(82);
    v.push(58);
    v.push(32);
    proof {
        assert(v@ =~= error_prefix_b());
    }
    v
}

impl TaskState {
    /// The moment the task finished, as epoch seconds.
    pub fn endtime(&self) -> (r: i64)
        ensures
            r as int == view_endtime(self@),
    {
        match self {
            TaskState::Unknown { endtime } => *endtime,
            TaskState::OK { endtime } => *endtime,
            TaskState::Warning { endtime, .. } => *endtime,
            TaskState::Error { endtime, .. } => *endtime,
        }
    }

    /// The status column of this state.
    pub fn status_text(&self) -> (r: Vec<u8>)
        ensures
            r@ == status_text_of(self@),
    {
        match self {
            TaskState::Unknown { .. } => unknown_text(),
            TaskState::OK { .. } => ok_text(),
            TaskState::Warning { count, .. } => {
                let mut out = warnings_prefix();
                let num = render_dec(*count);
                out.extend_from_slice(num.as_slice());
                proof {
                    assert(out@ =~= warnings_prefix_b() + dec_seq(*count as nat));
                }
                out
            },
            TaskState::Error { message, .. } => {
                let mut out = error_prefix();
                out.extend_from_slice(message.as_slice());
                proof {
                    assert(out@ =~= error_prefix_b() + message@);
                }
                out
            },
        }
    }

    /// The line written at the end of a task log: `TASK ` and the status.
    pub fn result_text(&self) -> (r: Vec<u8>)
        ensures
            r@ == task_prefix_b() + status_text_of(self@),
    {
        let mut out: Vec<u8> = Vec::new();
        out.push(84);
        out.push(65);
        out.push(83);
        out.push(75);
        out.push(32);
        let status = self.status_text();
        out.extend_from_slice(status.as_slice());
        proof {
            assert(out@ =~= task_prefix_b() + status_text_of(self@));
        }
        out
    }

    /// Read a status column, taking the endtime from elsewhere on the row.
    pub fn from_endtime_and_message(endtime: i64, s: &[u8]) -> (r: Option<TaskState>)
        ensures
            match r {
                Some(ts) => status_from(endtime as int, s@) == Some(ts@),
                None => status_from(endtime as int, s@) is None,
            },
    {
        let unknown = unknown_text();
        if bytes_eq(s, unknown.as_slice()) {
            return Some(TaskState::Unknown { endtime });
        }
        let ok = ok_text();
        if bytes_eq(s, ok.as_slice()) {
            return Some(TaskState::OK { endtime });
        }
        let wprefix = warnings_prefix();
        if slice_starts_with(s, wprefix.as_slice()) {
            let rest = sub_vec(s, wprefix.len(), s.len());
            proof {
                assert(rest@ =~= s@.skip(warnings_prefix_b().len() as int));
            }
            return match parse_dec(rest.as_slice()) {
                Some(count) => Some(TaskState::Warning { count, endtime }),
                None => None,
            };
        }
        let eprefix = error_prefix();
        if slice_starts_with(s, eprefix.as_slice()) && s.len() > eprefix.len() {
            let message = sub_vec(s, eprefix.len(), s.len());
            proof {
                assert(message@ =~= s@.skip(error_prefix_b().len() as int));
            }
            return Some(TaskState::Error { message, endtime });
        }
        None
    }
}

} // verus!
