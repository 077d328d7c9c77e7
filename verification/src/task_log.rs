//! Per-task log lines and the recovery of a finished task's outcome from
//! the tail of its own log.
//!
//! Every log line is `<timestamp>: <message>`; the final line of a finished
//! task is `<timestamp>: TASK <status text>`.  Recovery takes the last line
//! of the log tail, reads the timestamp before the first `": "`, and the
//! status after `TASK `; when no timestamp parses the outcome degrades to
//! `Unknown` at the caller's fallback time, and when only the status is
//! missing, to `Unknown` at the parsed time.

use vstd::prelude::*;
use crate::bytes::{has_byte, split_on, starts_with, sub_vec, find_byte_from, lemma_split_first,
    lemma_split_on_whole, lemma_split_on_len, lemma_split_on_parts_clean};
use crate::hex::hex_seq;
use crate::task_state::{TaskState, status_from, status_wf, task_prefix_b, lemma_status_from_wf};
use crate::timefmt::{rfc3339_text, rfc3339_value, render_rfc3339, parse_rfc3339};

verus! {

/// One log line: the timestamp, a colon and space, and the message.
pub open spec fn log_line(t: int, msg: Seq<u8>) -> Seq<u8> {
    rfc3339_text(t) + seq![58u8, 32u8] + msg
}

/// Render one log line, without its terminating newline.
pub fn render_log_line(now: i64, msg: &[u8]) -> (r: Vec<u8>)
    requires
        0 <= now < 0x1_0000_0000,
    ensures
        r@ == log_line(now as int, msg@),
{
    let mut out = render_rfc3339(now);
    out.push(58);
    out.push(32);
    out.extend_from_slice(msg);
    proof {
        assert(out@ =~= log_line(now as int, msg@));
    }
    out
}

/// The 256-way shard directory of a task log, named by the low byte of the
/// owning process's start tick, as two hexadecimal digits.
pub fn shard_name(pstart: u64) -> (r: Vec<u8>)
    ensures
        r@ == hex_seq((pstart % 256) as nat, 2),
{
    crate::hex::render_hex(pstart % 256, 2)
}

/// The content with trailing newlines removed.
pub open spec fn trim_trailing_nl(s: Seq<u8>) -> Seq<u8>
    decreases s.len(),
{
    if s.len() > 0 && s.last() == 10 {
        trim_trailing_nl(s.drop_last())
    } else {
        s
    }
}

/// The first position of `": "`.
pub open spec fn find_cs(s: Seq<u8>) -> Option<int>
    decreases s.len(),
{
    if s.len() < 2 {
        None
    } else if s[0] == 58 && s[1] == 32 {
        Some(0int)
    } else {
        match find_cs(s.drop_first()) {
            Some(i) => Some(i + 1),
            None => None,
        }
    }
}

/// The outcome recovered from a log tail: parse the last line's timestamp
/// and status, degrading to `Unknown` as the log permits.
pub open spec fn read_status_spec(tail: Seq<u8>, fallback: int) -> crate::task_state::TaskStateView {
    let line = split_on(trim_trailing_nl(tail), 10).last();
    match find_cs(line) {
        Some(i) => {
            let ts = line.take(i);
            let rest = line.skip(i + 2);
            match rfc3339_value(ts) {
                Some(e) => if 0 <= e < 0x1_0000_0000 {
                    if starts_with(rest, task_prefix_b()) && status_from(
                        e,
                        rest.skip(task_prefix_b().len() as int),
                    ) is Some {
                        status_from(e, rest.skip(task_prefix_b().len() as int)).unwrap()
                    } else {
                        crate::task_state::TaskStateView::Unknown { endtime: e }
                    }
                } else {
                    crate::task_state::TaskStateView::Unknown { endtime: fallback }
                },
                None => crate::task_state::TaskStateView::Unknown { endtime: fallback },
            }
        },
        None => crate::task_state::TaskStateView::Unknown { endtime: fallback },
    }
}

/// Recover a finished task's outcome from the tail of its log; the fallback
/// is the task's start time, used when no timestamp can be read.
pub fn read_status_from_log_tail(tail: &[u8], fallback: i64) -> (r: TaskState)
    requires
        0 <= fallback < 0x1_0000_0000,
    ensures
        r@ == read_status_spec(tail@, fallback as int),
        status_wf(r@),
{
    // Strip trailing newlines.
    let mut end = tail.len();
    proof {
        assert(tail@.take(end as int) =~= tail@);
    }
    while end > 0 && tail[end - 1] == 10
        invariant
            end <= tail@.len(),
            trim_trailing_nl(tail@) == trim_trailing_nl(tail@.take(end as int)),
        decreases end,
    {
        proof {
            assert(tail@.take(end as int).last() == tail@[end - 1]);
            assert(tail@.take(end as int).drop_last() =~= tail@.take(end - 1));
        }
        end -= 1;
    }
    proof {
        if end > 0 {
            assert(tail@.take(end as int).last() == tail@[end - 1]);
        }
        assert(trim_trailing_nl(tail@.take(end as int)) == tail@.take(end as int));
    }
    let t = sub_vec(tail, 0, end);
    let ghost trimmed = trim_trailing_nl(tail@);
    proof {
        assert(t@ == trimmed);
    }
    // Find the last line.
    let tn = t.len();
    let mut pos: usize = 0;
    proof {
        assert(t@.skip(0) =~= t@);
    }
    loop
        invariant
            pos <= tn,
            tn == t@.len(),
            t@ == trimmed,
            split_on(trimmed, 10).last() == split_on(t@.skip(pos as int), 10).last(),
        ensures
            pos <= t@.len(),
            t@ == trimmed,
            !has_byte(trimmed.skip(pos as int), 10),
            split_on(trimmed, 10).last() == trimmed.skip(pos as int),
        decreases t@.len() - pos,
    {
        match find_byte_from(t.as_slice(), 10, pos) {
            Some(i) => {
                proof {
                    let sub = t@.skip(pos as int);
                    assert(has_byte(sub, 10)) by {
                        assert(sub[i - pos] == t@[i as int]);
                    }
                    lemma_split_first(sub, 10);
                    let p0 = split_on(sub, 10)[0];
                    assert(p0 =~= sub.subrange(0, i - pos)) by {
                        assert(sub =~= p0 + seq![10u8] + sub.skip(p0.len() as int + 1));
                        assert forall|k: int| 0 <= k < p0.len() implies sub[k] == p0[k] by {}
                        assert(p0.len() <= i - pos) by {
                            if p0.len() > i - pos {
                                assert(p0[i - pos] == sub[i - pos]);
                                assert(sub[i - pos] == t@[i as int]);
                            }
                        }
                        assert(sub[p0.len() as int] == 10);
                        assert(t@[p0.len() + pos] == 10);
                        assert(p0.len() >= i - pos);
                        assert(p0 =~= sub.subrange(0, p0.len() as int));
                    }
                    assert(sub.skip(p0.len() as int + 1) =~= t@.skip(i + 1));
                    let parts = split_on(sub, 10);
                    lemma_split_on_len(t@.skip(i + 1), 10);
                    assert(parts.last() == parts.drop_first().last());
                    assert(split_on(t@.skip(i + 1), 10).last() == parts.last());
                }
                proof {
                    assert(i < tn);
                }
                pos = i + 1;
            },
            None => {
                proof {
                    let sub = t@.skip(pos as int);
                    assert(!has_byte(sub, 10)) by {
                        assert forall|k: int| 0 <= k < sub.len() implies sub[k] != 10 by {
                            assert(sub[k] == t@[k + pos]);
                        }
                    }
                    lemma_split_on_whole(sub, 10);
                    assert(split_on(sub, 10).last() == sub);
                }
                break ;
            },
        }
    }
    let line = sub_vec(t.as_slice(), pos, t.len());
    proof {
        assert(line@ =~= trimmed.skip(pos as int));
        assert(line@ == split_on(trimmed, 10).last());
        assert(!has_byte(line@, 10));
    }
    // Find the first ": ".
    let ln = line.len();
    let mut j: usize = 0;
    let mut cs: Option<usize> = None;
    proof {
        assert(line@.skip(0) =~= line@);
    }
    while j < ln && j + 1 < ln
        invariant
            j <= ln,
            ln == line@.len(),
            match cs {
                Some(c) => c + 1 < line@.len() && find_cs(line@) == Some(c as int),
                None => find_cs(line@) == match find_cs(line@.skip(j as int)) {
                    Some(k) => Some(j + k),
                    None => None,
                },
            },
        ensures
            match cs {
                Some(c) => c + 1 < line@.len() && find_cs(line@) == Some(c as int),
                None => find_cs(line@) is None,
            },
        decreases line@.len() - j,
    {
        if cs.is_none() {
            proof {
                let sub = line@.skip(j as int);
                assert(sub.len() >= 2);
                assert(sub[0] == line@[j as int] && sub[1] == line@[j + 1]);
                assert(sub.drop_first() =~= line@.skip(j as int + 1));
            }
            if line[j] == 58 && line[j + 1] == 32 {
                cs = Some(j);
            }
        }
        if cs.is_some() {
            proof {
                assert(j + 1 < line@.len());
            }
            break ;
        }
        j += 1;
    }
    let c = match cs {
        Some(c) => c,
        None => {
            return TaskState::Unknown { endtime: fallback };
        },
    };
    let ts = sub_vec(line.as_slice(), 0, c);
    let rest = sub_vec(line.as_slice(), c + 2, line.len());
    proof {
        assert(ts@ =~= line@.take(c as int));
        assert(rest@ =~= line@.skip(c as int + 2));
    }
    let e = match parse_rfc3339(ts.as_slice()) {
        Some(e) => e,
        None => {
            return TaskState::Unknown { endtime: fallback };
        },
    };
    if e >= 0x1_0000_0000 {
        return TaskState::Unknown { endtime: fallback };
    }
    let prefix = task_prefix();
    if crate::bytes::slice_starts_with(rest.as_slice(), prefix.as_slice()) {
        let status = sub_vec(rest.as_slice(), prefix.len(), rest.len());
        proof {
            assert(status@ =~= rest@.skip(task_prefix_b().len() as int));
            assert(!has_byte(status@, 10)) by {
                assert forall|k: int| 0 <= k < status@.len() implies status@[k] != 10 by {
                    assert(status@[k] == rest@[k + task_prefix_b().len()]);
                    assert(rest@[k + task_prefix_b().len()] == line@[k + task_prefix_b().len() + c
                        + 2]);
                }
            }
        }
        match TaskState::from_endtime_and_message(e, status.as_slice()) {
            Some(st) => {
                proof {
                    lemma_status_from_wf(e as int, status@, st@);
                }
                return st;
            },
            None => {
                return TaskState::Unknown { endtime: e };
            },
        }
    }
    TaskState::Unknown { endtime: e }
}

/// When the first `": "` of `s` stands at `i`, that is where the split
/// between timestamp and message is read.
proof fn lemma_find_cs_at(s: Seq<u8>, i: int)
    requires
        0 <= i,
        i + 1 < s.len(),
        s[i] == 58 && s[i + 1] == 32,
        forall|k: int| 0 <= k < i ==> !((#[trigger] s[k]) == 58 && s[k + 1] == 32),
    ensures
        find_cs(s) == Some(i),
    decreases i,
{
    if i == 0 {
    } else {
        let rest = s.drop_first();
        assert(rest[i - 1] == s[i] && rest[i] == s[i + 1]);
        assert(forall|k: int| 0 <= k < i - 1 ==> !((#[trigger] rest[k]) == 58 && rest[k + 1] == 32))
            by {
            assert forall|k: int| 0 <= k < i - 1 implies !((#[trigger] rest[k]) == 58 && rest[k + 1]
                == 32) by {
                assert(rest[k] == s[k + 1] && rest[k + 1] == s[k + 2]);
            }
        }
        lemma_find_cs_at(rest, i - 1);
    }
}

/// The last line of `a + b`, where `b` is newline-free and `a` is empty or
/// ends with a newline, is `b`.
proof fn lemma_split_last_line(a: Seq<u8>, b: Seq<u8>)
    requires
        !has_byte(b, 10),
        a.len() == 0 || a.last() == 10,
    ensures
        split_on(a + b, 10).last() == b,
    decreases a.len(),
{
    let s = a + b;
    if a.len() == 0 {
        assert(s =~= b);
        lemma_split_on_whole(b, 10);
    } else {
        assert(has_byte(s, 10)) by {
            assert(s[a.len() - 1] == a.last());
        }
        lemma_split_first(s, 10);
        let p0 = split_on(s, 10)[0];
        assert(p0.len() < a.len()) by {
            if p0.len() >= a.len() {
                assert(s[a.len() - 1] == p0[a.len() - 1] || s[a.len() - 1] == 10);
                assert(s =~= p0 + seq![10u8] + s.skip(p0.len() as int + 1));
                if p0.len() > a.len() - 1 {
                    assert(p0[a.len() - 1] == s[a.len() - 1]);
                    assert(!has_byte(p0, 10));
                }
            }
        }
        let rest = s.skip(p0.len() as int + 1);
        let a2 = a.skip(p0.len() as int + 1);
        assert(rest =~= a2 + b);
        assert(a2.len() == 0 || a2.last() == 10) by {
            if a2.len() > 0 {
                assert(a2.last() == a.last());
            }
        }
        lemma_split_last_line(a2, b);
        let parts = split_on(s, 10);
        assert(parts.drop_first().last() == parts.last());
        assert(split_on(rest, 10).last() == b);
    }
}

/// The result trailer that finishing writes is recovered by status
/// recovery: a log whose last line is the `TASK ` trailer of a well-formed
/// outcome, written at that outcome's endtime, reads back to the same
/// outcome, whatever came before it and whatever the fallback time is.
#[verifier::rlimit(100)]
#[verifier::spinoff_prover]
pub proof fn lemma_trailer_roundtrip(prefix: Seq<u8>, st: crate::task_state::TaskStateView, fallback: int)
    requires
        status_wf(st),
        prefix.len() == 0 || prefix.last() == 10,
    ensures
        ({
            let e = crate::task_state::view_endtime(st);
            let trailer = log_line(e, task_prefix_b() + crate::task_state::status_text_of(st));
            read_status_spec(prefix + trailer + seq![10u8], fallback) == st
        }),
{
    let e = crate::task_state::view_endtime(st);
    let msg = task_prefix_b() + crate::task_state::status_text_of(st);
    let trailer = log_line(e, msg);
    let tail = prefix + trailer + seq![10u8];
    let ts = rfc3339_text(e);
    assert(!has_byte(msg, 10)) by {
        crate::listinfo::lemma_status_text_clean(st);
        assert forall|i: int| 0 <= i < msg.len() implies msg[i] != 10 by {
            if i >= task_prefix_b().len() {
                assert(msg[i] == crate::task_state::status_text_of(st)[i - task_prefix_b().len()]);
            }
        }
    }
    crate::worker::lemma_log_line_clean(e, msg);
    assert(ts.len() == 20) by {
        crate::timefmt::lemma_decf_seq_len(
            crate::timefmt::civil_from_days(e / 86400).0 as nat,
            4,
        );
        crate::timefmt::lemma_decf_seq_len(
            crate::timefmt::civil_from_days(e / 86400).1 as nat,
            2,
        );
        crate::timefmt::lemma_decf_seq_len(
            crate::timefmt::civil_from_days(e / 86400).2 as nat,
            2,
        );
        crate::timefmt::lemma_decf_seq_len(((e % 86400) / 3600) as nat, 2);
        crate::timefmt::lemma_decf_seq_len((((e % 86400) % 3600) / 60) as nat, 2);
        crate::timefmt::lemma_decf_seq_len(((e % 86400) % 60) as nat, 2);
    }
    assert(trailer.len() == 22 + msg.len());
    assert(trailer.last() != 10 && trailer.len() > 0) by {
        assert(msg.len() > 0);
        assert(trailer.last() == msg.last());
    }
    // Trimming removes exactly the final newline.
    assert(trim_trailing_nl(tail) =~= prefix + trailer) by {
        assert(tail.len() > 0);
        assert(tail.last() == 10);
        assert(trim_trailing_nl(tail) == trim_trailing_nl(tail.drop_last()));
        assert(tail.drop_last() =~= prefix + trailer);
        assert((prefix + trailer).len() > 0);
        assert((prefix + trailer).last() == trailer.last());
        assert(trim_trailing_nl(prefix + trailer) == prefix + trailer);
    }
    // The last line is the trailer.
    lemma_split_last_line(prefix, trailer);
    assert(split_on(trim_trailing_nl(tail), 10).last() == trailer) by {
        assert(trim_trailing_nl(tail) == prefix + trailer);
    }
    let line = trailer;
    // The first ": " stands right after the twenty timestamp bytes.
    assert(find_cs(line) == Some(20int)) by {
        assert(line =~= ts + seq![58u8, 32u8] + msg);
        assert(line[20] == 58 && line[21] == 32);
        assert forall|k: int| 0 <= k < 20 implies !((#[trigger] line[k]) == 58 && line[k + 1] == 32) by {
            assert(line[k] == ts[k]);
            lemma_rfc3339_text_shape(e);
            if k == 13 || k == 16 {
                assert(48 <= ts[k + 1] <= 57);
                assert(line[k + 1] == ts[k + 1]);
            } else {
                assert(ts[k] != 58);
            }
        }
        lemma_find_cs_at(line, 20);
    }
    assert(line.take(20) =~= ts);
    assert(line.skip(22) =~= msg);
    crate::timefmt::lemma_rfc3339_roundtrip(e);
    assert(rfc3339_value(ts) == Some(e));
    assert(starts_with(msg, task_prefix_b())) by {
        assert(msg.subrange(0, task_prefix_b().len() as int) =~= task_prefix_b());
    }
    assert(msg.skip(task_prefix_b().len() as int) =~= crate::task_state::status_text_of(st));
    crate::task_state::lemma_status_roundtrip(st);
}

/// The byte classes of a rendered timestamp: digits everywhere but the
/// fixed delimiters, and a colon only at its two clock positions, each
/// followed by a digit.
proof fn lemma_rfc3339_text_shape(t: int)
    requires
        0 <= t,
    ensures
        ({
            let ts = rfc3339_text(t);
            &&& ts.len() == 20
            &&& forall|k: int|
                0 <= k < 20 && k != 4 && k != 7 && k != 10 && k != 13 && k != 16 && k != 19
                    ==> 48 <= #[trigger] ts[k] <= 57
            &&& ts[4] == 45 && ts[7] == 45 && ts[10] == 84 && ts[13] == 58 && ts[16] == 58
                && ts[19] == 90
        }),
{
    let days = t / 86400;
    let secs = t % 86400;
    let ymd = crate::timefmt::civil_from_days(days);
    let a = crate::timefmt::decf_seq(ymd.0 as nat, 4);
    let b = crate::timefmt::decf_seq(ymd.1 as nat, 2);
    let c = crate::timefmt::decf_seq(ymd.2 as nat, 2);
    let d4 = crate::timefmt::decf_seq((secs / 3600) as nat, 2);
    let e2 = crate::timefmt::decf_seq(((secs % 3600) / 60) as nat, 2);
    let f = crate::timefmt::decf_seq((secs % 60) as nat, 2);
    crate::timefmt::lemma_decf_seq_len(ymd.0 as nat, 4);
    crate::timefmt::lemma_decf_seq_len(ymd.1 as nat, 2);
    crate::timefmt::lemma_decf_seq_len(ymd.2 as nat, 2);
    crate::timefmt::lemma_decf_seq_len((secs / 3600) as nat, 2);
    crate::timefmt::lemma_decf_seq_len(((secs % 3600) / 60) as nat, 2);
    crate::timefmt::lemma_decf_seq_len((secs % 60) as nat, 2);
    crate::worker::lemma_decf_clean(ymd.0 as nat, 4);
    crate::worker::lemma_decf_clean(ymd.1 as nat, 2);
    crate::worker::lemma_decf_clean(ymd.2 as nat, 2);
    crate::worker::lemma_decf_clean((secs / 3600) as nat, 2);
    crate::worker::lemma_decf_clean(((secs % 3600) / 60) as nat, 2);
    crate::worker::lemma_decf_clean((secs % 60) as nat, 2);
    let ts = rfc3339_text(t);
    assert(ts =~= a + seq![45u8] + b + seq![45u8] + c + seq![84u8] + d4 + seq![58u8] + e2 + seq![
        58u8,
    ] + f + seq![90u8]);
    assert forall|k: int|
        0 <= k < 20 && k != 4 && k != 7 && k != 10 && k != 13 && k != 16 && k != 19 implies 48 <= (
    #[trigger] ts[k]) <= 57 by {
        if k < 4 {
            assert(ts[k] == a[k]);
        } else if k < 7 {
            assert(ts[k] == b[k - 5]);
        } else if k < 10 {
            assert(ts[k] == c[k - 8]);
        } else if k < 13 {
            assert(ts[k] == d4[k - 11]);
        } else if k < 16 {
            assert(ts[k] == e2[k - 14]);
        } else {
            assert(ts[k] == f[k - 17]);
        }
    }
}

fn task_prefix() -> (r: Vec<u8>)
    ensures
        r@ == task_prefix_b(),
{
    let mut v: Vec<u8> = Vec::new();
    v.push(84);
    v.push(65);
    v.push(83);
    v.push(75);
    v.push(32);
    proof {
        assert(v@ =~= task_prefix_b());
    }
    v
}

} // verus!
