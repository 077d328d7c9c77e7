//! The live handle of one worker task, and the process-wide registry of
//! running tasks.
//!
//! A task is created, runs while appending to its log, and finishes with an
//! outcome derived from how it ended: an error message if one was supplied,
//! else a warning count if any warning was logged, else success.
//! Cancellation is cooperative: requesting an abort sets a flag the task
//! body polls, fires every registered abort listener, and logs the request
//! notice exactly once; a listener registered after the flag is already set
//! resolves immediately instead of being queued, so no wakeup is lost.

use vstd::prelude::*;
use crate::upid::UPID;
use crate::task_state::{TaskState, TaskStateView, status_wf};
use crate::task_log::{log_line, render_log_line};
use crate::bytes::has_byte;

verus! {

pub open spec fn warn_prefix_b() -> Seq<u8> {
    seq![87u8, 65u8, 82u8, 78u8, 58u8, 32u8]
}

/// The notice logged when an abort is first requested.
pub open spec fn abort_notice_b() -> Seq<u8> {
    seq![
        114u8, 101u8, 99u8, 101u8, 105u8, 118u8, 101u8, 100u8, 32u8, 97u8, 98u8, 111u8, 114u8,
        116u8, 32u8, 114u8, 101u8, 113u8, 117u8, 101u8, 115u8, 116u8, 32u8, 46u8, 46u8, 46u8,
    ]
}

/// The live handle of one running worker task.
pub struct WorkerTask {
    /// The task's identity; immutable once created.
    pub upid: UPID,
    /// The log lines written so far, newline-free and in order.
    pub log: Vec<Vec<u8>>,
    /// How many warnings were logged.
    pub warn_count: u64,
    /// Progress in parts per million, between zero and one million.
    pub progress_ppm: u32,
    /// Whether an abort was requested; cheap to poll.
    pub abort_requested: bool,
    /// Handles of the abort listeners not yet fired.
    pub abort_listeners: Vec<u64>,
}

impl WorkerTask {
    pub open spec fn wf(&self) -> bool {
        &&& self.upid.wf()
        &&& self.progress_ppm <= 1_000_000
        &&& forall|i: int| 0 <= i < self.log@.len() ==> !has_byte((#[trigger] self.log@[i])@, 10)
    }

    /// A fresh handle for `upid`: empty log, no warnings, no progress, no
    /// abort requested, no listeners.
    pub fn new(upid: UPID) -> (w: WorkerTask)
        requires
            upid.wf(),
        ensures
            w.wf(),
            w.upid == upid,
            w.log@.len() == 0,
            w.warn_count == 0,
            w.progress_ppm == 0,
            !w.abort_requested,
            w.abort_listeners@.len() == 0,
    {
        WorkerTask {
            upid,
            log: Vec::new(),
            warn_count: 0,
            progress_ppm: 0,
            abort_requested: false,
            abort_listeners: Vec::new(),
        }
    }

    /// Append one timestamped message line.
    pub fn log_message(&mut self, now: i64, msg: &[u8])
        requires
            old(self).wf(),
            0 <= now < 0x1_0000_0000,
            !has_byte(msg@, 10),
        ensures
            final(self).wf(),
            final(self).log@.len() == old(self).log@.len() + 1,
            final(self).log@.last()@ == log_line(now as int, msg@),
            forall|i: int|
                0 <= i < old(self).log@.len() ==> final(self).log@[i] == old(self).log@[i],
            final(self).upid == old(self).upid,
            final(self).warn_count == old(self).warn_count,
            final(self).progress_ppm == old(self).progress_ppm,
            final(self).abort_requested == old(self).abort_requested,
            final(self).abort_listeners == old(self).abort_listeners,
    {
        let line = render_log_line(now, msg);
        proof {
            lemma_log_line_clean(now as int, msg@);
        }
        self.log.push(line);
    }

    /// Append a warning line, tagged `WARN: `, and count it; the counter
    /// saturates rather than wrap.
    pub fn log_warning(&mut self, now: i64, msg: &[u8])
        requires
            old(self).wf(),
            0 <= now < 0x1_0000_0000,
            !has_byte(msg@, 10),
        ensures
            final(self).wf(),
            final(self).log@.len() == old(self).log@.len() + 1,
            final(self).log@.last()@ == log_line(now as int, warn_prefix_b() + msg@),
            forall|i: int|
                0 <= i < old(self).log@.len() ==> final(self).log@[i] == old(self).log@[i],
            final(self).warn_count == if old(self).warn_count < u64::MAX {
                old(self).warn_count + 1
            } else {
                old(self).warn_count as int
            },
            final(self).upid == old(self).upid,
            final(self).progress_ppm == old(self).progress_ppm,
            final(self).abort_requested == old(self).abort_requested,
            final(self).abort_listeners == old(self).abort_listeners,
    {
        let mut tagged: Vec<u8> = Vec::new();
        tagged.push(87);
        tagged.push(65);
        tagged.push(82);
        tagged.push(78);
        tagged.push(58);
        tagged.push(32);
        tagged.extend_from_slice(msg);
        proof {
            assert(tagged@ =~= warn_prefix_b() + msg@);
            assert(!has_byte(tagged@, 10)) by {
                assert forall|i: int| 0 <= i < tagged@.len() implies tagged@[i] != 10 by {
                    if i >= 6 {
                        assert(tagged@[i] == msg@[i - 6]);
                    }
                }
            }
        }
        let line = render_log_line(now, tagged.as_slice());
        proof {
            lemma_log_line_clean(now as int, tagged@);
        }
        self.log.push(line);
        if self.warn_count < u64::MAX {
            self.warn_count = self.warn_count + 1;
        }
    }

    /// Record a progress fraction, in parts per million; values above one
    /// million are a monitoring hint out of range and are ignored.
    pub fn progress(&mut self, ppm: u32)
        requires
            old(self).wf(),
        ensures
            final(self).wf(),
            final(self).progress_ppm == if ppm <= 1_000_000 {
                ppm
            } else {
                old(self).progress_ppm
            },
            final(self).upid == old(self).upid,
            final(self).log == old(self).log,
            final(self).warn_count == old(self).warn_count,
            final(self).abort_requested == old(self).abort_requested,
            final(self).abort_listeners == old(self).abort_listeners,
    {
        if ppm <= 1_000_000 {
            self.progress_ppm = ppm;
        }
    }

    /// Request an abort.  The flag is set idempotently and the request
    /// notice is logged only on the first call; every pending listener is
    /// handed back to be fired and the pending list is left empty.
    pub fn request_abort(&mut self, now: i64) -> (fired: Vec<u64>)
        requires
            old(self).wf(),
            0 <= now < 0x1_0000_0000,
        ensures
            final(self).wf(),
            final(self).abort_requested,
            !old(self).abort_requested ==> final(self).log@.len() == old(self).log@.len() + 1
                && final(self).log@.last()@ == log_line(now as int, abort_notice_b()) && forall|
                i: int,
            |
                0 <= i < old(self).log@.len() ==> final(self).log@[i] == old(self).log@[i],
            old(self).abort_requested ==> final(self).log == old(self).log,
            fired == old(self).abort_listeners,
            final(self).abort_listeners@.len() == 0,
            final(self).upid == old(self).upid,
            final(self).warn_count == old(self).warn_count,
            final(self).progress_ppm == old(self).progress_ppm,
    {
        if !self.abort_requested {
            self.abort_requested = true;
            let notice = abort_notice();
            let line = render_log_line(now, notice.as_slice());
            proof {
                lemma_log_line_clean(now as int, notice@);
            }
            self.log.push(line);
        }
        let mut fired: Vec<u64> = Vec::new();
        core::mem::swap(&mut self.abort_listeners, &mut fired);
        fired
    }

    /// Register an abort listener.  When the abort flag is already set the
    /// listener is resolved immediately — the caller fires it now — instead
    /// of being queued, so a listener registered after the request can never
    /// miss its wakeup.
    pub fn register_abort_listener(&mut self, id: u64) -> (immediate: bool)
        requires
            old(self).wf(),
        ensures
            final(self).wf(),
            immediate == old(self).abort_requested,
            !immediate ==> final(self).abort_listeners@ == old(self).abort_listeners@.push(id),
            immediate ==> final(self).abort_listeners == old(self).abort_listeners,
            final(self).upid == old(self).upid,
            final(self).log == old(self).log,
            final(self).warn_count == old(self).warn_count,
            final(self).progress_ppm == old(self).progress_ppm,
            final(self).abort_requested == old(self).abort_requested,
    {
        if self.abort_requested {
            true
        } else {
            self.abort_listeners.push(id);
            false
        }
    }

    /// The outcome of a finished task: the error message when one was
    /// supplied, else its warnings, else success.
    pub fn create_state(&self, error: Option<&Vec<u8>>, now: i64) -> (st: TaskState)
        requires
            self.wf(),
            0 <= now < 0x1_0000_0000,
            match error {
                Some(m) => m@.len() > 0 && !has_byte(m@, 10),
                None => true,
            },
        ensures
            st@ == match error {
                Some(m) => TaskStateView::Error { message: m@, endtime: now as int },
                None => if self.warn_count > 0 {
                    TaskStateView::Warning { count: self.warn_count as nat, endtime: now as int }
                } else {
                    TaskStateView::OK { endtime: now as int }
                },
            },
            status_wf(st@),
    {
        match error {
            Some(m) => {
                let message = crate::bytes::sub_vec(m.as_slice(), 0, m.len());
                proof {
                    assert(message@ =~= m@);
                }
                TaskState::Error { message, endtime: now }
            },
            None => {
                if self.warn_count > 0 {
                    TaskState::Warning { count: self.warn_count, endtime: now }
                } else {
                    TaskState::OK { endtime: now }
                }
            },
        }
    }

    /// Finish the task: derive its outcome, append the result trailer to
    /// the log, and hand the outcome back for consolidation.
    pub fn log_result(&mut self, error: Option<&Vec<u8>>, now: i64) -> (st: TaskState)
        requires
            old(self).wf(),
            0 <= now < 0x1_0000_0000,
            match error {
                Some(m) => m@.len() > 0 && !has_byte(m@, 10),
                None => true,
            },
        ensures
            final(self).wf(),
            st@ == match error {
                Some(m) => TaskStateView::Error { message: m@, endtime: now as int },
                None => if old(self).warn_count > 0 {
                    TaskStateView::Warning {
                        count: old(self).warn_count as nat,
                        endtime: now as int,
                    }
                } else {
                    TaskStateView::OK { endtime: now as int }
                },
            },
            status_wf(st@),
            final(self).log@.len() == old(self).log@.len() + 1,
            final(self).log@.last()@ == log_line(
                now as int,
                crate::task_state::task_prefix_b() + crate::task_state::status_text_of(st@),
            ),
            forall|i: int|
                0 <= i < old(self).log@.len() ==> final(self).log@[i] == old(self).log@[i],
            final(self).upid == old(self).upid,
    {
        let st = self.create_state(error, now);
        let text = st.result_text();
        proof {
            crate::listinfo::lemma_status_text_clean(st@);
            assert(!has_byte(text@, 10)) by {
                let p = crate::task_state::task_prefix_b();
                let body = crate::task_state::status_text_of(st@);
                assert forall|i: int| 0 <= i < text@.len() implies text@[i] != 10 by {
                    if i < p.len() {
                        assert(text@[i] == p[i]);
                    } else {
                        assert(text@[i] == body[i - p.len()]);
                    }
                }
            }
        }
        let line = render_log_line(now, text.as_slice());
        proof {
            lemma_log_line_clean(now as int, text@);
        }
        self.log.push(line);
        st
    }
}

/// A rendered log line holds no newline when its message holds none.
pub proof fn lemma_log_line_clean(t: int, msg: Seq<u8>)
    requires
        !has_byte(msg, 10),
        0 <= t,
    ensures
        !has_byte(log_line(t, msg), 10),
{
    let s = log_line(t, msg);
    let ts = crate::timefmt::rfc3339_text(t);
    lemma_rfc3339_clean(t);
    assert forall|i: int| 0 <= i < s.len() implies s[i] != 10 by {
        if i < ts.len() {
            assert(s[i] == ts[i]);
        } else if i < ts.len() + 2 {
            assert(s[i] == seq![58u8, 32u8][i - ts.len()]);
        } else {
            assert(s[i] == msg[i - ts.len() - 2]);
        }
    }
}

/// A rendered timestamp holds only digits and delimiters, never a newline.
pub proof fn lemma_rfc3339_clean(t: int)
    requires
        0 <= t,
    ensures
        !has_byte(crate::timefmt::rfc3339_text(t), 10),
{
    let s = crate::timefmt::rfc3339_text(t);
    let days = t / 86400;
    let secs = t % 86400;
    let ymd = crate::timefmt::civil_from_days(days);
    lemma_decf_clean(ymd.0 as nat, 4);
    lemma_decf_clean(ymd.1 as nat, 2);
    lemma_decf_clean(ymd.2 as nat, 2);
    lemma_decf_clean((secs / 3600) as nat, 2);
    lemma_decf_clean(((secs % 3600) / 60) as nat, 2);
    lemma_decf_clean((secs % 60) as nat, 2);
    let a = crate::timefmt::decf_seq(ymd.0 as nat, 4);
    let b = crate::timefmt::decf_seq(ymd.1 as nat, 2);
    let c = crate::timefmt::decf_seq(ymd.2 as nat, 2);
    let d = crate::timefmt::decf_seq((secs / 3600) as nat, 2);
    let e = crate::timefmt::decf_seq(((secs % 3600) / 60) as nat, 2);
    let f = crate::timefmt::decf_seq((secs % 60) as nat, 2);
    assert forall|i: int| 0 <= i < s.len() implies s[i] != 10 by {
        if i < a.len() {
            assert(s[i] == a[i]);
        } else if i == a.len() {
        } else if i < a.len() + 1 + b.len() {
            assert(s[i] == b[i - a.len() - 1]);
        } else if i == a.len() + 1 + b.len() {
        } else if i < a.len() + 2 + b.len() + c.len() {
            assert(s[i] == c[i - a.len() - b.len() - 2]);
        } else if i == a.len() + 2 + b.len() + c.len() {
        } else if i < a.len() + 3 + b.len() + c.len() + d.len() {
            assert(s[i] == d[i - a.len() - b.len() - c.len() - 3]);
        } else if i == a.len() + 3 + b.len() + c.len() + d.len() {
        } else if i < a.len() + 4 + b.len() + c.len() + d.len() + e.len() {
            assert(s[i] == e[i - a.len() - b.len() - c.len() - d.len() - 4]);
        } else if i == a.len() + 4 + b.len() + c.len() + d.len() + e.len() {
        } else if i < a.len() + 5 + b.len() + c.len() + d.len() + e.len() + f.len() {
            assert(s[i] == f[i - a.len() - b.len() - c.len() - d.len() - e.len() - 5]);
        } else {
        }
    }
}

/// Every byte of a fixed-width decimal rendering is a digit.
pub proof fn lemma_decf_clean(v: nat, w: nat)
    ensures
        forall|i: int|
            0 <= i < crate::timefmt::decf_seq(v, w).len() ==> 48 <= #[trigger] crate::timefmt::decf_seq(
                v,
                w,
            )[i] <= 57,
    decreases w,
{
    if w > 0 {
        lemma_decf_clean(v / 10, (w - 1) as nat);
        let s = crate::timefmt::decf_seq(v, w);
        let prev = crate::timefmt::decf_seq(v / 10, (w - 1) as nat);
        assert forall|i: int| 0 <= i < s.len() implies 48 <= #[trigger] s[i] <= 57 by {
            if i < prev.len() {
                assert(s[i] == prev[i]);
            }
        }
    }
}

fn abort_notice() -> (r: Vec<u8>)
    ensures
        r@ == abort_notice_b(),
{
    let mut v: Vec<u8> = Vec::new();
    v.push(114);
    v.push(101);
    v.push(99);
    v.push(101);
    v.push(105);
    v.push(118);
    v.push(101);
    v.push(100);
    v.push(32);
    v.push(97);
    v.push(98);
    v.push(111);
    v.push(114);
    v.push(116);
    v.push(32);
    v.push(114);
    v.push(101);
    v.push(113);
    v.push(117);
    v.push(101);
    v.push(115);
    v.push(116);
    v.push(32);
    v.push(46);
    v.push(46);
    v.push(46);
    proof {
        assert(v@ =~= abort_notice_b());
    }
    v
}

/// How one task changes when an abort is requested of it at `now`: the flag
/// is set, the pending listeners are emptied, the request notice is logged
/// exactly when the flag was not yet set, and everything else is kept.
pub open spec fn task_aborted(before: WorkerTask, after: WorkerTask, now: int) -> bool {
    &&& after.upid == before.upid
    &&& after.abort_requested
    &&& after.abort_listeners@.len() == 0
    &&& after.warn_count == before.warn_count
    &&& after.progress_ppm == before.progress_ppm
    &&& if before.abort_requested {
        after.log == before.log
    } else {
        after.log@.len() == before.log@.len() + 1 && after.log@.last()@ == log_line(
            now,
            abort_notice_b(),
        ) && forall|i: int| 0 <= i < before.log@.len() ==> after.log@[i] == before.log@[i]
    }
}

/// The process-wide registry of running tasks: the only place that knows a
/// task is running in this process.
pub struct TaskRegistry {
    /// The running tasks.
    pub tasks: Vec<WorkerTask>,
    /// The next per-process task number to hand out.
    pub next_task_id: u64,
}

pub open spec fn registry_has(tasks: Seq<WorkerTask>, task_id: nat) -> bool {
    exists|i: int| 0 <= i < tasks.len() && (#[trigger] tasks[i]).upid.task_id as nat == task_id
}

impl TaskRegistry {
    pub open spec fn wf(&self) -> bool {
        &&& forall|i: int, j: int|
            0 <= i < j < self.tasks@.len() ==> (#[trigger] self.tasks@[i]).upid.task_id != (
            #[trigger] self.tasks@[j]).upid.task_id
        &&& forall|i: int| 0 <= i < self.tasks@.len() ==> (#[trigger] self.tasks@[i]).wf()
    }

    /// An empty registry; task numbers start at one.
    pub fn new() -> (r: TaskRegistry)
        ensures
            r.wf(),
            r.tasks@.len() == 0,
            r.next_task_id == 1,
    {
        TaskRegistry { tasks: Vec::new(), next_task_id: 1 }
    }

    /// Hand out the next per-process task number.
    pub fn allocate_task_id(&mut self) -> (id: u64)
        requires
            old(self).wf(),
            old(self).next_task_id < u64::MAX,
        ensures
            final(self).wf(),
            id == old(self).next_task_id,
            final(self).next_task_id == old(self).next_task_id + 1,
            final(self).tasks == old(self).tasks,
    {
        let id = self.next_task_id;
        self.next_task_id = self.next_task_id + 1;
        id
    }

    /// Whether a task with this number is running in this process.
    pub fn contains(&self, task_id: u64) -> (r: bool)
        ensures
            r == registry_has(self.tasks@, task_id as nat),
    {
        let mut i: usize = 0;
        while i < self.tasks.len()
            invariant
                i <= self.tasks@.len(),
                forall|k: int|
                    0 <= k < i ==> (#[trigger] self.tasks@[k]).upid.task_id != task_id,
            decreases self.tasks@.len() - i,
        {
            if self.tasks[i].upid.task_id == task_id {
                return true;
            }
            i += 1;
        }
        false
    }

    /// Insert a freshly created task.
    pub fn insert(&mut self, task: WorkerTask)
        requires
            old(self).wf(),
            task.wf(),
            !registry_has(old(self).tasks@, task.upid.task_id as nat),
        ensures
            final(self).wf(),
            final(self).tasks@ == old(self).tasks@.push(task),
            final(self).next_task_id == old(self).next_task_id,
    {
        self.tasks.push(task);
    }

    /// Remove a finished task from the registry; the task's on-disk record
    /// is consolidation's business, not the registry's.
    pub fn remove(&mut self, task_id: u64) -> (r: Option<WorkerTask>)
        requires
            old(self).wf(),
        ensures
            final(self).wf(),
            final(self).next_task_id == old(self).next_task_id,
            match r {
                Some(t) => exists|i: int|
                    #![auto]
                    0 <= i < old(self).tasks@.len() && old(self).tasks@[i].upid.task_id == task_id
                        && t == old(self).tasks@[i] && final(self).tasks@ == old(self).tasks@.remove(i) && !registry_has(final(self).tasks@, task_id as nat),
                None => !registry_has(old(self).tasks@, task_id as nat) && final(self).tasks
                    == old(self).tasks,
            },
    {
        let mut i: usize = 0;
        while i < self.tasks.len()
            invariant
                i <= self.tasks@.len(),
                self.tasks == old(self).tasks,
                self.next_task_id == old(self).next_task_id,
                forall|k: int|
                    0 <= k < i ==> (#[trigger] self.tasks@[k]).upid.task_id != task_id,
                old(self).wf(),
            decreases self.tasks@.len() - i,
        {
            if self.tasks[i].upid.task_id == task_id {
                let t = self.tasks.remove(i);
                proof {
                    assert(t.upid.task_id == task_id);
                    assert(t == old(self).tasks@[i as int]);
                    assert(self.tasks@ == old(self).tasks@.remove(i as int));
                    assert forall|a: int, b: int|
                        0 <= a < b < self.tasks@.len() implies (
                    #[trigger] self.tasks@[a]).upid.task_id != (
                    #[trigger] self.tasks@[b]).upid.task_id by {
                        let oa = if a < i {
                            a
                        } else {
                            a + 1
                        };
                        let ob = if b < i {
                            b
                        } else {
                            b + 1
                        };
                        assert(self.tasks@[a] == old(self).tasks@[oa]);
                        assert(self.tasks@[b] == old(self).tasks@[ob]);
                    }
                    assert forall|k: int| 0 <= k < self.tasks@.len() implies (
                    #[trigger] self.tasks@[k]).wf() by {
                        let ok = if k < i {
                            k
                        } else {
                            k + 1
                        };
                        assert(self.tasks@[k] == old(self).tasks@[ok]);
                    }
                    assert(!registry_has(self.tasks@, task_id as nat)) by {
                        if registry_has(self.tasks@, task_id as nat) {
                            let k = choose|k: int|
                                0 <= k < self.tasks@.len() && (
                                #[trigger] self.tasks@[k]).upid.task_id as nat == task_id as nat;
                            let ok = if k < i {
                                k
                            } else {
                                k + 1
                            };
                            assert(self.tasks@[k] == old(self).tasks@[ok]);
                            assert(old(self).tasks@[ok].upid.task_id == old(self).tasks@[i as int].upid.task_id);
                        }
                    }
                }
                return Some(t);
            }
            i += 1;
        }
        None
    }

    /// Request an abort of a local task: when a task with this number is
    /// running, its abort flag is set, its pending listeners are handed
    /// back to be fired, and the request notice is logged exactly when the
    /// flag was not already set; no other task changes.  When no such task
    /// is running, nothing changes.
    pub fn request_abort_by_id(&mut self, task_id: u64, now: i64) -> (r: Option<Vec<u64>>)
        requires
            old(self).wf(),
            0 <= now < 0x1_0000_0000,
        ensures
            final(self).wf(),
            final(self).next_task_id == old(self).next_task_id,
            match r {
                Some(fired) => exists|i: int|
                    #![auto]
                    0 <= i < old(self).tasks@.len() && old(self).tasks@[i].upid.task_id == task_id
                        && fired == old(self).tasks@[i].abort_listeners && final(self).tasks@.len() == old(self).tasks@.len() && (forall|k: int|
                        0 <= k < old(self).tasks@.len() && k != i ==> final(self).tasks@[k] == old(self).tasks@[k]) && task_aborted(
                        old(self).tasks@[i],
                        final(self).tasks@[i],
                        now as int,
                    ),
                None => !registry_has(old(self).tasks@, task_id as nat) && final(self).tasks
                    == old(self).tasks,
            },
    {
        let mut i: usize = 0;
        while i < self.tasks.len()
            invariant
                i <= self.tasks@.len(),
                self.tasks == old(self).tasks,
                self.next_task_id == old(self).next_task_id,
                0 <= now < 0x1_0000_0000,
                forall|k: int|
                    0 <= k < i ==> (#[trigger] self.tasks@[k]).upid.task_id != task_id,
                old(self).wf(),
            decreases self.tasks@.len() - i,
        {
            if self.tasks[i].upid.task_id == task_id {
                let mut t = self.tasks.remove(i);
                proof {
                    assert(t == old(self).tasks@[i as int]);
                }
                let fired = t.request_abort(now);
                let ghost t_after = t;
                self.tasks.insert(i, t);
                proof {
                    assert(fired == old(self).tasks@[i as int].abort_listeners);
                    assert(task_aborted(old(self).tasks@[i as int], t_after, now as int));
                    assert(self.tasks@[i as int] == t_after);
                    assert forall|k: int|
                        0 <= k < old(self).tasks@.len() && k != i implies self.tasks@[k] == old(self).tasks@[k] by {}
                    assert forall|a: int, b: int|
                        0 <= a < b < self.tasks@.len() implies (
                    #[trigger] self.tasks@[a]).upid.task_id != (
                    #[trigger] self.tasks@[b]).upid.task_id by {
                        assert(self.tasks@[a] == if a == i {
                            t_after
                        } else {
                            old(self).tasks@[a]
                        });
                        assert(self.tasks@[b] == if b == i {
                            t_after
                        } else {
                            old(self).tasks@[b]
                        });
                    }
                    assert forall|k: int| 0 <= k < self.tasks@.len() implies (
                    #[trigger] self.tasks@[k]).wf() by {
                        assert(self.tasks@[k] == if k == i {
                            t_after
                        } else {
                            old(self).tasks@[k]
                        });
                    }
                }
                return Some(fired);
            }
            i += 1;
        }
        None
    }
}

/// The verdict of a liveness query about another process's task: active
/// only when the owning process still exists and its registry answered
/// yes.  A vanished process, or a control channel that could not answer,
/// is conclusive evidence the task stopped, never an error.
pub fn remote_liveness_verdict(process_exists: bool, owner_answer: Option<bool>) -> (r: bool)
    ensures
        r == (process_exists && match owner_answer {
            Some(a) => a,
            None => false,
        }),
{
    process_exists && match owner_answer {
        Some(a) => a,
        None => false,
    }
}

/// Whether an identity belongs to this very process incarnation.
pub fn is_local_worker(upid: &UPID, own_pid: u32, own_pstart: u64) -> (r: bool)
    ensures
        r == (upid.pid == own_pid && upid.pstart == own_pstart),
{
    upid.pid == own_pid && upid.pstart == own_pstart
}

/// The part of a liveness query this process can answer by itself: for its
/// own identity the registry is authoritative; for a foreign one the caller
/// must ask the owning process, or observe that no such process exists.
pub fn local_task_active(
    registry: &TaskRegistry,
    upid: &UPID,
    own_pid: u32,
    own_pstart: u64,
) -> (r: Option<bool>)
    ensures
        (upid.pid == own_pid && upid.pstart == own_pstart) ==> r == Some(
            registry_has(registry.tasks@, upid.task_id as nat),
        ),
        !(upid.pid == own_pid && upid.pstart == own_pstart) ==> r is None,
{
    if is_local_worker(upid, own_pid, own_pstart) {
        Some(registry.contains(upid.task_id))
    } else {
        None
    }
}

} // verus!
