//! The persistent task store and its consolidation protocol, modelled on the
//! contents of the files it keeps: the active list, the archive generations
//! (newest first) and the legacy index.
//!
//! Consolidation partitions the active rows into still-running and
//! now-finished, rewrites the active list from the still-running set, and
//! appends the finished rows, sorted by ascending endtime with start time as
//! tie-break, to the newest archive generation.  Reading the files, deciding
//! which owning processes are still alive and recovering an outcome from a
//! dead task's log are the caller's part; they are handed in as plain values.

use vstd::prelude::*;
use crate::task_state::{TaskState, TaskStateView, status_wf, view_endtime};
use crate::listinfo::{TaskListInfo, TaskListInfoView, info_wf, all_wf, views_of, file_text,
    file_parse, render_task_list, read_task_file, line_parse};
use crate::bytes::split_on;
use vstd::multiset::Multiset;

verus! {

/// What the caller learned about one active row: whether the owning process
/// is still alive, and, if it is not, the outcome recovered from the task's
/// own log (`None` when no trailer could be read).
pub struct RowCheck {
    pub alive: bool,
    pub recovered: Option<TaskState>,
}

#[verifier::ext_equal]
pub ghost struct RowCheckView {
    pub alive: bool,
    pub recovered: Option<TaskStateView>,
}

impl View for RowCheck {
    type V = RowCheckView;

    open spec fn view(&self) -> RowCheckView {
        RowCheckView {
            alive: self.alive,
            recovered: match self.recovered {
                Some(ref st) => Some(st@),
                None => None,
            },
        }
    }
}

pub open spec fn checks_wf(checks: Seq<RowCheck>) -> bool {
    forall|i: int| 0 <= i < checks.len() ==> match (#[trigger] checks[i])@.recovered {
        Some(st) => status_wf(st),
        None => true,
    }
}

/// The row recorded for a task whose owner died: its recovered outcome, or
/// `Unknown` at the present time when the log gave none.
pub open spec fn finished_row(r: TaskListInfoView, c: RowCheckView, now: int) -> TaskListInfoView {
    TaskListInfoView {
        upid: r.upid,
        upid_str: r.upid_str,
        state: Some(
            match c.recovered {
                Some(st) => st,
                None => TaskStateView::Unknown { endtime: now },
            },
        ),
    }
}

/// Partition the active rows: a row already carrying a status is finished
/// outright; a row whose owner is dead is finished with its recovered
/// outcome; the rest are still running.  Order is kept on both sides.
pub open spec fn split_rows(active: Seq<TaskListInfoView>, checks: Seq<RowCheck>, now: int) -> (
    Seq<TaskListInfoView>,
    Seq<TaskListInfoView>,
)
    decreases active.len(),
{
    if active.len() == 0 {
        (Seq::<TaskListInfoView>::empty(), Seq::<TaskListInfoView>::empty())
    } else {
        let rest = split_rows(active.drop_first(), checks.drop_first(), now);
        let r = active[0];
        let c = checks[0]@;
        if r.state is Some {
            (rest.0, seq![r] + rest.1)
        } else if !c.alive {
            (rest.0, seq![finished_row(r, c, now)] + rest.1)
        } else {
            (seq![r] + rest.0, rest.1)
        }
    }
}

/// Sort key: finished rows order by endtime, a row without a status sorts
/// after every dated one, and equal endtimes fall back to the start time.
pub open spec fn key_end(v: TaskListInfoView) -> int {
    match v.state {
        Some(st) => view_endtime(st),
        None => 0x1_0000_0000,
    }
}

pub open spec fn row_le(a: TaskListInfoView, b: TaskListInfoView) -> bool {
    key_end(a) < key_end(b) || (key_end(a) == key_end(b) && a.upid.starttime <= b.upid.starttime)
}

/// The archive order is total: any two rows compare, the comparison is
/// reflexive and transitive, so sorting by it is meaningful.
pub proof fn lemma_row_le_total(a: TaskListInfoView, b: TaskListInfoView, c: TaskListInfoView)
    ensures
        row_le(a, a),
        row_le(a, b) || row_le(b, a),
        row_le(a, b) && row_le(b, c) ==> row_le(a, c),
{
}

pub open spec fn rows_sorted(s: Seq<TaskListInfoView>) -> bool {
    forall|i: int, j: int| 0 <= i < j < s.len() ==> row_le(#[trigger] s[i], #[trigger] s[j])
}

/// Insert `v` after every element that sorts at or before it.
pub open spec fn insert_row(s: Seq<TaskListInfoView>, v: TaskListInfoView) -> Seq<TaskListInfoView>
    decreases s.len(),
{
    if s.len() == 0 {
        seq![v]
    } else if row_le(s[0], v) {
        seq![s[0]] + insert_row(s.drop_first(), v)
    } else {
        seq![v] + s
    }
}

/// Stable insertion sort by [`row_le`].
pub open spec fn sort_rows(s: Seq<TaskListInfoView>) -> Seq<TaskListInfoView>
    decreases s.len(),
{
    if s.len() == 0 {
        Seq::<TaskListInfoView>::empty()
    } else {
        insert_row(sort_rows(s.drop_last()), s.last())
    }
}

pub proof fn lemma_insert_row_props(s: Seq<TaskListInfoView>, v: TaskListInfoView)
    requires
        rows_sorted(s),
    ensures
        rows_sorted(insert_row(s, v)),
        insert_row(s, v).len() == s.len() + 1,
        insert_row(s, v).to_multiset() == s.to_multiset().insert(v),
        all_wf(s) && info_wf(v) ==> all_wf(insert_row(s, v)),
    decreases s.len(),
{
    broadcast use vstd::seq_lib::group_to_multiset_ensures;

    let out = insert_row(s, v);
    if s.len() == 0 {
        assert(out =~= seq![v]);
        assert(out.to_multiset() =~= s.to_multiset().insert(v)) by {
            assert(out.drop_first() =~= Seq::<TaskListInfoView>::empty());
        }
        assert(all_wf(s) && info_wf(v) ==> all_wf(out));
    } else if row_le(s[0], v) {
        assert(rows_sorted(s.drop_first())) by {
            assert forall|i: int, j: int|
                0 <= i < j < s.drop_first().len() implies row_le(
                s.drop_first()[i],
                s.drop_first()[j],
            ) by {
                assert(s.drop_first()[i] == s[i + 1] && s.drop_first()[j] == s[j + 1]);
            }
        }
        lemma_insert_row_props(s.drop_first(), v);
        let inner = insert_row(s.drop_first(), v);
        assert(out =~= seq![s[0]] + inner);
        // s[0] sorts at or before everything in `inner`: before the old tail
        // because `s` was sorted, and before `v` by the branch condition.
        assert forall|i: int, j: int| 0 <= i < j < out.len() implies row_le(out[i], out[j]) by {
            if i == 0 {
                assert(out[j] == inner[j - 1]);
                assert(inner.to_multiset().contains(inner[j - 1]));
                assert(s.drop_first().to_multiset().insert(v).contains(inner[j - 1]));
                if s.drop_first().to_multiset().contains(inner[j - 1]) {
                    let k = choose|k: int|
                        0 <= k < s.drop_first().len() && s.drop_first()[k] == inner[j - 1];
                    assert(s[k + 1] == inner[j - 1]);
                    assert(row_le(s[0], s[k + 1]));
                } else {
                    assert(inner[j - 1] == v);
                }
            } else {
                assert(out[i] == inner[i - 1] && out[j] == inner[j - 1]);
            }
        }
        assert(out.to_multiset() =~= s.to_multiset().insert(v)) by {
            assert(s =~= seq![s[0]] + s.drop_first());
            assert(s.to_multiset() =~= seq![s[0]].to_multiset().add(
                s.drop_first().to_multiset(),
            )) by {
                vstd::seq_lib::lemma_multiset_commutative(seq![s[0]], s.drop_first());
            }
            assert(out.to_multiset() =~= seq![s[0]].to_multiset().add(inner.to_multiset())) by {
                vstd::seq_lib::lemma_multiset_commutative(seq![s[0]], inner);
            }
        }
        assert(all_wf(s) && info_wf(v) ==> all_wf(out)) by {
            if all_wf(s) && info_wf(v) {
                assert(all_wf(s.drop_first())) by {
                    assert forall|i: int| 0 <= i < s.drop_first().len() implies info_wf(
                        s.drop_first()[i],
                    ) by {
                        assert(s.drop_first()[i] == s[i + 1]);
                    }
                }
                assert forall|i: int| 0 <= i < out.len() implies info_wf(out[i]) by {
                    if i > 0 {
                        assert(out[i] == inner[i - 1]);
                    }
                }
            }
        }
    } else {
        assert(out =~= seq![v] + s);
        assert forall|i: int, j: int| 0 <= i < j < out.len() implies row_le(out[i], out[j]) by {
            if i == 0 {
                assert(out[j] == s[j - 1]);
                if j == 1 {
                    assert(row_le(v, s[0]));
                } else {
                    assert(row_le(s[0], s[j - 1]));
                    assert(row_le(v, s[0]));
                }
            } else {
                assert(out[i] == s[i - 1] && out[j] == s[j - 1]);
            }
        }
        assert(out.to_multiset() =~= s.to_multiset().insert(v)) by {
            vstd::seq_lib::lemma_multiset_commutative(seq![v], s);
            assert(seq![v].to_multiset() =~= Multiset::<TaskListInfoView>::empty().insert(v)) by {
                assert(seq![v].drop_first() =~= Seq::<TaskListInfoView>::empty());
            }
        }
        assert(all_wf(s) && info_wf(v) ==> all_wf(out)) by {
            if all_wf(s) && info_wf(v) {
                assert forall|i: int| 0 <= i < out.len() implies info_wf(out[i]) by {
                    if i > 0 {
                        assert(out[i] == s[i - 1]);
                    }
                }
            }
        }
    }
}

/// The sorted rows are a permutation of the input, kept well-formed and
/// non-decreasing in endtime.
pub proof fn lemma_sort_rows_props(s: Seq<TaskListInfoView>)
    ensures
        rows_sorted(sort_rows(s)),
        sort_rows(s).len() == s.len(),
        sort_rows(s).to_multiset() == s.to_multiset(),
        all_wf(s) ==> all_wf(sort_rows(s)),
    decreases s.len(),
{
    broadcast use vstd::seq_lib::group_to_multiset_ensures;

    if s.len() == 0 {
    } else {
        let prefix = s.drop_last();
        lemma_sort_rows_props(prefix);
        assert(all_wf(s) ==> all_wf(prefix) && info_wf(s.last())) by {
            if all_wf(s) {
                assert forall|i: int| 0 <= i < prefix.len() implies info_wf(prefix[i]) by {
                    assert(prefix[i] == s[i]);
                }
            }
        }
        lemma_insert_row_props(sort_rows(prefix), s.last());
        assert(s =~= prefix.push(s.last()));
        assert(s.to_multiset() =~= prefix.to_multiset().insert(s.last()));
    }
}

/// `insert_row` places the element at the first position whose occupant does
/// not sort at or before it.
pub proof fn lemma_insert_row_at(s: Seq<TaskListInfoView>, v: TaskListInfoView, pos: int)
    requires
        0 <= pos <= s.len(),
        forall|k: int| 0 <= k < pos ==> row_le(#[trigger] s[k], v),
        pos < s.len() ==> !row_le(s[pos], v),
    ensures
        insert_row(s, v) == s.take(pos) + seq![v] + s.skip(pos),
    decreases s.len(),
{
    if s.len() == 0 {
        assert(insert_row(s, v) =~= s.take(pos) + seq![v] + s.skip(pos));
    } else if pos == 0 {
        assert(!row_le(s[0], v));
        assert(insert_row(s, v) =~= s.take(0) + seq![v] + s.skip(0));
    } else {
        assert(row_le(s[0], v));
        assert(forall|k: int| 0 <= k < pos - 1 ==> row_le(#[trigger] s.drop_first()[k], v)) by {
            assert forall|k: int| 0 <= k < pos - 1 implies row_le(s.drop_first()[k], v) by {
                assert(s.drop_first()[k] == s[k + 1]);
            }
        }
        lemma_insert_row_at(s.drop_first(), v, pos - 1);
        assert(insert_row(s, v) =~= s.take(pos) + seq![v] + s.skip(pos)) by {
            assert(s.drop_first().take(pos - 1) =~= s.take(pos).drop_first());
            assert(s.drop_first().skip(pos - 1) =~= s.skip(pos));
        }
    }
}

/// Compare two rows by the archive order.
pub fn row_le_exec(a: &TaskListInfo, b: &TaskListInfo) -> (r: bool)
    ensures
        r == row_le(a@, b@),
{
    let ka: i64 = match &a.state {
        Some(st) => st.endtime(),
        None => 0x1_0000_0000,
    };
    let kb: i64 = match &b.state {
        Some(st) => st.endtime(),
        None => 0x1_0000_0000,
    };
    ka < kb || (ka == kb && a.upid.starttime <= b.upid.starttime)
}

/// Sort finished rows by ascending endtime, start time as tie-break.
pub fn sort_finished(rows: Vec<TaskListInfo>) -> (r: Vec<TaskListInfo>)
    ensures
        views_of(r@) == sort_rows(views_of(rows@)),
{
    let ghost orig = views_of(rows@);
    let total = rows.len();
    let mut rows = rows;
    let mut out: Vec<TaskListInfo> = Vec::new();
    proof {
        assert(views_of(out@) =~= sort_rows(orig.take(0)));
        assert(views_of(rows@) =~= orig.skip(0));
    }
    let mut i: usize = 0;
    while rows.len() > 0
        invariant
            i <= orig.len(),
            orig.len() == total as int,
            views_of(rows@) =~= orig.skip(i as int),
            views_of(out@) == sort_rows(orig.take(i as int)),
        decreases rows@.len(),
    {
        let ghost rows_before = rows@;
        let row = rows.remove(0);
        proof {
            assert(views_of(rows_before)[0] == rows_before[0]@);
            assert(views_of(rows_before).len() > 0);
            assert(views_of(rows_before) =~= orig.skip(i as int));
            assert(orig.skip(i as int).len() > 0);
            assert(i < orig.len());
            assert(views_of(rows_before)[0] == orig.skip(i as int)[0]);
            assert(orig.skip(i as int)[0] == orig[i as int]);
            assert(row@ == orig[i as int]);
            assert(views_of(rows@) =~= orig.skip(i as int + 1)) by {
                assert(rows@ =~= rows_before.subrange(1, rows_before.len() as int));
                assert forall|k: int| 0 <= k < rows@.len() implies views_of(rows@)[k] == orig[i + 1 + k] by {
                    assert(views_of(rows@)[k] == rows@[k]@);
                    assert(rows@[k] == rows_before[k + 1]);
                    assert(views_of(rows_before)[k + 1] == rows_before[k + 1]@);
                    assert(views_of(rows_before)[k + 1] == orig.skip(i as int)[k + 1]);
                    assert(orig.skip(i as int)[k + 1] == orig[i + 1 + k]);
                }
            }
        }
        let mut pos: usize = 0;
        while pos < out.len() && row_le_exec(&out[pos], &row)
            invariant
                pos <= out@.len(),
                forall|k: int| 0 <= k < pos ==> row_le(#[trigger] views_of(out@)[k], row@),
            decreases out@.len() - pos,
        {
            proof {
                assert(views_of(out@)[pos as int] == out@[pos as int]@);
            }
            pos += 1;
        }
        proof {
            assert(pos < out@.len() ==> !row_le(views_of(out@)[pos as int], row@)) by {
                if pos < out@.len() {
                    assert(views_of(out@)[pos as int] == out@[pos as int]@);
                }
            }
            lemma_insert_row_at(views_of(out@), row@, pos as int);
        }
        let ghost out_before = views_of(out@);
        out.insert(pos, row);
        i += 1;
        proof {
            assert(views_of(out@) =~= out_before.take(pos as int) + seq![row@] + out_before.skip(
                pos as int,
            ));
            assert(orig.take(i as int).drop_last() =~= orig.take(i as int - 1));
            assert(orig.take(i as int).last() == orig[i as int - 1]);
            assert(views_of(out@) =~= sort_rows(orig.take(i as int)));
        }
    }
    proof {
        assert(orig.take(orig.len() as int) =~= orig);
    }
    out
}

/// Clone an outcome.
pub fn clone_state(st: &TaskState) -> (r: TaskState)
    ensures
        r@ == st@,
{
    match st {
        TaskState::Unknown { endtime } => TaskState::Unknown { endtime: *endtime },
        TaskState::OK { endtime } => TaskState::OK { endtime: *endtime },
        TaskState::Warning { count, endtime } => TaskState::Warning {
            count: *count,
            endtime: *endtime,
        },
        TaskState::Error { message, endtime } => {
            let m = crate::bytes::sub_vec(message.as_slice(), 0, message.len());
            proof {
                assert(m@ =~= message@);
            }
            TaskState::Error { message: m, endtime: *endtime }
        },
    }
}

/// The outcome recorded for a dead task: what its log gave, else `Unknown`
/// at the present time.
pub fn recover_state(c: &RowCheck, now: i64) -> (r: TaskState)
    ensures
        r@ == match c@.recovered {
            Some(st) => st,
            None => TaskStateView::Unknown { endtime: now as int },
        },
{
    match &c.recovered {
        Some(st) => clone_state(st),
        None => TaskState::Unknown { endtime: now },
    }
}

pub open spec fn opt_row(t: Option<TaskListInfo>) -> Seq<TaskListInfoView> {
    match t {
        Some(info) => seq![info@],
        None => Seq::<TaskListInfoView>::empty(),
    }
}

/// The in-memory image of one task directory while it is held under the
/// store lock: the active rows, the archive generations (newest first,
/// `archive[0]` being the current file's bytes) and the legacy index rows.
pub struct TaskStore {
    /// Rows of the active file, in file order.
    pub active: Vec<TaskListInfo>,
    /// Contents of the archive generations, newest first.
    pub archive: Vec<Vec<u8>>,
    /// Rows of the legacy index file, drained by the first consolidation.
    pub index: Vec<TaskListInfo>,
}

impl TaskStore {
    pub open spec fn wf(&self) -> bool {
        &&& all_wf(views_of(self.active@))
        &&& all_wf(views_of(self.index@))
        &&& self.archive@.len() >= 1
    }

    /// A store with nothing recorded.
    pub fn new() -> (s: Self)
        ensures
            s.wf(),
            s.active@.len() == 0,
            s.index@.len() == 0,
            s.archive@.len() == 1,
            s.archive@[0]@.len() == 0,
    {
        let mut archive: Vec<Vec<u8>> = Vec::new();
        archive.push(Vec::new());
        let s = TaskStore { active: Vec::new(), archive, index: Vec::new() };
        proof {
            assert(views_of(s.active@) =~= Seq::<TaskListInfoView>::empty());
            assert(views_of(s.index@) =~= Seq::<TaskListInfoView>::empty());
        }
        s
    }

    /// Build the image from the file contents the caller read while holding
    /// the lock.  Rows that do not parse are skipped; a missing archive is
    /// one empty generation.
    pub fn load(active_content: &[u8], index_content: &[u8], generations: Vec<Vec<u8>>) -> (s: Self)
        ensures
            s.wf(),
            views_of(s.active@) == file_parse(active_content@),
            views_of(s.index@) == file_parse(index_content@),
            generations@.len() == 0 ==> s.archive@.len() == 1 && s.archive@[0]@.len() == 0,
            generations@.len() > 0 ==> s.archive@ == generations@,
    {
        let active = read_task_file(active_content);
        let index = read_task_file(index_content);
        let mut generations = generations;
        if generations.len() == 0 {
            generations.push(Vec::new());
        }
        TaskStore { active, archive: generations, index }
    }

    /// Consolidate: partition the active rows by the caller's liveness
    /// verdicts, keep the running ones (and a newly registered task), and
    /// append the finished ones, sorted by endtime, to the newest archive
    /// generation.  The legacy index rows are merged into the archive and
    /// the index is left empty.
    pub fn consolidate(&mut self, checks: &Vec<RowCheck>, new_task: Option<TaskListInfo>, now: i64)
        requires
            old(self).wf(),
            checks@.len() == old(self).active@.len(),
            checks_wf(checks@),
            0 <= now < 0x1_0000_0000,
            match new_task {
                Some(ref t) => info_wf(t@) && t@.state is None,
                None => true,
            },
        ensures
            final(self).wf(),
            views_of(final(self).active@) == split_rows(
                views_of(old(self).active@),
                checks@,
                now as int,
            ).0 + opt_row(new_task),
            final(self).archive@.len() == old(self).archive@.len(),
            forall|i: int|
                1 <= i < final(self).archive@.len() ==> final(self).archive@[i]@ == old(
                    self,
                ).archive@[i]@,
            final(self).archive@[0]@ == old(self).archive@[0]@ + file_text(
                sort_rows(
                    views_of(old(self).index@) + split_rows(
                        views_of(old(self).active@),
                        checks@,
                        now as int,
                    ).1,
                ),
            ),
            final(self).index@.len() == 0,
    {
        let ghost orig_a = views_of(old(self).active@);
        let ghost now_i = now as int;
        let mut act: Vec<TaskListInfo> = Vec::new();
        core::mem::swap(&mut self.active, &mut act);
        let total = act.len();
        let mut run: Vec<TaskListInfo> = Vec::new();
        let mut fin: Vec<TaskListInfo> = Vec::new();
        let mut i: usize = 0;
        proof {
            assert(views_of(act@) =~= orig_a.skip(0));
            assert(checks@.skip(0) =~= checks@);
            assert(views_of(run@) =~= Seq::<TaskListInfoView>::empty());
            assert(views_of(fin@) =~= Seq::<TaskListInfoView>::empty());
            assert(split_rows(orig_a, checks@, now_i).0 =~= views_of(run@) + split_rows(
                orig_a.skip(0),
                checks@.skip(0),
                now_i,
            ).0);
            assert(split_rows(orig_a, checks@, now_i).1 =~= views_of(fin@) + split_rows(
                orig_a.skip(0),
                checks@.skip(0),
                now_i,
            ).1);
        }
        while act.len() > 0
            invariant
                i <= orig_a.len(),
                orig_a.len() == total as int,
                checks@.len() == orig_a.len(),
                views_of(act@) =~= orig_a.skip(i as int),
                split_rows(orig_a, checks@, now_i).0 =~= views_of(run@) + split_rows(
                    orig_a.skip(i as int),
                    checks@.skip(i as int),
                    now_i,
                ).0,
                split_rows(orig_a, checks@, now_i).1 =~= views_of(fin@) + split_rows(
                    orig_a.skip(i as int),
                    checks@.skip(i as int),
                    now_i,
                ).1,
                all_wf(orig_a),
                checks_wf(checks@),
                all_wf(views_of(run@)),
                all_wf(views_of(fin@)),
                now_i == now as int,
                0 <= now_i < 0x1_0000_0000,
            decreases act@.len(),
        {
            let ghost act_before = act@;
            let row = act.remove(0);
            proof {
                assert(views_of(act_before)[0] == act_before[0]@);
                assert(views_of(act_before) =~= orig_a.skip(i as int));
                assert(orig_a.skip(i as int).len() > 0);
                assert(i < orig_a.len());
                assert(row@ == orig_a[i as int]);
                assert(views_of(act@) =~= orig_a.skip(i as int + 1)) by {
                    assert(act@ =~= act_before.subrange(1, act_before.len() as int));
                    assert forall|k: int|
                        0 <= k < act@.len() implies views_of(act@)[k] == orig_a[i + 1 + k] by {
                        assert(views_of(act@)[k] == act@[k]@);
                        assert(act@[k] == act_before[k + 1]);
                        assert(views_of(act_before)[k + 1] == act_before[k + 1]@);
                        assert(views_of(act_before)[k + 1] == orig_a.skip(i as int)[k + 1]);
                        assert(orig_a.skip(i as int)[k + 1] == orig_a[i + 1 + k]);
                    }
                }
                // One unfolding of the split at position `i`.
                let sub_a = orig_a.skip(i as int);
                let sub_c = checks@.skip(i as int);
                assert(sub_a.drop_first() =~= orig_a.skip(i as int + 1));
                assert(sub_c.drop_first() =~= checks@.skip(i as int + 1));
                assert(sub_a[0] == orig_a[i as int]);
                assert(sub_c[0] == checks@[i as int]);
                assert(info_wf(orig_a[i as int]));
            }
            let is_finished = row.state.is_some();
            if is_finished {
                let ghost fin_before = views_of(fin@);
                fin.push(row);
                proof {
                    assert(views_of(fin@) =~= fin_before + seq![orig_a[i as int]]);
                }
            } else if !checks[i].alive {
                let new_state: TaskState = recover_state(&checks[i], now);
                let ghost row_view = row@;
                let TaskListInfo { upid, upid_str, state } = row;
                proof {
                    assert(upid@ == row_view.upid);
                    assert(upid_str@ == row_view.upid_str);
                }
                let frow = TaskListInfo { upid, upid_str, state: Some(new_state) };
                let ghost fin_before = views_of(fin@);
                proof {
                    assert(frow@.upid == orig_a[i as int].upid);
                    assert(frow@.upid_str == orig_a[i as int].upid_str);
                    assert(frow@.state == Some(new_state@));
                    assert(new_state@ == match checks@[i as int]@.recovered {
                        Some(st) => st,
                        None => TaskStateView::Unknown { endtime: now as int },
                    });
                    let ghost target = finished_row(orig_a[i as int], checks@[i as int]@, now_i);
                    assert(frow@.upid =~~= target.upid);
                    assert(frow@.upid_str =~~= target.upid_str);
                    assert(frow@.state =~~= target.state);
                    assert(frow@ =~~= target);
                    assert(info_wf(frow@));
                }
                fin.push(frow);
                proof {
                    assert(views_of(fin@) =~~= fin_before + seq![
                        finished_row(orig_a[i as int], checks@[i as int]@, now_i),
                    ]);
                }
            } else {
                let ghost run_before = views_of(run@);
                run.push(row);
                proof {
                    assert(views_of(run@) =~= run_before + seq![orig_a[i as int]]);
                }
            }
            i += 1;
        }
        proof {
            assert(orig_a.skip(orig_a.len() as int) =~= Seq::<TaskListInfoView>::empty());
            assert(checks@.skip(checks@.len() as int) =~= Seq::<RowCheck>::empty());
            assert(split_rows(orig_a, checks@, now_i).0 =~= views_of(run@));
            assert(split_rows(orig_a, checks@, now_i).1 =~= views_of(fin@));
        }
        // Merge the legacy index rows in front of the newly finished ones.
        let mut finished: Vec<TaskListInfo> = Vec::new();
        core::mem::swap(&mut self.index, &mut finished);
        let ghost idx_views = views_of(finished@);
        let ghost fin_views = views_of(fin@);
        finished.append(&mut fin);
        proof {
            assert(views_of(finished@) =~= idx_views + fin_views) by {
                assert forall|k: int|
                    0 <= k < finished@.len() implies views_of(finished@)[k] == (idx_views
                    + fin_views)[k] by {
                    assert(views_of(finished@)[k] == finished@[k]@);
                    if k < idx_views.len() {
                    } else {
                    }
                }
            }
            assert(all_wf(views_of(finished@)));
        }
        let finished = sort_finished(finished);
        proof {
            lemma_sort_rows_props(idx_views + fin_views);
        }
        let rendered = render_task_list(&finished);
        let mut gen0 = self.archive.remove(0);
        gen0.extend_from_slice(rendered.as_slice());
        let ghost gen0_view = gen0@;
        self.archive.insert(0, gen0);
        // The new active list: the still-running rows, then the new task.
        match new_task {
            Some(t) => run.push(t),
            None => {},
        }
        core::mem::swap(&mut self.active, &mut run);
        proof {
            assert(views_of(final(self).active@) =~= split_rows(orig_a, checks@, now_i).0 + opt_row(
                new_task,
            ));
            assert(final(self).archive@[0]@ =~= old(self).archive@[0]@ + file_text(
                sort_rows(idx_views + fin_views),
            ));
            assert(views_of(final(self).index@) =~= Seq::<TaskListInfoView>::empty());
        }
    }
}

/// The endtime of the first (oldest) record of a generation's content, when
/// its first line parses as a finished row.  Rotation's age cut reads only
/// this, an intentionally cheap approximation.
pub open spec fn gen_first_endtime(content: Seq<u8>) -> Option<int> {
    let lines = split_on(content, 10);
    match line_parse(lines[0]) {
        Some(v) => match v.state {
            Some(st) => Some(view_endtime(st)),
            None => None,
        },
        None => None,
    }
}

/// The newest generation (smallest index) whose first record is already
/// older than `cutoff`; generations from that one on are up for deletion.
pub open spec fn days_cut(gens: Seq<Seq<u8>>, cutoff: int) -> Option<int>
    decreases gens.len(),
{
    if gens.len() == 0 {
        None
    } else if match gen_first_endtime(gens[0]) {
        Some(e) => e < cutoff,
        None => false,
    } {
        Some(0)
    } else {
        match days_cut(gens.drop_first(), cutoff) {
            Some(i) => Some(i + 1),
            None => None,
        }
    }
}

/// Read the first record's endtime out of a generation's bytes.
pub fn first_record_endtime(content: &[u8]) -> (r: Option<i64>)
    ensures
        match r {
            Some(e) => gen_first_endtime(content@) == Some(e as int),
            None => gen_first_endtime(content@) is None,
        },
{
    let first_line: Vec<u8> = match crate::bytes::find_byte_from(content, 10, 0) {
        Some(i) => {
            let line = crate::bytes::sub_vec(content, 0, i);
            proof {
                crate::bytes::lemma_split_first(content@, 10);
                let p0 = split_on(content@, 10)[0];
                assert(p0 =~= content@.subrange(0, i as int)) by {
                    assert(content@ =~= p0 + seq![10u8] + content@.skip(p0.len() as int + 1));
                    assert forall|k: int| 0 <= k < p0.len() implies content@[k] == p0[k] by {}
                    assert(p0.len() <= i) by {
                        if p0.len() > i {
                            assert(p0[i as int] == content@[i as int]);
                        }
                    }
                    assert(content@[p0.len() as int] == 10);
                    assert(p0.len() >= i);
                    assert(p0 =~= content@.subrange(0, p0.len() as int));
                }
                assert(line@ =~= split_on(content@, 10)[0]);
            }
            line
        },
        None => {
            let line = crate::bytes::sub_vec(content, 0, content.len());
            proof {
                crate::bytes::lemma_split_on_whole(content@, 10);
                assert(line@ =~= split_on(content@, 10)[0]);
            }
            line
        },
    };
    proof {
        crate::bytes::lemma_split_on_parts_clean(content@, 10);
        crate::bytes::lemma_split_on_len(content@, 10);
    }
    match crate::listinfo::parse_worker_status_line(first_line.as_slice()) {
        Some(info) => match info.state {
            Some(st) => Some(st.endtime()),
            None => None,
        },
        None => None,
    }
}

/// The first parseable finished-row endtime in a generation, scanning every
/// line; garbage collection uses this on the oldest retained generation.
pub open spec fn first_parseable_endtime(lines: Seq<Seq<u8>>) -> Option<int>
    decreases lines.len(),
{
    if lines.len() == 0 {
        None
    } else {
        match line_parse(lines[0]) {
            Some(v) => match v.state {
                Some(st) => Some(view_endtime(st)),
                None => first_parseable_endtime(lines.drop_first()),
            },
            None => first_parseable_endtime(lines.drop_first()),
        }
    }
}

/// Rows of the archive generations in listing order: newest generation
/// first, and within each generation the newest (last) record first.
pub open spec fn archive_listing(gens: Seq<Seq<u8>>) -> Seq<TaskListInfoView>
    decreases gens.len(),
{
    if gens.len() == 0 {
        Seq::<TaskListInfoView>::empty()
    } else {
        file_parse(gens[0]).reverse() + archive_listing(gens.drop_first())
    }
}

/// The full listing: the active rows, most recently inserted first, then —
/// unless restricted to active tasks — the archived rows, newest first.  An
/// active-only listing is independent of the archive by construction; see
/// [`lemma_active_only_listing`].
pub open spec fn listing(
    active: Seq<TaskListInfoView>,
    gens: Seq<Seq<u8>>,
    active_only: bool,
) -> Seq<TaskListInfoView> {
    active.reverse() + if active_only {
        Seq::<TaskListInfoView>::empty()
    } else {
        archive_listing(gens)
    }
}

/// An active-only listing never reads an archive generation: whatever bytes
/// the archive holds — including a corrupted generation — the listing is
/// the same.
pub proof fn lemma_active_only_listing(
    active: Seq<TaskListInfoView>,
    gens1: Seq<Seq<u8>>,
    gens2: Seq<Seq<u8>>,
)
    ensures
        listing(active, gens1, true) == listing(active, gens2, true),
{
}

/// Consolidation is idempotent: when no active row carries a status, every
/// owner is alive, no task is added and the legacy index is empty, the
/// still-running set is the active set unchanged and nothing is appended to
/// the archive — a second consolidation after any first one, with no state
/// change in between, rewrites both files byte for byte.
pub proof fn lemma_consolidation_idempotent(
    active: Seq<TaskListInfoView>,
    checks: Seq<RowCheck>,
    now: int,
)
    requires
        checks.len() == active.len(),
        forall|k: int| 0 <= k < active.len() ==> (#[trigger] active[k]).state is None,
        forall|k: int| 0 <= k < checks.len() ==> (#[trigger] checks[k])@.alive,
    ensures
        split_rows(active, checks, now).0 == active,
        split_rows(active, checks, now).1 == Seq::<TaskListInfoView>::empty(),
        file_text(sort_rows(Seq::<TaskListInfoView>::empty())) == Seq::<u8>::empty(),
    decreases active.len(),
{
    if active.len() == 0 {
        assert(split_rows(active, checks, now).0 =~= active);
    } else {
        assert(forall|k: int|
            0 <= k < active.drop_first().len() ==> (#[trigger] active.drop_first()[k]).state
                is None) by {
            assert forall|k: int|
                0 <= k < active.drop_first().len() implies (#[trigger] active.drop_first()[k]).state
                is None by {
                assert(active.drop_first()[k] == active[k + 1]);
            }
        }
        assert(forall|k: int|
            0 <= k < checks.drop_first().len() ==> (#[trigger] checks.drop_first()[k])@.alive) by {
            assert forall|k: int|
                0 <= k < checks.drop_first().len() implies (
                #[trigger] checks.drop_first()[k])@.alive by {
                assert(checks.drop_first()[k] == checks[k + 1]);
            }
        }
        lemma_consolidation_idempotent(active.drop_first(), checks.drop_first(), now);
        assert(active[0].state is None && checks[0]@.alive);
        assert(split_rows(active, checks, now).0 =~= seq![active[0]] + active.drop_first());
        assert(seq![active[0]] + active.drop_first() =~= active);
    }
}

/// Consolidation loses no row and invents none: every active row lands in
/// exactly one of the still-running and the finished side.
pub proof fn lemma_split_partition(
    active: Seq<TaskListInfoView>,
    checks: Seq<RowCheck>,
    now: int,
)
    requires
        checks.len() == active.len(),
    ensures
        split_rows(active, checks, now).0.len() + split_rows(active, checks, now).1.len()
            == active.len(),
    decreases active.len(),
{
    if active.len() > 0 {
        lemma_split_partition(active.drop_first(), checks.drop_first(), now);
    }
}

/// Every active row whose owner died, or which already carried a status, is
/// classified finished by consolidation: it appears, with its recovered or
/// recorded outcome, among the finished rows, never among the running ones.
pub proof fn lemma_dead_rows_finished(
    active: Seq<TaskListInfoView>,
    checks: Seq<RowCheck>,
    now: int,
    k: int,
)
    requires
        checks.len() == active.len(),
        0 <= k < active.len(),
        active[k].state is Some || !checks[k]@.alive,
    ensures
        active[k].state is Some ==> split_rows(active, checks, now).1.contains(active[k]),
        active[k].state is None ==> split_rows(active, checks, now).1.contains(
            finished_row(active[k], checks[k]@, now),
        ),
    decreases k,
{
    let rest = split_rows(active.drop_first(), checks.drop_first(), now);
    if k == 0 {
        if active[0].state is Some {
            assert(split_rows(active, checks, now).1[0] == active[0]);
        } else {
            assert(split_rows(active, checks, now).1[0] == finished_row(active[0], checks[0]@, now));
        }
    } else {
        assert(active.drop_first()[k - 1] == active[k]);
        assert(checks.drop_first()[k - 1] == checks[k]);
        lemma_dead_rows_finished(active.drop_first(), checks.drop_first(), now, k - 1);
        let fin_rest = rest.1;
        let whole = split_rows(active, checks, now).1;
        if active[k].state is Some {
            let j = choose|j: int| 0 <= j < fin_rest.len() && fin_rest[j] == active[k];
            if active[0].state is Some || !checks[0]@.alive {
                assert(whole[j + 1] == active[k]);
            } else {
                assert(whole == fin_rest);
            }
        } else {
            let v = finished_row(active[k], checks[k]@, now);
            let j = choose|j: int| 0 <= j < fin_rest.len() && fin_rest[j] == v;
            if active[0].state is Some || !checks[0]@.alive {
                assert(whole[j + 1] == v);
            } else {
                assert(whole == fin_rest);
            }
        }
    }
}

/// Every row consolidation keeps in the active list is a running row: it
/// carries no status, and its owner was reported alive.
pub proof fn lemma_running_rows_alive(
    active: Seq<TaskListInfoView>,
    checks: Seq<RowCheck>,
    now: int,
)
    requires
        checks.len() == active.len(),
    ensures
        forall|j: int|
            0 <= j < split_rows(active, checks, now).0.len() ==> (#[trigger] split_rows(
                active,
                checks,
                now,
            ).0[j]).state is None,
    decreases active.len(),
{
    if active.len() == 0 {
    } else {
        lemma_running_rows_alive(active.drop_first(), checks.drop_first(), now);
        let rest = split_rows(active.drop_first(), checks.drop_first(), now);
        let whole = split_rows(active, checks, now).0;
        assert forall|j: int| 0 <= j < whole.len() implies (#[trigger] whole[j]).state is None by {
            if active[0].state is None && checks[0]@.alive {
                if j > 0 {
                    assert(whole[j] == rest.0[j - 1]);
                }
            } else {
                assert(whole[j] == rest.0[j]);
            }
        }
    }
}

/// Copy an identity.
pub fn clone_upid(u: &crate::upid::UPID) -> (r: crate::upid::UPID)
    ensures
        r@ == u@,
{
    let node = crate::bytes::sub_vec(u.node.as_slice(), 0, u.node.len());
    let worker_type = crate::bytes::sub_vec(u.worker_type.as_slice(), 0, u.worker_type.len());
    let worker_id: Option<Vec<u8>> = match &u.worker_id {
        Some(w) => {
            let c = crate::bytes::sub_vec(w.as_slice(), 0, w.len());
            proof {
                assert(c@ =~= w@);
            }
            Some(c)
        },
        None => None,
    };
    let auth_id = crate::bytes::sub_vec(u.auth_id.as_slice(), 0, u.auth_id.len());
    proof {
        assert(node@ =~= u.node@);
        assert(worker_type@ =~= u.worker_type@);
        assert(auth_id@ =~= u.auth_id@);
    }
    let r = crate::upid::UPID {
        node,
        pid: u.pid,
        pstart: u.pstart,
        task_id: u.task_id,
        starttime: u.starttime,
        worker_type,
        worker_id,
        auth_id,
    };
    proof {
        assert(r@ =~~= u@);
    }
    r
}

/// Copy a listing row.
pub fn clone_info(info: &TaskListInfo) -> (r: TaskListInfo)
    ensures
        r@ == info@,
{
    let upid = clone_upid(&info.upid);
    let upid_str = crate::bytes::sub_vec(info.upid_str.as_slice(), 0, info.upid_str.len());
    let state: Option<TaskState> = match &info.state {
        Some(st) => Some(clone_state(st)),
        None => None,
    };
    proof {
        assert(upid_str@ =~= info.upid_str@);
    }
    let r = TaskListInfo { upid, upid_str, state };
    proof {
        assert(r@ =~~= info@);
    }
    r
}

/// Reverse the order of a row list.
pub fn reverse_rows(rows: Vec<TaskListInfo>) -> (r: Vec<TaskListInfo>)
    ensures
        views_of(r@) == views_of(rows@).reverse(),
{
    let ghost orig = views_of(rows@);
    let mut rows = rows;
    let mut out: Vec<TaskListInfo> = Vec::new();
    proof {
        assert(views_of(rows@) =~= orig.take(rows@.len() as int));
        assert(views_of(out@) =~= orig.skip(rows@.len() as int).reverse());
    }
    while rows.len() > 0
        invariant
            rows@.len() <= orig.len(),
            views_of(rows@) =~= orig.take(rows@.len() as int),
            views_of(out@) =~= orig.skip(rows@.len() as int).reverse(),
        decreases rows@.len(),
    {
        let ghost rows_before = rows@;
        let ghost out_before = views_of(out@);
        let row = match rows.pop() {
            Some(row) => row,
            None => {
                proof {
                    assert(false);
                }
                return out;
            },
        };
        proof {
            let n = rows_before.len() as int;
            assert(views_of(rows_before)[n - 1] == rows_before[n - 1]@);
            assert(views_of(rows_before)[n - 1] == orig.take(n)[n - 1]);
            assert(orig.take(n)[n - 1] == orig[n - 1]);
            assert(row@ == orig[n - 1]);
            assert(views_of(rows@) =~= orig.take(rows@.len() as int)) by {
                assert(rows@ =~= rows_before.drop_last());
                assert forall|k: int| 0 <= k < rows@.len() implies views_of(rows@)[k] == orig[k] by {
                    assert(views_of(rows@)[k] == rows@[k]@);
                    assert(rows@[k] == rows_before[k]);
                    assert(views_of(rows_before)[k] == rows_before[k]@);
                    assert(views_of(rows_before)[k] == orig.take(n)[k]);
                    assert(orig.take(n)[k] == orig[k]);
                }
            }
        }
        out.push(row);
        proof {
            assert(views_of(out@) =~= orig.skip(rows@.len() as int).reverse()) by {
                assert(views_of(out@) =~= out_before + seq![orig[rows@.len() as int]]);
                let tail = orig.skip(rows@.len() as int);
                assert(tail.reverse().len() == tail.len());
                assert forall|k: int| 0 <= k < tail.len() implies tail.reverse()[k] == views_of(
                    out@,
                )[k] by {
                    assert(tail.reverse()[k] == tail[tail.len() - 1 - k]);
                    assert(tail[tail.len() - 1 - k] == orig[orig.len() - 1 - k]);
                    if k < out_before.len() {
                        assert(out_before =~= orig.skip(rows_before.len() as int).reverse());
                        assert(out_before[k] == orig.skip(rows_before.len() as int)[orig.len()
                            - rows_before.len() - 1 - k]);
                    }
                }
            }
        }
    }
    proof {
        assert(orig.skip(0) =~= orig);
    }
    out
}

/// Rendering distributes over concatenation of row lists.
pub proof fn lemma_file_text_concat(a: Seq<TaskListInfoView>, b: Seq<TaskListInfoView>)
    ensures
        file_text(a + b) == file_text(a) + file_text(b),
    decreases a.len(),
{
    if a.len() == 0 {
        assert(a + b =~= b);
        assert(file_text(a) =~= Seq::<u8>::empty());
        assert(file_text(a + b) =~= file_text(a) + file_text(b));
    } else {
        assert((a + b).drop_first() =~= a.drop_first() + b);
        lemma_file_text_concat(a.drop_first(), b);
        assert((a + b)[0] == a[0]);
        assert(file_text(a + b) =~= file_text(a) + file_text(b));
    }
}

/// The archive listing distributes over concatenation of generation lists.
pub proof fn lemma_archive_listing_concat(a: Seq<Seq<u8>>, b: Seq<Seq<u8>>)
    ensures
        archive_listing(a + b) == archive_listing(a) + archive_listing(b),
    decreases a.len(),
{
    if a.len() == 0 {
        assert(a + b =~= b);
        assert(archive_listing(a) =~= Seq::<TaskListInfoView>::empty());
        assert(archive_listing(a + b) =~= archive_listing(a) + archive_listing(b));
    } else {
        assert((a + b).drop_first() =~= a.drop_first() + b);
        lemma_archive_listing_concat(a.drop_first(), b);
        assert((a + b)[0] == a[0]);
        assert(archive_listing(a + b) =~= archive_listing(a) + archive_listing(b));
    }
}

impl TaskStore {
    /// Rotate the current archive generation into a new one when it exceeds
    /// `size_threshold` bytes, then apply retention.  `max_days` takes
    /// precedence: scanning newest to oldest, the first generation whose
    /// first record's endtime already precedes `now` less that many days
    /// marks the cut, and it and all older generations are deleted.
    /// Otherwise `max_files` caps the number of retained generations.
    /// Returns whether a rotation or any deletion happened.
    pub fn rotate(
        &mut self,
        size_threshold: u64,
        max_files: Option<usize>,
        max_days: Option<u64>,
        now: i64,
    ) -> (rotated: bool)
        requires
            old(self).wf(),
            0 <= now < 0x1_0000_0000,
            match max_days {
                Some(d) => d <= 0xFFFF_FFFF,
                None => true,
            },
        ensures
            final(self).wf(),
            final(self).active@ == old(self).active@,
            final(self).index@ == old(self).index@,
            ({
                let grown = if old(self).archive@[0]@.len() > size_threshold {
                    seq![Seq::<u8>::empty()] + old(self).archive.deep_view()
                } else {
                    old(self).archive.deep_view()
                };
                let kept = match max_days {
                    Some(d) => match days_cut(grown, now - d * 86400) {
                        Some(i) => grown.take(i),
                        None => grown,
                    },
                    None => match max_files {
                        Some(mf) => if grown.len() > mf {
                            grown.take(mf as int)
                        } else {
                            grown
                        },
                        None => grown,
                    },
                };
                final(self).archive.deep_view() == (if kept.len() == 0 {
                    seq![Seq::<u8>::empty()]
                } else {
                    kept
                }) && rotated == (old(self).archive@[0]@.len() > size_threshold || kept.len()
                    < grown.len())
            }),
    {
        let mut rotated = false;
        if self.archive[0].len() as u64 > size_threshold {
            self.archive.insert(0, Vec::new());
            rotated = true;
        }
        let ghost grown = self.archive.deep_view();
        proof {
            assert(grown =~~= if old(self).archive@[0]@.len() > size_threshold {
                seq![Seq::<u8>::empty()] + old(self).archive.deep_view()
            } else {
                old(self).archive.deep_view()
            });
        }
        match max_days {
            Some(d) => {
                let span = d * 86400;
                let cutoff: i64 = now - (span as i64);
                let mut cut: Option<usize> = None;
                let mut i: usize = 0;
                let total = self.archive.len();
                proof {
                    assert(grown.skip(0) =~= grown);
                }
                while i < total
                    invariant
                        i <= total,
                        total == self.archive@.len(),
                        self.archive.deep_view() == grown,
                        grown.len() == total as int,
                        cutoff as int == now - d * 86400,
                        match cut {
                            Some(c) => c < total && days_cut(grown, cutoff as int) == Some(
                                c as int,
                            ),
                            None => days_cut(grown, cutoff as int) == match days_cut(
                                grown.skip(i as int),
                                cutoff as int,
                            ) {
                                Some(j) => Some(i + j),
                                None => None,
                            },
                        },
                    decreases total - i,
                {
                    if cut.is_none() {
                        proof {
                            assert(self.archive.deep_view()[i as int] == self.archive@[i as int]@);
                            assert(grown.skip(i as int)[0] == grown[i as int]);
                            assert(grown.skip(i as int).drop_first() =~= grown.skip(i as int + 1));
                        }
                        let qualifies = match first_record_endtime(self.archive[i].as_slice()) {
                            Some(e) => e < cutoff,
                            None => false,
                        };
                        if qualifies {
                            cut = Some(i);
                        }
                    }
                    i += 1;
                }
                proof {
                    if cut is None {
                        assert(grown.skip(total as int) =~= Seq::<Seq<u8>>::empty());
                        assert(days_cut(grown, cutoff as int) is None);
                    }
                }
                match cut {
                    Some(c) => {
                        self.archive.truncate(c);
                        rotated = true;
                        proof {
                            assert(self.archive.deep_view() =~~= grown.take(c as int)) by {
                                assert forall|k: int|
                                    0 <= k < self.archive@.len() implies self.archive.deep_view()[k]
                                    == grown[k] by {
                                    assert(self.archive.deep_view()[k] == self.archive@[k]@);
                                }
                            }
                        }
                    },
                    None => {},
                }
            },
            None => {
                match max_files {
                    Some(mf) => {
                        if self.archive.len() > mf {
                            self.archive.truncate(mf);
                            rotated = true;
                            proof {
                                assert(self.archive.deep_view() =~~= grown.take(mf as int)) by {
                                    assert forall|k: int|
                                        0 <= k < self.archive@.len() implies self.archive.deep_view()[k]
                                        == grown[k] by {
                                        assert(self.archive.deep_view()[k] == self.archive@[k]@);
                                    }
                                }
                            }
                        }
                    },
                    None => {},
                }
            },
        }
        if self.archive.len() == 0 {
            self.archive.push(Vec::new());
            proof {
                assert(self.archive.deep_view() =~~= seq![Seq::<u8>::empty()]);
            }
        }
        rotated
    }

    /// The endtime of the earliest record still referenced by the oldest
    /// retained archive generation; garbage collection deletes task logs
    /// older than this.  `None` when no generation line parses as a
    /// finished row.
    pub fn cleanup_cutoff(&self) -> (r: Option<i64>)
        requires
            self.wf(),
        ensures
            match r {
                Some(e) => first_parseable_endtime(
                    split_on(self.archive@.last()@, 10),
                ) == Some(e as int),
                None => first_parseable_endtime(split_on(self.archive@.last()@, 10)) is None,
            },
    {
        let oldest = &self.archive[self.archive.len() - 1];
        let lines = crate::bytes::split_bytes(oldest.as_slice(), 10);
        let ghost all = split_on(self.archive@.last()@, 10);
        proof {
            assert(self.archive@[self.archive@.len() - 1] == self.archive@.last());
            assert(oldest@ == self.archive@.last()@);
            crate::bytes::lemma_split_on_parts_clean(oldest@, 10);
            assert(all.skip(0) =~= all);
        }
        let mut i: usize = 0;
        while i < lines.len()
            invariant
                i <= lines@.len(),
                all == split_on(self.archive@.last()@, 10),
                lines.deep_view() == all,
                all.len() == lines@.len(),
                forall|k: int| 0 <= k < all.len() ==> !crate::bytes::has_byte(#[trigger] all[k], 10),
                first_parseable_endtime(all) == first_parseable_endtime(all.skip(i as int)),
            decreases lines@.len() - i,
        {
            proof {
                assert(lines.deep_view()[i as int] == lines@[i as int]@);
                assert(all.skip(i as int)[0] == all[i as int]);
                assert(all.skip(i as int).drop_first() =~= all.skip(i as int + 1));
            }
            match crate::listinfo::parse_worker_status_line(lines[i].as_slice()) {
                Some(info) => {
                    match info.state {
                        Some(st) => {
                            proof {
                                assert(line_parse(all[i as int]) == Some(info@));
                                assert(first_parseable_endtime(all.skip(i as int)) == Some(
                                    view_endtime(st@),
                                ));
                            }
                            return Some(st.endtime());
                        },
                        None => {},
                    }
                },
                None => {},
            }
            i += 1;
        }
        proof {
            assert(all.skip(all.len() as int) =~= Seq::<Seq<u8>>::empty());
        }
        None
    }
}

/// A listing pass over the store: first the active tasks, most recently
/// inserted first, then — unless restricted to the active set — the archive
/// generations newest to oldest, each generation's newest record first.
/// Each pass is a fresh traversal of the store image it was created from.
pub struct TaskListInfoIterator {
    /// Rows still to yield, in reverse yield order.
    pub items: Vec<TaskListInfo>,
}

impl TaskListInfoIterator {
    /// The rows this pass has yet to yield, in yield order.
    pub open spec fn remaining(&self) -> Seq<TaskListInfoView> {
        views_of(self.items@).reverse()
    }

    /// Start a listing pass.  An active-only pass takes nothing at all from
    /// the archive generations.
    pub fn new(store: &TaskStore, active_only: bool) -> (it: Self)
        requires
            store.wf(),
        ensures
            it.remaining() == listing(
                views_of(store.active@),
                store.archive.deep_view(),
                active_only,
            ),
    {
        let mut fwd: Vec<TaskListInfo> = Vec::new();
        push_active_reversed(&store.active, &mut fwd);
        let ghost active_rev = views_of(store.active@).reverse();
        if !active_only {
            let ghost gens = store.archive.deep_view();
            let mut g: usize = 0;
            proof {
                assert(gens.take(0) =~= Seq::<Seq<u8>>::empty());
                assert(views_of(fwd@) =~= active_rev + archive_listing(gens.take(0)));
            }
            while g < store.archive.len()
                invariant
                    g <= store.archive@.len(),
                    gens == store.archive.deep_view(),
                    gens.len() == store.archive@.len(),
                    views_of(fwd@) =~= active_rev + archive_listing(gens.take(g as int)),
                decreases store.archive@.len() - g,
            {
                let rows = read_task_file(store.archive[g].as_slice());
                let mut rev = reverse_rows(rows);
                let ghost fwd_before = views_of(fwd@);
                let ghost rev_views = views_of(rev@);
                fwd.append(&mut rev);
                g += 1;
                proof {
                    assert(store.archive.deep_view()[g - 1] == store.archive@[g - 1]@);
                    assert(views_of(fwd@) =~= fwd_before + rev_views) by {
                        assert forall|k: int|
                            0 <= k < fwd@.len() implies views_of(fwd@)[k] == (fwd_before
                            + rev_views)[k] by {
                            assert(views_of(fwd@)[k] == fwd@[k]@);
                        }
                    }
                    assert(gens.take(g as int) =~= gens.take(g - 1) + seq![gens[g - 1]]);
                    lemma_archive_listing_concat(gens.take(g - 1), seq![gens[g - 1]]);
                    assert(archive_listing(seq![gens[g - 1]]) =~= file_parse(
                        gens[g - 1],
                    ).reverse()) by {
                        assert(seq![gens[g - 1]].drop_first() =~= Seq::<Seq<u8>>::empty());
                        assert(archive_listing(Seq::<Seq<u8>>::empty())
                            =~= Seq::<TaskListInfoView>::empty());
                        assert(file_parse(gens[g - 1]).reverse() + Seq::<TaskListInfoView>::empty()
                            =~= file_parse(gens[g - 1]).reverse());
                    }
                    assert(rev_views =~= file_parse(gens[g - 1]).reverse());
                }
            }
            proof {
                assert(gens.take(gens.len() as int) =~= gens);
            }
        }
        let items = reverse_rows(fwd);
        let it = TaskListInfoIterator { items };
        proof {
            let fwd_views = active_rev + if active_only {
                Seq::<TaskListInfoView>::empty()
            } else {
                archive_listing(store.archive.deep_view())
            };
            assert(views_of(fwd@) =~= fwd_views);
            assert(it.remaining() =~= fwd_views) by {
                let v = views_of(fwd@);
                assert(views_of(it.items@) == v.reverse());
                assert forall|k: int| 0 <= k < v.len() implies v.reverse().reverse()[k] == v[k] by {}
                assert(v.reverse().reverse() =~= v);
            }
        }
        it
    }

    /// Yield the next row, or `None` when the pass is exhausted.
    pub fn next(&mut self) -> (r: Option<TaskListInfo>)
        ensures
            old(self).remaining().len() == 0 ==> r is None && final(self).remaining()
                == old(self).remaining(),
            old(self).remaining().len() > 0 ==> match r {
                Some(info) => info@ == old(self).remaining()[0] && final(self).remaining() == old(
                    self,
                ).remaining().drop_first(),
                None => false,
            },
    {
        let ghost items_before = self.items@;
        match self.items.pop() {
            Some(info) => {
                proof {
                    assert(views_of(items_before)[items_before.len() - 1] == items_before[
                    items_before.len() - 1]@);
                    assert(info@ == old(self).remaining()[0]);
                    assert(final(self).remaining() =~= old(self).remaining().drop_first()) by {
                        assert(self.items@ =~= items_before.drop_last());
                        let v0 = views_of(items_before);
                        let v1 = views_of(self.items@);
                        assert forall|k: int| 0 <= k < v1.len() implies v1[k] == v0[k] by {
                            assert(v1[k] == self.items@[k]@);
                            assert(v0[k] == items_before[k]@);
                        }
                        assert(v1 =~= v0.drop_last());
                        assert forall|k: int|
                            0 <= k < v1.reverse().len() implies v1.reverse()[k]
                            == v0.reverse().drop_first()[k] by {
                            assert(v1.reverse()[k] == v1[v1.len() - 1 - k]);
                            assert(v0.reverse().drop_first()[k] == v0[v0.len() - 1 - (k + 1)]);
                        }
                    }
                }
                Some(info)
            },
            None => {
                proof {
                    assert(views_of(items_before).len() == 0);
                }
                None
            },
        }
    }
}

/// Copy the active rows into `out` in reverse order, returning nothing of
/// note: a helper for starting a listing pass.
fn push_active_reversed(active: &Vec<TaskListInfo>, out: &mut Vec<TaskListInfo>)
    requires
        old(out)@.len() == 0,
    ensures
        views_of(final(out)@) == views_of(active@).reverse(),
{
    let mut i: usize = active.len();
    proof {
        assert(views_of(out@) =~= views_of(active@).reverse().take(0));
    }
    while i > 0
        invariant
            i <= active@.len(),
            views_of(out@) =~= views_of(active@).reverse().take(
                active@.len() - i,
            ),
        decreases i,
    {
        i -= 1;
        let ghost out_before = views_of(out@);
        let row = clone_info(&active[i]);
        out.push(row);
        proof {
            let av = views_of(active@);
            assert(views_of(out@) =~= out_before + seq![active@[i as int]@]) by {
                assert forall|k: int|
                    0 <= k < out@.len() implies views_of(out@)[k] == (out_before + seq![
                    active@[i as int]@,
                ])[k] by {
                    assert(views_of(out@)[k] == out@[k]@);
                }
            }
            assert(av[i as int] == views_of(active@)[i as int]);
            assert(views_of(out@) =~= av.reverse().take(av.len() - i)) by {
                assert forall|k: int|
                    0 <= k < av.len() - i implies av.reverse().take(av.len() - i)[k] == views_of(
                    out@,
                )[k] by {
                    assert(av.reverse()[k] == av[av.len() - 1 - k]);
                    if k < av.len() - i - 1 {
                        assert(out_before[k] == av.reverse().take(av.len() - i - 1)[k]);
                    }
                }
            }
        }
    }
    proof {
        assert(views_of(active@).reverse().take(active@.len() as int) =~= views_of(
            active@,
        ).reverse());
    }
}

/// Appending a sorted batch whose first endtime is at or after the last
/// archived endtime keeps the archive's rows non-decreasing in endtime, and
/// reading the appended file back yields exactly the old rows followed by
/// the batch.
pub proof fn lemma_archive_stays_sorted(
    old_rows: Seq<TaskListInfoView>,
    batch: Seq<TaskListInfoView>,
)
    requires
        all_wf(old_rows),
        all_wf(batch),
        rows_sorted(old_rows),
        rows_sorted(batch),
        old_rows.len() > 0 && batch.len() > 0 ==> row_le(old_rows.last(), batch.first()),
    ensures
        file_parse(file_text(old_rows) + file_text(batch)) == old_rows + batch,
        rows_sorted(old_rows + batch),
{
    lemma_file_text_concat(old_rows, batch);
    assert(all_wf(old_rows + batch)) by {
        assert forall|i: int| 0 <= i < (old_rows + batch).len() implies info_wf(
            (old_rows + batch)[i],
        ) by {
            if i < old_rows.len() {
                assert((old_rows + batch)[i] == old_rows[i]);
            } else {
                assert((old_rows + batch)[i] == batch[i - old_rows.len()]);
            }
        }
    }
    crate::listinfo::lemma_file_roundtrip(old_rows + batch);
    assert(file_text(old_rows + batch) =~= file_text(old_rows) + file_text(batch));
    assert(rows_sorted(old_rows + batch)) by {
        assert forall|i: int, j: int|
            0 <= i < j < (old_rows + batch).len() implies row_le(
            (old_rows + batch)[i],
            (old_rows + batch)[j],
        ) by {
            let s = old_rows + batch;
            let n = old_rows.len() as int;
            if j < n {
                assert(s[i] == old_rows[i] && s[j] == old_rows[j]);
            } else if i >= n {
                assert(s[i] == batch[i - n] && s[j] == batch[j - n]);
            } else {
                assert(s[i] == old_rows[i] && s[j] == batch[j - n]);
                assert(row_le(old_rows[i], old_rows.last()) || i == n - 1);
                assert(row_le(batch.first(), batch[j - n]) || j == n);
                assert(row_le(old_rows.last(), batch.first()));
            }
        }
    }
}

} // verus!
