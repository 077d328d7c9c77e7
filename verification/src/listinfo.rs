//! One row of the active list or the archive, and whole row files.
//!
//! A running task is recorded as `<upid>`; a finished one as
//! `<upid> <endtime as 8-digit hex> <status text>`.  Files hold one row per
//! line; a malformed line is skipped, never fatal.

use vstd::prelude::*;
use crate::bytes::{has_byte, split_on, lemma_split_on_whole, lemma_split_on_concat,
    lemma_split_on_len, lemma_split_first, find_byte_from, sub_vec, split_bytes};
use crate::hex::{hex_seq, hex_value, render_hex, parse_hex, lemma_hex_roundtrip,
    lemma_hex_canonical};
use crate::task_state::{TaskState, TaskStateView, status_wf, status_text_of, status_from,
    view_endtime, lemma_status_roundtrip};
use crate::upid::{UPID, UpidView, upid_wf, upid_text, upid_from_text, lemma_upid_roundtrip,
    lemma_pow16_vals};

verus! {

/// One listing record: the identity, its raw text, and the outcome when the
/// task is already finished.
#[derive(Debug, Clone, PartialEq, Eq)]
pub struct TaskListInfo {
    /// The parsed identity.
    pub upid: UPID,
    /// Text form of the identity.
    pub upid_str: Vec<u8>,
    /// The outcome; `None` while the task is believed running.
    pub state: Option<TaskState>,
}

/// Mathematical model of a [`TaskListInfo`].
#[verifier::ext_equal]
pub ghost struct TaskListInfoView {
    pub upid: UpidView,
    pub upid_str: Seq<u8>,
    pub state: Option<TaskStateView>,
}

impl View for TaskListInfo {
    type V = TaskListInfoView;

    open spec fn view(&self) -> TaskListInfoView {
        TaskListInfoView {
            upid: self.upid@,
            upid_str: self.upid_str@,
            state: match self.state {
                Some(ref st) => Some(st@),
                None => None,
            },
        }
    }
}

/// A row is well-formed when the raw text really is the identity's text and
/// any outcome is itself well-formed.
pub open spec fn info_wf(v: TaskListInfoView) -> bool {
    &&& upid_wf(v.upid)
    &&& v.upid_str == upid_text(v.upid)
    &&& match v.state {
        Some(st) => status_wf(st),
        None => true,
    }
}

pub open spec fn views_of(rows: Seq<TaskListInfo>) -> Seq<TaskListInfoView> {
    rows.map_values(|r: TaskListInfo| r@)
}

pub open spec fn all_wf(rows: Seq<TaskListInfoView>) -> bool {
    forall|i: int| 0 <= i < rows.len() ==> info_wf(#[trigger] rows[i])
}

/// The text of one row, without its terminating newline.
pub open spec fn line_of(v: TaskListInfoView) -> Seq<u8> {
    match v.state {
        None => v.upid_str,
        Some(st) => v.upid_str + seq![32u8] + hex_seq(view_endtime(st) as nat, 8) + seq![32u8]
            + status_text_of(st),
    }
}

/// Reading one row: a row without spaces is a running task's identity; a row
/// of three space-separated columns is identity, endtime and status, the
/// status keeping any further spaces.
pub open spec fn line_parse(s: Seq<u8>) -> Option<TaskListInfoView> {
    let parts = split_on(s, 32);
    if parts.len() == 1 {
        match upid_from_text(s) {
            Some(u) => Some(TaskListInfoView { upid: u, upid_str: s, state: None }),
            None => None,
        }
    } else if parts.len() == 2 {
        None
    } else {
        let rest = s.skip(parts[0].len() as int + parts[1].len() as int + 2);
        if upid_from_text(parts[0]) is Some && parts[1].len() == 8 && hex_value(parts[1]) is Some {
            let u = upid_from_text(parts[0]).unwrap();
            let e = hex_value(parts[1]).unwrap() as int;
            match status_from(e, rest) {
                Some(st) => Some(
                    TaskListInfoView { upid: u, upid_str: parts[0], state: Some(st) },
                ),
                None => None,
            }
        } else {
            None
        }
    }
}

/// The identity's text holds none of the delimiter bytes.
pub proof fn lemma_upid_text_clean(u: UpidView)
    requires
        upid_wf(u),
    ensures
        !has_byte(upid_text(u), 32),
        !has_byte(upid_text(u), 10),
{
    crate::upid::lemma_upid_text_parts(u);
}

/// A well-formed row's text holds no newline.
pub proof fn lemma_line_clean(v: TaskListInfoView)
    requires
        info_wf(v),
    ensures
        !has_byte(line_of(v), 10),
{
    lemma_upid_text_clean(v.upid);
    match v.state {
        None => {},
        Some(st) => {
            let s = line_of(v);
            crate::upid::lemma_hex_seq_clean(view_endtime(st) as nat, 8);
            assert forall|i: int| 0 <= i < s.len() implies s[i] != 10 by {
                let a = v.upid_str;
                let b = hex_seq(view_endtime(st) as nat, 8);
                let c = status_text_of(st);
                if i < a.len() {
                    assert(s[i] == a[i]);
                } else if i == a.len() {
                } else if i < a.len() + 1 + b.len() {
                    assert(s[i] == b[i - a.len() - 1]);
                } else if i == a.len() + 1 + b.len() {
                } else {
                    assert(s[i] == c[i - a.len() - b.len() - 2]);
                    lemma_status_text_clean(st);
                }
            }
        },
    }
}

/// A well-formed status text holds no newline.
pub proof fn lemma_status_text_clean(st: TaskStateView)
    requires
        status_wf(st),
    ensures
        !has_byte(status_text_of(st), 10),
{
    let s = status_text_of(st);
    match st {
        TaskStateView::Unknown { .. } => {
            assert forall|i: int| 0 <= i < s.len() implies s[i] != 10 by {}
        },
        TaskStateView::OK { .. } => {
            assert forall|i: int| 0 <= i < s.len() implies s[i] != 10 by {}
        },
        TaskStateView::Warning { count, .. } => {
            crate::hex::lemma_dec_seq_clean(count);
            assert forall|i: int| 0 <= i < s.len() implies s[i] != 10 by {
                let p = crate::task_state::warnings_prefix_b();
                if i < p.len() {
                    assert(s[i] == p[i]);
                } else {
                    assert(s[i] == crate::hex::dec_seq(count)[i - p.len()]);
                }
            }
        },
        TaskStateView::Error { message, .. } => {
            assert forall|i: int| 0 <= i < s.len() implies s[i] != 10 by {
                let p = crate::task_state::error_prefix_b();
                if i < p.len() {
                    assert(s[i] == p[i]);
                } else {
                    assert(s[i] == message[i - p.len()]);
                }
            }
        },
    }
}

/// A well-formed row's text reads back to the same row.
pub proof fn lemma_line_roundtrip(v: TaskListInfoView)
    requires
        info_wf(v),
    ensures
        line_parse(line_of(v)) == Some(v),
{
    lemma_upid_text_clean(v.upid);
    match v.state {
        None => {
            lemma_split_on_whole(line_of(v), 32);
            lemma_upid_roundtrip(v.upid);
        },
        Some(st) => {
            let s = line_of(v);
            let a = v.upid_str;
            let b = hex_seq(view_endtime(st) as nat, 8);
            let c = status_text_of(st);
            crate::upid::lemma_hex_seq_clean(view_endtime(st) as nat, 8);
            assert(s =~= a + seq![32u8] + (b + seq![32u8] + c));
            lemma_split_on_concat(a, b + seq![32u8] + c, 32);
            assert(b + seq![32u8] + c =~= b + seq![32u8] + c);
            lemma_split_on_concat(b, c, 32);
            lemma_split_on_len(c, 32);
            let parts = split_on(s, 32);
            assert(parts =~~= seq![a, b] + split_on(c, 32));
            assert(parts.len() >= 3);
            assert(parts[0] == a && parts[1] == b);
            lemma_upid_roundtrip(v.upid);
            lemma_pow16_vals();
            crate::hex::lemma_hex_seq_len(view_endtime(st) as nat, 8);
            lemma_hex_roundtrip(view_endtime(st) as nat, 8);
            assert(s.skip(a.len() as int + b.len() as int + 2) =~= c);
            lemma_status_roundtrip(st);
        },
    }
}

/// Render one row, newline-terminated.
pub fn render_task_line(info: &TaskListInfo) -> (r: Vec<u8>)
    requires
        info_wf(info@),
    ensures
        r@ == line_of(info@) + seq![10u8],
{
    let mut out: Vec<u8> = Vec::new();
    out.extend_from_slice(info.upid_str.as_slice());
    match &info.state {
        None => {},
        Some(st) => {
            out.push(32);
            let e = st.endtime();
            let h = render_hex(e as u64, 8);
            out.extend_from_slice(h.as_slice());
            out.push(32);
            let t = st.status_text();
            out.extend_from_slice(t.as_slice());
        },
    }
    out.push(10);
    proof {
        assert(out@ =~= line_of(info@) + seq![10u8]);
    }
    out
}

/// The whole text of a row file.
pub open spec fn file_text(rows: Seq<TaskListInfoView>) -> Seq<u8>
    decreases rows.len(),
{
    if rows.len() == 0 {
        Seq::<u8>::empty()
    } else {
        line_of(rows[0]) + seq![10u8] + file_text(rows.drop_first())
    }
}

/// Render a list of rows as a file.
pub fn render_task_list(rows: &Vec<TaskListInfo>) -> (r: Vec<u8>)
    requires
        all_wf(views_of(rows@)),
    ensures
        r@ == file_text(views_of(rows@)),
{
    let mut out: Vec<u8> = Vec::new();
    let mut i: usize = 0;
    proof {
        assert(views_of(rows@).skip(0) =~= views_of(rows@));
    }
    while i < rows.len()
        invariant
            i <= rows@.len(),
            all_wf(views_of(rows@)),
            file_text(views_of(rows@)) =~= out@ + file_text(views_of(rows@).skip(i as int)),
        decreases rows@.len() - i,
    {
        proof {
            assert(views_of(rows@)[i as int] == rows@[i as int]@);
            assert(info_wf(rows@[i as int]@));
        }
        let line = render_task_line(&rows[i]);
        out.extend_from_slice(line.as_slice());
        i += 1;
        proof {
            let vs = views_of(rows@);
            assert(vs.skip(i - 1) =~= seq![vs[i - 1]] + vs.skip(i as int));
            assert(file_text(vs.skip(i - 1)) =~= line_of(vs[i - 1]) + seq![10u8] + file_text(
                vs.skip(i as int),
            )) by {
                let sub = vs.skip(i - 1);
                assert(sub[0] == vs[i - 1]);
                assert(sub.drop_first() =~= vs.skip(i as int));
            }
        }
    }
    proof {
        assert(views_of(rows@).skip(rows@.len() as int) =~= Seq::<TaskListInfoView>::empty());
    }
    out
}

/// Parse every line of `lines`, keeping the rows that parse.
pub open spec fn parse_lines(lines: Seq<Seq<u8>>) -> Seq<TaskListInfoView>
    decreases lines.len(),
{
    if lines.len() == 0 {
        Seq::<TaskListInfoView>::empty()
    } else {
        let head = match line_parse(lines[0]) {
            Some(v) => seq![v],
            None => Seq::<TaskListInfoView>::empty(),
        };
        head + parse_lines(lines.drop_first())
    }
}

/// The rows recovered from a file's content: split into lines, parse each,
/// skip what does not parse.
pub open spec fn file_parse(content: Seq<u8>) -> Seq<TaskListInfoView> {
    parse_lines(split_on(content, 10))
}

/// Reading back a rendered file yields exactly the rows that were written.
pub proof fn lemma_file_roundtrip(rows: Seq<TaskListInfoView>)
    requires
        all_wf(rows),
    ensures
        file_parse(file_text(rows)) == rows,
    decreases rows.len(),
{
    if rows.len() == 0 {
        let e = Seq::<u8>::empty();
        assert(file_text(rows) =~= e);
        lemma_split_on_whole(e, 10);
        assert(split_on(e, 10) =~~= seq![e]);
        assert(line_parse(e) is None) by {
            lemma_split_on_whole(e, 32);
            assert(split_on(e, 32) =~~= seq![e]);
            lemma_split_on_whole(e, 58);
            assert(split_on(e, 58) =~~= seq![e]);
            assert(upid_from_text(e) is None);
        }
        assert(parse_lines(seq![e]) =~= Seq::<TaskListInfoView>::empty()) by {
            assert(seq![e].drop_first() =~= Seq::<Seq<u8>>::empty());
            assert(parse_lines(Seq::<Seq<u8>>::empty()) =~= Seq::<TaskListInfoView>::empty());
        }
        assert(file_parse(file_text(rows)) =~= rows);
    } else {
        let head = rows[0];
        let rest = rows.drop_first();
        assert(info_wf(head));
        assert(all_wf(rest)) by {
            assert forall|i: int| 0 <= i < rest.len() implies info_wf(rest[i]) by {
                assert(rest[i] == rows[i + 1]);
            }
        }
        lemma_line_clean(head);
        lemma_split_on_concat(line_of(head), file_text(rest), 10);
        assert(file_text(rows) =~= line_of(head) + seq![10u8] + file_text(rest));
        lemma_line_roundtrip(head);
        lemma_file_roundtrip(rest);
        let lines = split_on(file_text(rows), 10);
        assert(lines =~~= seq![line_of(head)] + split_on(file_text(rest), 10));
        assert(lines.drop_first() =~~= split_on(file_text(rest), 10));
        assert(file_parse(file_text(rows)) =~= rows);
    }
}

/// Read one row.  Accepts exactly what [`line_parse`] accepts.
pub fn parse_worker_status_line(line: &[u8]) -> (r: Option<TaskListInfo>)
    requires
        !has_byte(line@, 10),
    ensures
        match r {
            Some(info) => line_parse(line@) == Some(info@) && info_wf(info@),
            None => line_parse(line@) is None,
        },
{
    let n = line.len();
    let first_space = find_byte_from(line, 32, 0);
    match first_space {
        None => {
            proof {
                lemma_split_on_whole(line@, 32);
            }
            match UPID::parse(line) {
                Some(u) => {
                    let upid_str = sub_vec(line, 0, line.len());
                    proof {
                        assert(upid_str@ =~= line@);
                        crate::upid::lemma_upid_parse_text(line@);
                    }
                    Some(TaskListInfo { upid: u, upid_str, state: None })
                },
                None => None,
            }
        },
        Some(i) => {
            proof {
                lemma_split_first(line@, 32);
                assert(split_on(line@, 32)[0] =~= line@.subrange(0, i as int)) by {
                    let p0 = split_on(line@, 32)[0];
                    assert(line@ =~= p0 + seq![32u8] + line@.skip(p0.len() as int + 1));
                    assert forall|k: int| 0 <= k < p0.len() implies line@[k] == p0[k] by {}
                    assert(p0.len() <= i) by {
                        if p0.len() > i {
                            assert(p0[i as int] == line@[i as int]);
                        }
                    }
                    assert(line@[p0.len() as int] == 32);
                    assert(p0.len() >= i);
                    assert(p0 =~= line@.subrange(0, p0.len() as int));
                }
            }
            proof {
                assert(i < n);
            }
            let second_space = find_byte_from(line, 32, i + 1);
            match second_space {
                None => {
                    proof {
                        let parts = split_on(line@, 32);
                        let tail = line@.skip(i + 1);
                        assert(!has_byte(tail, 32)) by {
                            assert forall|k: int| 0 <= k < tail.len() implies tail[k] != 32 by {
                                assert(tail[k] == line@[k + i + 1]);
                            }
                        }
                        lemma_split_on_whole(tail, 32);
                        assert(parts.drop_first() =~~= seq![tail]);
                        assert(parts.len() == 2);
                    }
                    None
                },
                Some(j) => {
                    proof {
                        assert(j < n);
                        let parts = split_on(line@, 32);
                        let tail = line@.skip(i + 1);
                        lemma_split_first(tail, 32);
                        assert(parts.drop_first() =~~= split_on(tail, 32));
                        assert(parts[1] == split_on(tail, 32)[0]);
                        assert(split_on(tail, 32)[0] =~= tail.subrange(0, (j - i - 1) as int)) by {
                            let p0 = split_on(tail, 32)[0];
                            assert(tail =~= p0 + seq![32u8] + tail.skip(p0.len() as int + 1));
                            assert forall|k: int| 0 <= k < p0.len() implies tail[k] == p0[k] by {}
                            assert(p0.len() <= j - i - 1) by {
                                if p0.len() > j - i - 1 {
                                    assert(p0[(j - i - 1) as int] == tail[(j - i - 1) as int]);
                                    assert(tail[(j - i - 1) as int] == line@[j as int]);
                                }
                            }
                            assert(tail[p0.len() as int] == 32);
                            assert(line@[p0.len() as int + i + 1] == 32);
                            assert(p0.len() >= j - i - 1);
                            assert(p0 =~= tail.subrange(0, p0.len() as int));
                        }
                        assert(parts.len() >= 3);
                        assert(parts[1] =~= line@.subrange(i + 1, j as int));
                    }
                    let upid_part = sub_vec(line, 0, i);
                    let hex_part = sub_vec(line, i + 1, j);
                    let rest = sub_vec(line, j + 1, line.len());
                    proof {
                        let parts = split_on(line@, 32);
                        assert(upid_part@ =~= parts[0]);
                        assert(hex_part@ =~= parts[1]);
                        assert(rest@ =~= line@.skip(
                            parts[0].len() as int + parts[1].len() as int + 2,
                        ));
                    }
                    if hex_part.len() != 8 {
                        return None;
                    }
                    let endtime = match parse_hex(hex_part.as_slice()) {
                        Some(v) => v,
                        None => {
                            return None;
                        },
                    };
                    let u = match UPID::parse(upid_part.as_slice()) {
                        Some(u) => u,
                        None => {
                            return None;
                        },
                    };
                    proof {
                        lemma_pow16_vals();
                        lemma_hex_canonical(hex_part@, endtime as nat);
                        crate::upid::lemma_upid_parse_text(upid_part@);
                    }
                    match TaskState::from_endtime_and_message(endtime as i64, rest.as_slice()) {
                        Some(st) => {
                            proof {
                                crate::task_state::lemma_status_from_wf(
                                    endtime as int,
                                    rest@,
                                    st@,
                                );
                            }
                            Some(TaskListInfo { upid: u, upid_str: upid_part, state: Some(st) })
                        },
                        None => None,
                    }
                },
            }
        },
    }
}

/// Read a whole row file, skipping lines that do not parse.
pub fn read_task_file(content: &[u8]) -> (r: Vec<TaskListInfo>)
    ensures
        views_of(r@) == file_parse(content@),
        all_wf(views_of(r@)),
{
    let lines = split_bytes(content, 10);
    let mut out: Vec<TaskListInfo> = Vec::new();
    let mut i: usize = 0;
    proof {
        assert(views_of(out@) =~= Seq::<TaskListInfoView>::empty());
        assert(lines.deep_view().skip(0) =~= lines.deep_view());
        assert(parse_lines(lines.deep_view().skip(0)) =~= file_parse(content@));
        crate::bytes::lemma_split_on_parts_clean(content@, 10);
    }
    while i < lines.len()
        invariant
            i <= lines@.len(),
            file_parse(content@) =~= views_of(out@) + parse_lines(lines.deep_view().skip(i as int)),
            all_wf(views_of(out@)),
            lines.deep_view().len() == lines@.len(),
            lines.deep_view() == split_on(content@, 10),
            forall|k: int| 0 <= k < lines.deep_view().len() ==> !has_byte(
                #[trigger] lines.deep_view()[k],
                10,
            ),
        decreases lines@.len() - i,
    {
        proof {
            assert(lines.deep_view()[i as int] == lines@[i as int]@);
            let sub = lines.deep_view().skip(i as int);
            assert(sub[0] == lines.deep_view()[i as int]);
            assert(sub.drop_first() =~= lines.deep_view().skip(i + 1));
            assert(!has_byte(lines@[i as int]@, 10));
        }
        match parse_worker_status_line(lines[i].as_slice()) {
            Some(info) => {
                let ghost vs0 = views_of(out@);
                out.push(info);
                proof {
                    assert(views_of(out@) =~= vs0 + seq![info@]);
                }
            },
            None => {},
        }
        i += 1;
    }
    proof {
        assert(lines.deep_view().skip(lines@.len() as int) =~= Seq::<Seq<u8>>::empty());
    }
    out
}

} // verus!
