//! The unique worker-task identifier and its text form.
//!
//! A task identity carries the node name, the owning process (pid and its
//! start tick, so that a recycled pid is told apart), a per-process task
//! number, the start time, the worker type, an optional worker-supplied
//! sub-id and the issuing principal.  Its text form is
//! `UPID:<node>:<pid hex8>:<pstart hex16>:<task hex16>:<start hex8>:<type>:<id>:<principal>:`
//! and [`lemma_upid_roundtrip`] proves that reading the text back yields the
//! identity it was made from.

use vstd::prelude::*;
use crate::bytes::{has_byte, split_on, split_bytes, lemma_split_on_concat, lemma_split_on_whole,
    bytes_eq, sub_vec};
use crate::hex::{hex_seq, hex_value, is_hex_byte, pow16, render_hex, parse_hex,
    lemma_hex_roundtrip, lemma_hex_canonical, lemma_hex_seq_len};

verus! {

/// Unique identifier of one worker task.
#[derive(Debug, Clone, PartialEq, Eq)]
pub struct UPID {
    /// Node (host) name.
    pub node: Vec<u8>,
    /// Process id of the owning process.
    pub pid: u32,
    /// Start tick of the owning process, to disambiguate pid reuse.
    pub pstart: u64,
    /// Per-process sequential task number.
    pub task_id: u64,
    /// Epoch seconds when the task started.
    pub starttime: i64,
    /// Worker type.
    pub worker_type: Vec<u8>,
    /// Optional worker-supplied sub-identifier.
    pub worker_id: Option<Vec<u8>>,
    /// The principal that started the task.
    pub auth_id: Vec<u8>,
}

/// Mathematical model of a [`UPID`].
#[verifier::ext_equal]
pub ghost struct UpidView {
    pub node: Seq<u8>,
    pub pid: nat,
    pub pstart: nat,
    pub task_id: nat,
    pub starttime: int,
    pub worker_type: Seq<u8>,
    pub worker_id: Option<Seq<u8>>,
    pub auth_id: Seq<u8>,
}

impl View for UPID {
    type V = UpidView;

    open spec fn view(&self) -> UpidView {
        UpidView {
            node: self.node@,
            pid: self.pid as nat,
            pstart: self.pstart as nat,
            task_id: self.task_id as nat,
            starttime: self.starttime as int,
            worker_type: self.worker_type@,
            worker_id: match self.worker_id {
                Some(ref w) => Some(w@),
                None => None,
            },
            auth_id: self.auth_id@,
        }
    }
}

/// A text field of an identity: nonempty, and free of the colon, space and
/// newline that delimit the identity and the rows it stands in.
pub open spec fn field_ok(s: Seq<u8>) -> bool {
    s.len() > 0 && forall|i: int| 0 <= i < s.len() ==> s[i] != 58 && s[i] != 32 && s[i] != 10
}

pub open spec fn upid_wf(u: UpidView) -> bool {
    &&& field_ok(u.node)
    &&& u.pid < 0x1_0000_0000
    &&& u.pstart < 0x1_0000_0000_0000_0000
    &&& u.task_id < 0x1_0000_0000_0000_0000
    &&& 0 <= u.starttime < 0x1_0000_0000
    &&& field_ok(u.worker_type)
    &&& match u.worker_id {
        Some(w) => field_ok(w),
        None => true,
    }
    &&& field_ok(u.auth_id)
}

pub open spec fn upid_marker_b() -> Seq<u8> {
    seq![85u8, 80u8, 73u8, 68u8]
}

pub open spec fn wid_seq(w: Option<Seq<u8>>) -> Seq<u8> {
    match w {
        Some(s) => s,
        None => Seq::<u8>::empty(),
    }
}

/// The canonical text of an identity: the marker and each field, every one
/// followed by a colon.
pub open spec fn upid_text(u: UpidView) -> Seq<u8> {
    upid_marker_b() + seq![58u8] + (u.node + seq![58u8] + (hex_seq(u.pid, 8) + seq![58u8] + (
    hex_seq(u.pstart, 16) + seq![58u8] + (hex_seq(u.task_id, 16) + seq![58u8] + (hex_seq(
        u.starttime as nat,
        8,
    ) + seq![58u8] + (u.worker_type + seq![58u8] + (wid_seq(u.worker_id) + seq![58u8] + (u.auth_id
        + seq![58u8]))))))))
}

/// Reading an identity out of its text: split on colons and check each field.
/// Accepts exactly the texts that [`upid_text`] produces from well-formed
/// identities.
pub open spec fn upid_from_text(s: Seq<u8>) -> Option<UpidView> {
    let parts = split_on(s, 58);
    if parts.len() == 10 && parts[0] == upid_marker_b() && parts[9].len() == 0 && field_ok(
        parts[1],
    ) && parts[2].len() == 8 && hex_value(parts[2]) is Some && parts[3].len() == 16 && hex_value(
        parts[3],
    ) is Some && parts[4].len() == 16 && hex_value(parts[4]) is Some && parts[5].len() == 8
        && hex_value(parts[5]) is Some && field_ok(parts[6]) && (parts[7].len() == 0 || field_ok(
        parts[7],
    )) && field_ok(parts[8]) {
        Some(
            UpidView {
                node: parts[1],
                pid: hex_value(parts[2]).unwrap(),
                pstart: hex_value(parts[3]).unwrap(),
                task_id: hex_value(parts[4]).unwrap(),
                starttime: hex_value(parts[5]).unwrap() as int,
                worker_type: parts[6],
                worker_id: if parts[7].len() == 0 {
                    None
                } else {
                    Some(parts[7])
                },
                auth_id: parts[8],
            },
        )
    } else {
        None
    }
}

pub proof fn lemma_hex_seq_clean(v: nat, w: nat)
    ensures
        forall|i: int| 0 <= i < hex_seq(v, w).len() ==> is_hex_byte(#[trigger] hex_seq(v, w)[i]),
        !has_byte(hex_seq(v, w), 58),
        !has_byte(hex_seq(v, w), 32),
        !has_byte(hex_seq(v, w), 10),
    decreases w,
{
    if w > 0 {
        lemma_hex_seq_clean(v / 16, (w - 1) as nat);
        let s = hex_seq(v, w);
        let prev = hex_seq(v / 16, (w - 1) as nat);
        assert forall|i: int| 0 <= i < s.len() implies is_hex_byte(s[i]) by {
            if i < prev.len() {
                assert(s[i] == prev[i]);
            }
        }
    }
}

pub proof fn lemma_pow16_vals()
    ensures
        pow16(8) == 0x1_0000_0000,
        pow16(16) == 0x1_0000_0000_0000_0000,
{
    assert(pow16(0nat) == 1);
    assert(pow16(1nat) == 16);
    assert(pow16(2nat) == 0x100);
    assert(pow16(3nat) == 0x1000);
    assert(pow16(4nat) == 0x1_0000);
    assert(pow16(5nat) == 0x10_0000);
    assert(pow16(6nat) == 0x100_0000);
    assert(pow16(7nat) == 0x1000_0000);
    assert(pow16(8nat) == 0x1_0000_0000);
    assert(pow16(9nat) == 0x10_0000_0000);
    assert(pow16(10nat) == 0x100_0000_0000);
    assert(pow16(11nat) == 0x1000_0000_0000);
    assert(pow16(12nat) == 0x1_0000_0000_0000);
    assert(pow16(13nat) == 0x10_0000_0000_0000);
    assert(pow16(14nat) == 0x100_0000_0000_0000);
    assert(pow16(15nat) == 0x1000_0000_0000_0000);
    assert(pow16(16nat) == 0x1_0000_0000_0000_0000);
}

/// The text of a well-formed identity reads back to that identity: the text
/// codec round-trips.
pub proof fn lemma_upid_roundtrip(u: UpidView)
    requires
        upid_wf(u),
    ensures
        upid_from_text(upid_text(u)) == Some(u),
{
    let colon = seq![58u8];
    let h_pid = hex_seq(u.pid, 8);
    let h_pstart = hex_seq(u.pstart, 16);
    let h_task = hex_seq(u.task_id, 16);
    let h_start = hex_seq(u.starttime as nat, 8);
    let wid = wid_seq(u.worker_id);
    let s = upid_text(u);

    lemma_hex_seq_clean(u.pid, 8);
    lemma_hex_seq_clean(u.pstart, 16);
    lemma_hex_seq_clean(u.task_id, 16);
    lemma_hex_seq_clean(u.starttime as nat, 8);
    lemma_hex_seq_len(u.pid, 8);
    lemma_hex_seq_len(u.pstart, 16);
    lemma_hex_seq_len(u.task_id, 16);
    lemma_hex_seq_len(u.starttime as nat, 8);

    let r8 = u.auth_id + colon;
    let r7 = wid + colon + r8;
    let r6 = u.worker_type + colon + r7;
    let r5 = h_start + colon + r6;
    let r4 = h_task + colon + r5;
    let r3 = h_pstart + colon + r4;
    let r2 = h_pid + colon + r3;
    let r1 = u.node + colon + r2;

    assert(!has_byte(upid_marker_b(), 58)) by {
        assert forall|i: int| 0 <= i < upid_marker_b().len() implies upid_marker_b()[i] != 58 by {
            assert(upid_marker_b()[i] == seq![85u8, 80u8, 73u8, 68u8][i]);
        }
    }
    assert(!has_byte(u.node, 58));
    assert(!has_byte(u.worker_type, 58));
    assert(!has_byte(wid, 58)) by {
        match u.worker_id {
            Some(w) => {},
            None => {},
        }
    }
    assert(!has_byte(u.auth_id, 58));

    assert(s =~= upid_marker_b() + colon + r1);
    lemma_split_on_concat(upid_marker_b(), r1, 58);
    assert(r1 =~= u.node + colon + r2);
    lemma_split_on_concat(u.node, r2, 58);
    lemma_split_on_concat(h_pid, r3, 58);
    lemma_split_on_concat(h_pstart, r4, 58);
    lemma_split_on_concat(h_task, r5, 58);
    lemma_split_on_concat(h_start, r6, 58);
    lemma_split_on_concat(u.worker_type, r7, 58);
    lemma_split_on_concat(wid, r8, 58);
    assert(r8 =~= u.auth_id + colon + Seq::<u8>::empty());
    lemma_split_on_concat(u.auth_id, Seq::<u8>::empty(), 58);
    lemma_split_on_whole(Seq::<u8>::empty(), 58);

    let parts = split_on(s, 58);
    assert(parts =~~= seq![
        upid_marker_b(),
        u.node,
        h_pid,
        h_pstart,
        h_task,
        h_start,
        u.worker_type,
        wid,
        u.auth_id,
        Seq::<u8>::empty(),
    ]);

    lemma_pow16_vals();
    lemma_hex_roundtrip(u.pid, 8);
    lemma_hex_roundtrip(u.pstart, 16);
    lemma_hex_roundtrip(u.task_id, 16);
    lemma_hex_roundtrip(u.starttime as nat, 8);

    match u.worker_id {
        Some(w) => {
            assert(parts[7].len() != 0);
        },
        None => {
            assert(parts[7].len() == 0);
        },
    }
}

/// The text of a well-formed identity holds neither space nor newline, the
/// delimiters of the rows it stands in.
pub proof fn lemma_upid_text_parts(u: UpidView)
    requires
        upid_wf(u),
    ensures
        !has_byte(upid_text(u), 32),
        !has_byte(upid_text(u), 10),
{
    let colon = seq![58u8];
    let marker = upid_marker_b();
    let wid = wid_seq(u.worker_id);
    let h_pid = hex_seq(u.pid, 8);
    let h_pstart = hex_seq(u.pstart, 16);
    let h_task = hex_seq(u.task_id, 16);
    let h_start = hex_seq(u.starttime as nat, 8);
    lemma_hex_seq_clean(u.pid, 8);
    lemma_hex_seq_clean(u.pstart, 16);
    lemma_hex_seq_clean(u.task_id, 16);
    lemma_hex_seq_clean(u.starttime as nat, 8);
    assert(!has_byte(marker, 32) && !has_byte(marker, 10)) by {
        assert forall|i: int| 0 <= i < marker.len() implies marker[i] != 32 && marker[i] != 10 by {
            assert(marker[i] == seq![85u8, 80u8, 73u8, 68u8][i]);
        }
    }
    assert(!has_byte(colon, 32) && !has_byte(colon, 10)) by {
        assert forall|i: int| 0 <= i < colon.len() implies colon[i] != 32 && colon[i] != 10 by {
            assert(colon[i] == 58u8);
        }
    }
    assert(!has_byte(wid, 32) && !has_byte(wid, 10)) by {
        match u.worker_id {
            Some(w) => {},
            None => {},
        }
    }
    lemma_both(marker, colon);
    let t1 = marker + colon;
    lemma_both(t1, u.node);
    let t2 = t1 + u.node;
    lemma_both(t2, colon);
    let t3 = t2 + colon;
    lemma_both(t3, h_pid);
    let t4 = t3 + h_pid;
    lemma_both(t4, colon);
    let t5 = t4 + colon;
    lemma_both(t5, h_pstart);
    let t6 = t5 + h_pstart;
    lemma_both(t6, colon);
    let t7 = t6 + colon;
    lemma_both(t7, h_task);
    let t8 = t7 + h_task;
    lemma_both(t8, colon);
    let t9 = t8 + colon;
    lemma_both(t9, h_start);
    let t10 = t9 + h_start;
    lemma_both(t10, colon);
    let t11 = t10 + colon;
    lemma_both(t11, u.worker_type);
    let t12 = t11 + u.worker_type;
    lemma_both(t12, colon);
    let t13 = t12 + colon;
    lemma_both(t13, wid);
    let t14 = t13 + wid;
    lemma_both(t14, colon);
    let t15 = t14 + colon;
    lemma_both(t15, u.auth_id);
    let t16 = t15 + u.auth_id;
    lemma_both(t16, colon);
}

/// Concatenation keeps space and newline out when both halves do.
proof fn lemma_both(a: Seq<u8>, b: Seq<u8>)
    requires
        !has_byte(a, 32),
        !has_byte(a, 10),
        !has_byte(b, 32),
        !has_byte(b, 10),
    ensures
        !has_byte(a + b, 32),
        !has_byte(a + b, 10),
{
    crate::bytes::lemma_concat_no_byte(a, b, 32);
    crate::bytes::lemma_concat_no_byte(a, b, 10);
}

/// An accepted identity text is the canonical text of the identity read out
/// of it, which is well-formed: the parser accepts canonical texts only.
#[verifier::rlimit(100)]
#[verifier::spinoff_prover]
pub proof fn lemma_upid_parse_text(s: Seq<u8>)
    requires
        upid_from_text(s) is Some,
    ensures
        upid_wf(upid_from_text(s).unwrap()),
        upid_text(upid_from_text(s).unwrap()) == s,
{
    let parts = split_on(s, 58);
    let u = upid_from_text(s).unwrap();
    crate::bytes::lemma_split_join(s, 58);
    crate::bytes::lemma_split_on_parts_clean(s, 58);
    lemma_pow16_vals();
    lemma_hex_canonical(parts[2], hex_value(parts[2]).unwrap());
    lemma_hex_canonical(parts[3], hex_value(parts[3]).unwrap());
    lemma_hex_canonical(parts[4], hex_value(parts[4]).unwrap());
    lemma_hex_canonical(parts[5], hex_value(parts[5]).unwrap());
    // Unfold the join of the ten parts.
    let colon = seq![58u8];
    lemma_join_ten(parts);
    assert(s == parts[0] + colon + (parts[1] + colon + (parts[2] + colon + (parts[3] + colon + (
    parts[4] + colon + (parts[5] + colon + (parts[6] + colon + (parts[7] + colon + (parts[8]
        + colon + parts[9])))))))));
    assert(parts[9] =~= Seq::<u8>::empty());
    assert(hex_seq(u.pid, 8) == parts[2]);
    assert(hex_seq(u.pstart, 16) == parts[3]);
    assert(hex_seq(u.task_id, 16) == parts[4]);
    assert(hex_seq(u.starttime as nat, 8) == parts[5]);
    assert(wid_seq(u.worker_id) == parts[7]) by {
        if parts[7].len() == 0 {
            assert(wid_seq(u.worker_id) =~= parts[7]);
        }
    }
    assert(parts[8] + colon + parts[9] == parts[8] + colon) by {
        assert(parts[8] + colon + parts[9] =~= parts[8] + colon);
    }
    assert(upid_text(u) == s);
}

/// The join of a ten-part split, written out.
proof fn lemma_join_ten(parts: Seq<Seq<u8>>)
    requires
        parts.len() == 10,
    ensures
        crate::bytes::join_with(parts, 58) == parts[0] + seq![58u8] + (parts[1] + seq![58u8] + (
        parts[2] + seq![58u8] + (parts[3] + seq![58u8] + (parts[4] + seq![58u8] + (parts[5] + seq![
            58u8,
        ] + (parts[6] + seq![58u8] + (parts[7] + seq![58u8] + (parts[8] + seq![58u8]
            + parts[9])))))))),
{
    assert(parts.skip(9).len() == 1 && parts.skip(9)[0] == parts[9]);
    assert(crate::bytes::join_with(parts.skip(9), 58) == parts[9]);
    lemma_join_step(parts, 8);
    lemma_join_step(parts, 7);
    lemma_join_step(parts, 6);
    lemma_join_step(parts, 5);
    lemma_join_step(parts, 4);
    lemma_join_step(parts, 3);
    lemma_join_step(parts, 2);
    lemma_join_step(parts, 1);
    lemma_join_step(parts, 0);
    assert(parts.skip(0) =~~= parts);
    assert(crate::bytes::join_with(parts.skip(0), 58) == crate::bytes::join_with(parts, 58));
}

/// One unfolding step of the join: at index `k` of a ten-part split.
proof fn lemma_join_step(parts: Seq<Seq<u8>>, k: int)
    requires
        parts.len() == 10,
        0 <= k < 9,
    ensures
        crate::bytes::join_with(parts.skip(k), 58) == parts[k] + seq![58u8]
            + crate::bytes::join_with(parts.skip(k + 1), 58),
{
    let sub = parts.skip(k);
    assert(sub.len() == 10 - k >= 2);
    assert(sub[0] == parts[k]);
    assert(sub.drop_first() =~~= parts.skip(k + 1));
}

/// Check a field for the bytes an identity must not contain.
pub fn check_field(s: &[u8]) -> (r: bool)
    ensures
        r == field_ok(s@),
{
    if s.len() == 0 {
        return false;
    }
    let mut i: usize = 0;
    while i < s.len()
        invariant
            i <= s@.len(),
            forall|j: int| 0 <= j < i ==> s@[j] != 58 && s@[j] != 32 && s@[j] != 10,
        decreases s@.len() - i,
    {
        let c = s[i];
        if c == 58 || c == 32 || c == 10 {
            return false;
        }
        i += 1;
    }
    true
}

fn upid_marker() -> (r: Vec<u8>)
    ensures
        r@ == upid_marker_b(),
{
    let mut v: Vec<u8> = Vec::new();
    v.push(85);
    v.push(80);
    v.push(73);
    v.push(68);
    proof {
        assert(v@ =~= upid_marker_b());
    }
    v
}

impl UPID {
    /// Well-formedness of this identity.
    pub open spec fn wf(&self) -> bool {
        upid_wf(self@)
    }

    /// Build an identity from its parts, checking each field.  Returns
    /// `None` exactly when some text field is empty or holds a delimiter
    /// byte, or the start time is out of range.
    pub fn new(
        node: Vec<u8>,
        worker_type: Vec<u8>,
        worker_id: Option<Vec<u8>>,
        auth_id: Vec<u8>,
        pid: u32,
        pstart: u64,
        task_id: u64,
        starttime: i64,
    ) -> (r: Option<UPID>)
        ensures
            match r {
                Some(u) => u@ == (UpidView {
                    node: node@,
                    pid: pid as nat,
                    pstart: pstart as nat,
                    task_id: task_id as nat,
                    starttime: starttime as int,
                    worker_type: worker_type@,
                    worker_id: match worker_id {
                        Some(w) => Some(w@),
                        None => None,
                    },
                    auth_id: auth_id@,
                }) && u.wf(),
                None => !upid_wf(
                    UpidView {
                        node: node@,
                        pid: pid as nat,
                        pstart: pstart as nat,
                        task_id: task_id as nat,
                        starttime: starttime as int,
                        worker_type: worker_type@,
                        worker_id: match worker_id {
                            Some(w) => Some(w@),
                            None => None,
                        },
                        auth_id: auth_id@,
                    },
                ),
            },
    {
        if !check_field(node.as_slice()) {
            return None;
        }
        if !check_field(worker_type.as_slice()) {
            return None;
        }
        let wid_ok = match &worker_id {
            Some(w) => check_field(w.as_slice()),
            None => true,
        };
        if !wid_ok {
            return None;
        }
        if !check_field(auth_id.as_slice()) {
            return None;
        }
        if starttime < 0 || starttime >= 0x1_0000_0000 {
            return None;
        }
        Some(UPID { node, pid, pstart, task_id, starttime, worker_type, worker_id, auth_id })
    }

    /// Render the canonical text of this identity.
    pub fn to_text(&self) -> (r: Vec<u8>)
        requires
            self.wf(),
        ensures
            r@ == upid_text(self@),
    {
        let mut out = upid_marker();
        out.push(58);
        out.extend_from_slice(self.node.as_slice());
        out.push(58);
        let h = render_hex(self.pid as u64, 8);
        out.extend_from_slice(h.as_slice());
        out.push(58);
        let h = render_hex(self.pstart, 16);
        out.extend_from_slice(h.as_slice());
        out.push(58);
        let h = render_hex(self.task_id, 16);
        out.extend_from_slice(h.as_slice());
        out.push(58);
        let h = render_hex(self.starttime as u64, 8);
        out.extend_from_slice(h.as_slice());
        out.push(58);
        out.extend_from_slice(self.worker_type.as_slice());
        out.push(58);
        match &self.worker_id {
            Some(w) => out.extend_from_slice(w.as_slice()),
            None => {},
        }
        out.push(58);
        out.extend_from_slice(self.auth_id.as_slice());
        out.push(58);
        proof {
            assert(out@ =~= upid_text(self@));
        }
        out
    }

    /// Read an identity out of its text; accepts exactly what
    /// [`upid_from_text`] accepts.
    pub fn parse(s: &[u8]) -> (r: Option<UPID>)
        ensures
            match r {
                Some(u) => upid_from_text(s@) == Some(u@) && u.wf(),
                None => upid_from_text(s@) is None,
            },
    {
        let parts = split_bytes(s, 58);
        proof {
            assert forall|i: int| 0 <= i < parts@.len() implies #[trigger] parts.deep_view()[i]
                == parts@[i]@ by {
                assert(parts.deep_view()[i] =~= parts@[i]@);
            }
        }
        if parts.len() != 10 {
            return None;
        }
        let marker = upid_marker();
        if !bytes_eq(parts[0].as_slice(), marker.as_slice()) {
            return None;
        }
        if parts[9].len() != 0 {
            return None;
        }
        if !check_field(parts[1].as_slice()) {
            return None;
        }
        if parts[2].len() != 8 {
            return None;
        }
        let pid = match parse_hex(parts[2].as_slice()) {
            Some(v) => v,
            None => {
                return None;
            },
        };
        if parts[3].len() != 16 {
            return None;
        }
        let pstart = match parse_hex(parts[3].as_slice()) {
            Some(v) => v,
            None => {
                return None;
            },
        };
        if parts[4].len() != 16 {
            return None;
        }
        let task_id = match parse_hex(parts[4].as_slice()) {
            Some(v) => v,
            None => {
                return None;
            },
        };
        if parts[5].len() != 8 {
            return None;
        }
        let starttime = match parse_hex(parts[5].as_slice()) {
            Some(v) => v,
            None => {
                return None;
            },
        };
        if !check_field(parts[6].as_slice()) {
            return None;
        }
        let wid_empty = parts[7].len() == 0;
        if !wid_empty && !check_field(parts[7].as_slice()) {
            return None;
        }
        if !check_field(parts[8].as_slice()) {
            return None;
        }
        proof {
            lemma_pow16_vals();
            lemma_hex_canonical(parts@[2]@, pid as nat);
            lemma_hex_canonical(parts@[5]@, starttime as nat);
        }
        let node = sub_vec(parts[1].as_slice(), 0, parts[1].len());
        let worker_type = sub_vec(parts[6].as_slice(), 0, parts[6].len());
        let worker_id: Option<Vec<u8>> = if wid_empty {
            None
        } else {
            let w = sub_vec(parts[7].as_slice(), 0, parts[7].len());
            proof {
                assert(w@ =~= parts@[7]@);
            }
            Some(w)
        };
        let auth_id = sub_vec(parts[8].as_slice(), 0, parts[8].len());
        proof {
            assert(node@ =~= parts@[1]@);
            assert(worker_type@ =~= parts@[6]@);
            assert(auth_id@ =~= parts@[8]@);
        }
        Some(
            UPID {
                node,
                pid: pid as u32,
                pstart,
                task_id,
                starttime: starttime as i64,
                worker_type,
                worker_id,
                auth_id,
            },
        )
    }
}

} // verus!
