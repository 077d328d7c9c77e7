//! Timestamps for log lines: epoch seconds rendered as, and read from,
//! `YYYY-MM-DDTHH:MM:SSZ`, with the civil-calendar arithmetic written out
//! and verified against its specification model.

use vstd::prelude::*;

verus! {

pub open spec fn pow10(w: nat) -> nat
    decreases w,
{
    if w == 0 {
        1
    } else {
        10 * pow10((w - 1) as nat)
    }
}

/// `v` printed as exactly `w` decimal digits, most significant first;
/// digits beyond `w` are lost.
pub open spec fn decf_seq(v: nat, w: nat) -> Seq<u8>
    decreases w,
{
    if w == 0 {
        Seq::<u8>::empty()
    } else {
        decf_seq(v / 10, (w - 1) as nat) + seq![(48 + v % 10) as u8]
    }
}

/// The value of a fixed-width digit string; `None` when some byte is not a
/// digit.
pub open spec fn decf_value(s: Seq<u8>) -> Option<nat>
    decreases s.len(),
{
    if s.len() == 0 {
        Some(0nat)
    } else if 48 <= s.last() <= 57 {
        match decf_value(s.drop_last()) {
            Some(h) => Some((10 * h + (s.last() - 48)) as nat),
            None => None,
        }
    } else {
        None
    }
}

pub proof fn lemma_decf_seq_len(v: nat, w: nat)
    ensures
        decf_seq(v, w).len() == w,
    decreases w,
{
    if w > 0 {
        lemma_decf_seq_len(v / 10, (w - 1) as nat);
    }
}

/// Rendering then reading a value below `pow10(w)` gives the value back.
pub proof fn lemma_decf_roundtrip(v: nat, w: nat)
    requires
        v < pow10(w),
    ensures
        decf_value(decf_seq(v, w)) == Some(v),
    decreases w,
{
    if w == 0 {
    } else {
        let s = decf_seq(v, w);
        lemma_decf_seq_len(v / 10, (w - 1) as nat);
        assert(s.drop_last() =~= decf_seq(v / 10, (w - 1) as nat));
        assert(v / 10 < pow10((w - 1) as nat)) by {
            assert(pow10(w) == 10 * pow10((w - 1) as nat));
        }
        lemma_decf_roundtrip(v / 10, (w - 1) as nat);
    }
}

/// Render `v` as exactly `width` decimal digits.
pub fn render_decf(v: u64, width: usize) -> (r: Vec<u8>)
    requires
        width <= 19,
    ensures
        r@ == decf_seq(v as nat, width as nat),
        r@.len() == width,
    decreases width,
{
    proof {
        lemma_decf_seq_len(v as nat, width as nat);
    }
    if width == 0 {
        Vec::new()
    } else {
        let mut r = render_decf(v / 10, width - 1);
        r.push(48 + ((v % 10) as u8));
        proof {
            assert(r@ =~= decf_seq((v / 10) as nat, (width - 1) as nat) + seq![
                (48 + (v as nat) % 10) as u8,
            ]);
        }
        r
    }
}

/// Read a fixed-width digit string of at most four digits.
pub fn parse_decf(s: &[u8]) -> (r: Option<u64>)
    requires
        s@.len() <= 4,
    ensures
        match r {
            Some(v) => decf_value(s@) == Some(v as nat) && v < 10000,
            None => decf_value(s@) is None,
        },
{
    let mut acc: u64 = 0;
    let mut i: usize = 0;
    proof {
        assert(s@.subrange(0, 0) =~= Seq::<u8>::empty());
        assert(pow10(0nat) == 1 && pow10(1nat) == 10 && pow10(2nat) == 100 && pow10(3nat) == 1000
            && pow10(4nat) == 10000);
    }
    while i < s.len()
        invariant
            i <= s@.len() <= 4,
            decf_value(s@.subrange(0, i as int)) == Some(acc as nat),
            acc < pow10(i as nat),
            pow10(0nat) == 1 && pow10(1nat) == 10 && pow10(2nat) == 100 && pow10(3nat) == 1000
                && pow10(4nat) == 10000,
        decreases s@.len() - i,
    {
        let c = s[i];
        if c < 48 || c > 57 {
            proof {
                decf_prefix_none(s@, i + 1);
            }
            return None;
        }
        proof {
            let cur = s@.subrange(0, i + 1);
            assert(cur.drop_last() =~= s@.subrange(0, i as int));
            assert(cur.last() == c);
            assert(pow10((i + 1) as nat) == 10 * pow10(i as nat));
        }
        acc = acc * 10 + ((c - 48) as u64);
        i += 1;
    }
    proof {
        assert(s@.subrange(0, s@.len() as int) =~= s@);
    }
    Some(acc)
}

/// If a prefix of `s` ends in a non-digit, `s` has no fixed-width value.
proof fn decf_prefix_none(s: Seq<u8>, k: int)
    requires
        0 < k <= s.len(),
        !(48 <= s[k - 1] <= 57),
    ensures
        decf_value(s) is None,
    decreases s.len(),
{
    if k == s.len() {
    } else {
        decf_prefix_none(s.drop_last(), k);
    }
}

/// Civil date of a day number (days since 1970-01-01), for non-negative day
/// numbers: year, month, day.
pub open spec fn civil_from_days(z: int) -> (int, int, int) {
    let zz = z + 719468;
    let era = zz / 146097;
    let doe = zz - era * 146097;
    let yoe = (doe - doe / 1460 + doe / 36524 - doe / 146096) / 365;
    let y0 = yoe + era * 400;
    let doy = doe - (365 * yoe + yoe / 4 - yoe / 100);
    let mp = (5 * doy + 2) / 153;
    let d = doy - (153 * mp + 2) / 5 + 1;
    let m = if mp < 10 {
        mp + 3
    } else {
        mp - 9
    };
    let y = if m <= 2 {
        y0 + 1
    } else {
        y0
    };
    (y, m, d)
}

/// Day number of a civil date.
pub open spec fn days_from_civil(y: int, m: int, d: int) -> int {
    let yy = if m <= 2 {
        y - 1
    } else {
        y
    };
    let era = yy / 400;
    let yoe = yy - era * 400;
    let mp = if m > 2 {
        m - 3
    } else {
        m + 9
    };
    let doy = (153 * mp + 2) / 5 + d - 1;
    let doe = yoe * 365 + yoe / 4 - yoe / 100 + doy;
    era * 146097 + doe - 719468
}

/// The timestamp text of an epoch second.
pub open spec fn rfc3339_text(t: int) -> Seq<u8> {
    let days = t / 86400;
    let secs = t % 86400;
    let ymd = civil_from_days(days);
    decf_seq(ymd.0 as nat, 4) + seq![45u8] + decf_seq(ymd.1 as nat, 2) + seq![45u8] + decf_seq(
        ymd.2 as nat,
        2,
    ) + seq![84u8] + decf_seq((secs / 3600) as nat, 2) + seq![58u8] + decf_seq(
        ((secs % 3600) / 60) as nat,
        2,
    ) + seq![58u8] + decf_seq((secs % 60) as nat, 2) + seq![90u8]
}

/// The epoch second a timestamp text denotes: twenty bytes, digits and
/// delimiters in their places, fields in calendar range, and a non-negative
/// result.
pub open spec fn rfc3339_value(s: Seq<u8>) -> Option<int> {
    if s.len() == 20 && s[4] == 45 && s[7] == 45 && s[10] == 84 && s[13] == 58 && s[16] == 58
        && s[19] == 90 && decf_value(s.subrange(0, 4)) is Some && decf_value(
        s.subrange(5, 7),
    ) is Some && decf_value(s.subrange(8, 10)) is Some && decf_value(s.subrange(11, 13)) is Some
        && decf_value(s.subrange(14, 16)) is Some && decf_value(s.subrange(17, 19)) is Some {
        let y = decf_value(s.subrange(0, 4)).unwrap() as int;
        let m = decf_value(s.subrange(5, 7)).unwrap() as int;
        let d = decf_value(s.subrange(8, 10)).unwrap() as int;
        let hh = decf_value(s.subrange(11, 13)).unwrap() as int;
        let mm = decf_value(s.subrange(14, 16)).unwrap() as int;
        let ss = decf_value(s.subrange(17, 19)).unwrap() as int;
        if 1970 <= y <= 9999 && 1 <= m <= 12 && 1 <= d <= 31 && hh < 24 && mm < 60 && ss < 60 {
            let t = days_from_civil(y, m, d) * 86400 + hh * 3600 + mm * 60 + ss;
            if t >= 0 {
                Some(t)
            } else {
                None
            }
        } else {
            None
        }
    } else {
        None
    }
}

/// The civil date of an epoch second's day number.
#[verifier::rlimit(100)]
#[verifier::spinoff_prover]
fn civil_parts(t: i64) -> (r: (i64, i64, i64))
    requires
        0 <= t < 253402300800,
    ensures
        (r.0 as int, r.1 as int, r.2 as int) == civil_from_days(t as int / 86400),
        r.0 >= 0 && r.1 >= 0 && r.2 >= 0,
{
    let days: i64 = t / 86400;
    let zz: i64 = days + 719468;
    let era: i64 = zz / 146097;
    let doe: i64 = zz - era * 146097;
    let yoe: i64 = (doe - doe / 1460 + doe / 36524 - doe / 146096) / 365;
    let y0: i64 = yoe + era * 400;
    let doy: i64 = doe - (365 * yoe + yoe / 4 - yoe / 100);
    let mp: i64 = (5 * doy + 2) / 153;
    let d: i64 = doy - (153 * mp + 2) / 5 + 1;
    let m: i64 = if mp < 10 {
        mp + 3
    } else {
        mp - 9
    };
    let y: i64 = if m <= 2 {
        y0 + 1
    } else {
        y0
    };
    (y, m, d)
}

/// Bounds and invertibility of the civil-calendar arithmetic, for day
/// numbers up to the year 2106: the date read off a day number is in
/// calendar range, its year at or after 1970, and mapping it back gives the
/// day number again.
#[verifier::rlimit(100)]
#[verifier::spinoff_prover]
pub proof fn lemma_civil_inverse(z: int)
    requires
        0 <= z <= 49710,
    ensures
        ({
            let ymd = civil_from_days(z);
            &&& 1970 <= ymd.0 <= 2400
            &&& 1 <= ymd.1 <= 12
            &&& 1 <= ymd.2 <= 31
            &&& days_from_civil(ymd.0, ymd.1, ymd.2) == z
        }),
{
    let zz = z + 719468;
    let era = zz / 146097;
    let doe = zz - era * 146097;
    assert(era == 4 || era == 5);
    assert(0 <= doe < 146097);
    let q1460 = doe / 1460;
    let q36524 = doe / 36524;
    let q146096 = doe / 146096;
    let num = doe - q1460 + q36524 - q146096;
    let yoe = num / 365;
    assert(0 <= q1460 <= 100);
    assert(0 <= q36524 <= 4);
    assert(0 <= q146096 <= 1);
    assert(q36524 <= q1460);
    assert(0 <= num);
    assert(num <= 145999) by {
        if doe <= 145999 {
        } else if doe <= 146095 {
            assert(q1460 >= 100);
            assert(q36524 <= 3);
        } else {
            assert(doe == 146096);
            assert(q1460 >= 100);
            assert(q146096 == 1);
        }
    }
    assert(0 <= yoe <= 399);
    let y0 = yoe + era * 400;
    let q4 = yoe / 4;
    let q100y = yoe / 100;
    let g = 365 * yoe + q4 - q100y;
    let doy = doe - g;
    assert(365 * yoe <= num);
    assert(num <= 365 * yoe + 364);
    assert(0 <= doy) by {
        assert(365 * yoe <= num);
        assert(q4 <= q1460) by {
            assert(4 * q4 <= yoe);
            assert(365 * (4 * q4) <= 365 * yoe);
            assert(1460 * q4 <= num);
            assert(num <= doe);
        }
        assert(g <= num + q4 - q100y);
        assert(doy >= doe - num - q4 + q100y);
        assert(doe - num == q1460 - q36524 + q146096);
    }
    assert(doy <= 366) by {
        assert(1460 * q4 >= 365 * yoe - 1095);
        assert(365 * yoe >= num - 364);
        assert(num >= doe - q1460 - 1);
        assert(1460 * q4 >= doe - q1460 - 1460);
        assert(1460 * q1460 <= doe);
        assert(1460 * (q1460 - q4) <= q1460 + 1460);
        assert(q1460 - q4 <= 1);
        assert(100 * q100y <= yoe);
        assert(365 * (100 * q100y) <= 365 * yoe);
        assert(36500 * q100y <= num);
        assert(num <= doe);
        assert(36524 * q36524 >= doe - 36523);
        assert(36500 * (q100y - q36524) <= doe - (36500 * q36524));
        assert(doy == (num - 365 * yoe) + q1460 - q36524 + q146096 - q4 + q100y);
    }
    let mp = (5 * doy + 2) / 153;
    assert(0 <= mp <= 11);
    let q5 = (153 * mp + 2) / 5;
    let d = doy - q5 + 1;
    assert(1 <= d <= 31) by {
        assert(153 * mp <= 5 * doy + 2);
        assert(5 * doy + 2 <= 153 * mp + 152);
        assert(5 * q5 <= 153 * mp + 2);
        assert(5 * q5 >= 153 * mp - 2);
    }
    let m = if mp < 10 {
        mp + 3
    } else {
        mp - 9
    };
    assert(1 <= m <= 12);
    let y = if m <= 2 {
        y0 + 1
    } else {
        y0
    };
    assert(civil_from_days(z) == (y, m, d));
    // The year is at or after the epoch.
    assert(1970 <= y <= 2400) by {
        if era == 5 {
            assert(y0 >= 2000);
        } else {
            assert(zz >= 719468);
            assert(doe == zz - 4 * 146097);
            assert(doe >= 135080);
            assert(q1460 <= 100);
            assert(num >= doe - q1460 - q146096);
            assert(num >= 134979);
            assert(yoe >= 369);
            if yoe == 369 {
                assert(365 * yoe == 134685);
                assert(q4 == 92 && q100y == 3);
                assert(doy == doe - 134774);
                assert(doy >= 306);
                assert(5 * doy + 2 >= 1532);
                assert(mp >= 10);
                assert(m <= 2);
                assert(y == y0 + 1);
            }
        }
    }
    // Mapping the date back: every piece of the day-number computation
    // cancels against its defining subtraction.
    let yy = if m <= 2 {
        y - 1
    } else {
        y
    };
    assert(yy == y0);
    let era2 = yy / 400;
    assert(era2 == era) by {
        assert(yy == era * 400 + yoe);
        assert(0 <= yoe < 400);
    }
    let yoe2 = yy - era2 * 400;
    assert(yoe2 == yoe);
    let mp2 = if m > 2 {
        m - 3
    } else {
        m + 9
    };
    assert(mp2 == mp);
    let doy2 = q5 + d - 1;
    assert(doy2 == doy);
    let doe2 = yoe2 * 365 + yoe2 / 4 - yoe2 / 100 + doy2;
    assert(doe2 == doe);
    assert(era2 * 146097 + doe2 - 719468 == z);
    assert(days_from_civil(y, m, d) == z);
}

/// Reading a rendered timestamp gives the epoch second back, for every
/// second the archive's time range admits.
#[verifier::rlimit(100)]
#[verifier::spinoff_prover]
pub proof fn lemma_rfc3339_roundtrip(t: int)
    requires
        0 <= t < 0x1_0000_0000,
    ensures
        rfc3339_value(rfc3339_text(t)) == Some(t),
{
    let days = t / 86400;
    let secs = t % 86400;
    assert(0 <= days <= 49710);
    assert(0 <= secs < 86400);
    lemma_civil_inverse(days);
    let ymd = civil_from_days(days);
    let hh = secs / 3600;
    let mm = (secs % 3600) / 60;
    let ss = secs % 60;
    assert(0 <= hh < 24 && 0 <= mm < 60 && 0 <= ss < 60);
    let a = decf_seq(ymd.0 as nat, 4);
    let b = decf_seq(ymd.1 as nat, 2);
    let c = decf_seq(ymd.2 as nat, 2);
    let d4 = decf_seq(hh as nat, 2);
    let e = decf_seq(mm as nat, 2);
    let f = decf_seq(ss as nat, 2);
    lemma_decf_seq_len(ymd.0 as nat, 4);
    lemma_decf_seq_len(ymd.1 as nat, 2);
    lemma_decf_seq_len(ymd.2 as nat, 2);
    lemma_decf_seq_len(hh as nat, 2);
    lemma_decf_seq_len(mm as nat, 2);
    lemma_decf_seq_len(ss as nat, 2);
    assert(pow10(4nat) == 10000 && pow10(2nat) == 100) by {
        assert(pow10(0nat) == 1);
        assert(pow10(1nat) == 10);
        assert(pow10(2nat) == 100);
        assert(pow10(3nat) == 1000);
        assert(pow10(4nat) == 10000);
    }
    lemma_decf_roundtrip(ymd.0 as nat, 4);
    lemma_decf_roundtrip(ymd.1 as nat, 2);
    lemma_decf_roundtrip(ymd.2 as nat, 2);
    lemma_decf_roundtrip(hh as nat, 2);
    lemma_decf_roundtrip(mm as nat, 2);
    lemma_decf_roundtrip(ss as nat, 2);
    let s = rfc3339_text(t);
    assert(s =~= a + seq![45u8] + b + seq![45u8] + c + seq![84u8] + d4 + seq![58u8] + e + seq![
        58u8,
    ] + f + seq![90u8]);
    assert(s.len() == 20);
    assert(s[4] == 45 && s[7] == 45 && s[10] == 84 && s[13] == 58 && s[16] == 58 && s[19] == 90);
    assert(s.subrange(0, 4) =~= a);
    assert(s.subrange(5, 7) =~= b);
    assert(s.subrange(8, 10) =~= c);
    assert(s.subrange(11, 13) =~= d4);
    assert(s.subrange(14, 16) =~= e);
    assert(s.subrange(17, 19) =~= f);
    assert(days_from_civil(ymd.0, ymd.1, ymd.2) * 86400 + hh * 3600 + mm * 60 + ss == t);
}

/// Render an epoch second as its timestamp text.
pub fn render_rfc3339(t: i64) -> (r: Vec<u8>)
    requires
        0 <= t < 253402300800,
    ensures
        r@ == rfc3339_text(t as int),
{
    let secs: i64 = t % 86400;
    let (y, m, d) = civil_parts(t);
    let mut out = render_decf(y as u64, 4);
    out.push(45);
    let p = render_decf(m as u64, 2);
    out.extend_from_slice(p.as_slice());
    out.push(45);
    let p = render_decf(d as u64, 2);
    out.extend_from_slice(p.as_slice());
    out.push(84);
    let p = render_decf((secs / 3600) as u64, 2);
    out.extend_from_slice(p.as_slice());
    out.push(58);
    let p = render_decf(((secs % 3600) / 60) as u64, 2);
    out.extend_from_slice(p.as_slice());
    out.push(58);
    let p = render_decf((secs % 60) as u64, 2);
    out.extend_from_slice(p.as_slice());
    out.push(90);
    proof {
        assert(out@ =~= rfc3339_text(t as int));
    }
    out
}

/// Read a timestamp text back to its epoch second; accepts exactly what
/// [`rfc3339_value`] accepts.
pub fn parse_rfc3339(s: &[u8]) -> (r: Option<i64>)
    ensures
        match r {
            Some(t) => rfc3339_value(s@) == Some(t as int) && t >= 0,
            None => rfc3339_value(s@) is None,
        },
{
    if s.len() != 20 {
        return None;
    }
    if !(s[4] == 45 && s[7] == 45 && s[10] == 84 && s[13] == 58 && s[16] == 58 && s[19] == 90) {
        return None;
    }
    let ys = crate::bytes::sub_vec(s, 0, 4);
    let ms = crate::bytes::sub_vec(s, 5, 7);
    let ds = crate::bytes::sub_vec(s, 8, 10);
    let hs = crate::bytes::sub_vec(s, 11, 13);
    let mins = crate::bytes::sub_vec(s, 14, 16);
    let ss_ = crate::bytes::sub_vec(s, 17, 19);
    let y = match parse_decf(ys.as_slice()) {
        Some(v) => v,
        None => {
            return None;
        },
    };
    let m = match parse_decf(ms.as_slice()) {
        Some(v) => v,
        None => {
            return None;
        },
    };
    let d = match parse_decf(ds.as_slice()) {
        Some(v) => v,
        None => {
            return None;
        },
    };
    let hh = match parse_decf(hs.as_slice()) {
        Some(v) => v,
        None => {
            return None;
        },
    };
    let mm = match parse_decf(mins.as_slice()) {
        Some(v) => v,
        None => {
            return None;
        },
    };
    let ss = match parse_decf(ss_.as_slice()) {
        Some(v) => v,
        None => {
            return None;
        },
    };
    if !(1970 <= y && y <= 9999 && 1 <= m && m <= 12 && 1 <= d && d <= 31 && hh < 24 && mm < 60
        && ss < 60) {
        return None;
    }
    let yy: i64 = if m <= 2 {
        y as i64 - 1
    } else {
        y as i64
    };
    let era: i64 = yy / 400;
    let yoe: i64 = yy - era * 400;
    let mp: i64 = if m > 2 {
        m as i64 - 3
    } else {
        m as i64 + 9
    };
    let doy: i64 = (153 * mp + 2) / 5 + d as i64 - 1;
    let doe: i64 = yoe * 365 + yoe / 4 - yoe / 100 + doy;
    let days: i64 = era * 146097 + doe - 719468;
    let t: i64 = days * 86400 + (hh as i64) * 3600 + (mm as i64) * 60 + ss as i64;
    proof {
        assert(days as int == days_from_civil(y as int, m as int, d as int));
    }
    if t < 0 {
        return None;
    }
    Some(t)
}

} // verus!
