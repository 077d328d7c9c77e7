//! Fixed-width upper-case hexadecimal and canonical decimal codecs on bytes,
//! with the lemmas that make each an exact inverse pair.

use vstd::prelude::*;

verus! {

pub open spec fn pow16(w: nat) -> nat
    decreases w,
{
    if w == 0 {
        1
    } else {
        16 * pow16((w - 1) as nat)
    }
}

pub open spec fn is_hex_byte(c: u8) -> bool {
    (48 <= c <= 57) || (65 <= c <= 70)
}

pub open spec fn hex_byte_of(d: u8) -> u8 {
    if d < 10 {
        (48 + d) as u8
    } else {
        (55 + d) as u8
    }
}

pub open spec fn hex_val_of(c: u8) -> u8 {
    if 48 <= c <= 57 {
        (c - 48) as u8
    } else {
        (c - 55) as u8
    }
}

/// `v` printed as exactly `w` upper-case hexadecimal digits (most significant
/// first); digits beyond `w` are lost, so callers wanting faithfulness require
/// `v < pow16(w)`.
pub open spec fn hex_seq(v: nat, w: nat) -> Seq<u8>
    decreases w,
{
    if w == 0 {
        Seq::<u8>::empty()
    } else {
        hex_seq(v / 16, (w - 1) as nat) + seq![hex_byte_of((v % 16) as u8)]
    }
}

/// The value of a string of hexadecimal digits; `None` when any byte is not
/// an upper-case hexadecimal digit.  The empty string has value zero.
pub open spec fn hex_value(s: Seq<u8>) -> Option<nat>
    decreases s.len(),
{
    if s.len() == 0 {
        Some(0nat)
    } else if is_hex_byte(s.last()) {
        match hex_value(s.drop_last()) {
            Some(h) => Some((16 * h + hex_val_of(s.last())) as nat),
            None => None,
        }
    } else {
        None
    }
}

pub proof fn lemma_hex_seq_len(v: nat, w: nat)
    ensures
        hex_seq(v, w).len() == w,
    decreases w,
{
    if w > 0 {
        lemma_hex_seq_len(v / 16, (w - 1) as nat);
    }
}

/// Rendering then reading a value below `pow16(w)` gives the value back.
pub proof fn lemma_hex_roundtrip(v: nat, w: nat)
    requires
        v < pow16(w),
    ensures
        hex_value(hex_seq(v, w)) == Some(v),
    decreases w,
{
    if w == 0 {
    } else {
        let s = hex_seq(v, w);
        lemma_hex_seq_len(v / 16, (w - 1) as nat);
        assert(s.drop_last() =~= hex_seq(v / 16, (w - 1) as nat));
        assert(v / 16 < pow16((w - 1) as nat)) by {
            assert(pow16(w) == 16 * pow16((w - 1) as nat));
        }
        lemma_hex_roundtrip(v / 16, (w - 1) as nat);
    }
}

/// A `w`-digit hexadecimal string is the rendering of its own value, and that
/// value is below `pow16(w)`: the codec is a bijection at fixed width.
pub proof fn lemma_hex_canonical(s: Seq<u8>, n: nat)
    requires
        hex_value(s) == Some(n),
    ensures
        n < pow16(s.len()),
        s == hex_seq(n, s.len()),
    decreases s.len(),
{
    if s.len() == 0 {
        assert(s =~= hex_seq(n, 0));
    } else {
        let h = hex_value(s.drop_last()).unwrap();
        lemma_hex_canonical(s.drop_last(), h);
        assert(n == 16 * h + hex_val_of(s.last()));
        assert(n < pow16(s.len())) by {
            assert(pow16(s.len()) == 16 * pow16((s.len() - 1) as nat));
            assert(h <= pow16((s.len() - 1) as nat) - 1);
            assert(hex_val_of(s.last()) < 16);
        }
        assert(n / 16 == h && n % 16 == hex_val_of(s.last())) by {
            assert(n == 16 * h + hex_val_of(s.last()));
            assert(hex_val_of(s.last()) < 16);
        }
        assert(hex_byte_of(hex_val_of(s.last())) == s.last());
        assert(s =~= hex_seq(n, s.len()));
    }
}

/// Every byte of a decimal rendering is a decimal digit.
pub proof fn lemma_dec_seq_clean(v: nat)
    ensures
        forall|i: int| 0 <= i < dec_seq(v).len() ==> is_dec_byte(#[trigger] dec_seq(v)[i]),
    decreases v,
{
    if v < 10 {
        assert(dec_seq(v) =~= seq![(48 + v) as u8]);
    } else {
        lemma_dec_seq_clean(v / 10);
        let s = dec_seq(v);
        let prev = dec_seq(v / 10);
        assert forall|i: int| 0 <= i < s.len() implies is_dec_byte(s[i]) by {
            if i < prev.len() {
                assert(s[i] == prev[i]);
            }
        }
    }
}

pub fn hex_digit(d: u8) -> (r: u8)
    requires
        d < 16,
    ensures
        r == hex_byte_of(d),
{
    if d < 10 {
        d + 48
    } else {
        d + 55
    }
}

/// Render `v` as exactly `width` upper-case hexadecimal digits.
pub fn render_hex(v: u64, width: usize) -> (r: Vec<u8>)
    requires
        width <= 16,
    ensures
        r@ == hex_seq(v as nat, width as nat),
        r@.len() == width,
    decreases width,
{
    proof {
        lemma_hex_seq_len(v as nat, width as nat);
    }
    if width == 0 {
        Vec::new()
    } else {
        let mut r = render_hex(v / 16, width - 1);
        r.push(hex_digit((v % 16) as u8));
        proof {
            assert(r@ =~= hex_seq((v / 16) as nat, (width - 1) as nat) + seq![
                hex_byte_of(((v as nat) % 16) as u8),
            ]);
        }
        r
    }
}

/// Read an upper-case hexadecimal string of at most 16 digits.
pub fn parse_hex(s: &[u8]) -> (r: Option<u64>)
    requires
        s@.len() <= 16,
    ensures
        match r {
            Some(v) => hex_value(s@) == Some(v as nat),
            None => hex_value(s@) is None,
        },
{
    let mut acc: u64 = 0;
    let mut i: usize = 0;
    proof {
        assert(s@.subrange(0, 0) =~= Seq::<u8>::empty());
    }
    while i < s.len()
        invariant
            i <= s@.len() <= 16,
            hex_value(s@.subrange(0, i as int)) == Some(acc as nat),
            acc < pow16(i as nat),
        decreases s@.len() - i,
    {
        let c = s[i];
        let d: u8;
        if 48 <= c && c <= 57 {
            d = c - 48;
        } else if 65 <= c && c <= 70 {
            d = c - 55;
        } else {
            proof {
                let cur = s@.subrange(0, i + 1);
                assert(cur.last() == c);
                hex_value_prefix_none(s@, i + 1);
            }
            return None;
        }
        proof {
            let cur = s@.subrange(0, i + 1);
            assert(cur.drop_last() =~= s@.subrange(0, i as int));
            assert(cur.last() == c);
            assert(pow16((i + 1) as nat) == 16 * pow16(i as nat));
            assert(16 * (acc as nat) + (d as nat) < 16 * pow16(i as nat)) by {
                assert(acc as nat <= pow16(i as nat) - 1);
            }
            lemma_pow16_16();
            lemma_pow16_le(((i + 1) as nat), 16nat);
        }
        acc = acc * 16 + (d as u64);
        i += 1;
    }
    proof {
        assert(s@.subrange(0, s@.len() as int) =~= s@);
    }
    Some(acc)
}

proof fn lemma_pow16_16()
    ensures
        pow16(16nat) == 0x1_0000_0000_0000_0000,
{
    assert(pow16(0nat) == 1);
    assert(pow16(1nat) == 16);
    assert(pow16(2nat) == 0x100);
    assert(pow16(3nat) == 0x1000);
    assert(pow16(4nat) == 0x1_0000);
    assert(pow16(5nat) == 0x10_0000);
    assert(pow16(6nat) == 0x100_0000);
    assert(pow16(7nat) == 0x1000_0000);
    assert(pow16(8nat) == 0x1_0000_0000);
    assert(pow16(9nat) == 0x10_0000_0000);
    assert(pow16(10nat) == 0x100_0000_0000);
    assert(pow16(11nat) == 0x1000_0000_0000);
    assert(pow16(12nat) == 0x1_0000_0000_0000);
    assert(pow16(13nat) == 0x10_0000_0000_0000);
    assert(pow16(14nat) == 0x100_0000_0000_0000);
    assert(pow16(15nat) == 0x1000_0000_0000_0000);
    assert(pow16(16nat) == 0x1_0000_0000_0000_0000);
}

proof fn lemma_pow16_le(a: nat, b: nat)
    requires
        a <= b,
    ensures
        pow16(a) <= pow16(b),
    decreases b,
{
    if a < b {
        lemma_pow16_le(a, (b - 1) as nat);
        assert(pow16(b) == 16 * pow16((b - 1) as nat));
    }
}

/// If a prefix of `s` ends in a non-hexadecimal byte, `s` itself has no value.
proof fn hex_value_prefix_none(s: Seq<u8>, k: int)
    requires
        0 < k <= s.len(),
        !is_hex_byte(s[k - 1]),
    ensures
        hex_value(s) is None,
    decreases s.len(),
{
    if k == s.len() {
    } else {
        hex_value_prefix_none(s.drop_last(), k);
    }
}

// ---------------------------------------------------------------------------
// Canonical decimal rendering of u64 values.
pub open spec fn dec_seq(v: nat) -> Seq<u8>
    decreases v,
{
    if v < 10 {
        seq![(48 + v) as u8]
    } else {
        dec_seq(v / 10) + seq![(48 + v % 10) as u8]
    }
}

pub open spec fn is_dec_byte(c: u8) -> bool {
    48 <= c <= 57
}

/// The value of a digit string; the empty string has value zero.
pub open spec fn dec_value(s: Seq<u8>) -> Option<nat>
    decreases s.len(),
{
    if s.len() == 0 {
        Some(0nat)
    } else if is_dec_byte(s.last()) {
        match dec_value(s.drop_last()) {
            Some(h) => Some((10 * h + (s.last() - 48)) as nat),
            None => None,
        }
    } else {
        None
    }
}

/// A digit string is canonical when it is nonempty and has no superfluous
/// leading zero.
pub open spec fn dec_canonical(s: Seq<u8>) -> bool {
    s.len() > 0 && (s.len() == 1 || s[0] != 48)
}

pub proof fn lemma_dec_seq_wf(v: nat)
    ensures
        dec_seq(v).len() >= 1,
        dec_canonical(dec_seq(v)),
        dec_value(dec_seq(v)) == Some(v),
    decreases v,
{
    if v < 10 {
        let s = dec_seq(v);
        assert(s =~= seq![(48 + v) as u8]);
        assert(s.drop_last() =~= Seq::<u8>::empty());
        assert(dec_value(s.drop_last()) == Some(0nat));
    } else {
        lemma_dec_seq_wf(v / 10);
        let s = dec_seq(v);
        assert(s.drop_last() =~= dec_seq(v / 10));
        assert(s[0] == dec_seq(v / 10)[0]);
        lemma_dec_first(v / 10);
        assert(s[0] != 48);
    }
}

/// The leading digit of a canonical rendering: `48 + v` for one-digit values,
/// never `'0'` otherwise.
proof fn lemma_dec_first(v: nat)
    ensures
        dec_seq(v).len() >= 1,
        v >= 10 ==> dec_seq(v)[0] != 48,
        v < 10 ==> dec_seq(v)[0] == 48 + v,
        v >= 1 ==> dec_seq(v)[0] != 48,
    decreases v,
{
    if v < 10 {
        assert(dec_seq(v) =~= seq![(48 + v) as u8]);
    } else {
        lemma_dec_first(v / 10);
        assert(dec_seq(v)[0] == dec_seq(v / 10)[0]);
        assert(v / 10 >= 1);
    }
}

/// Render `v` in canonical decimal.
pub fn render_dec(v: u64) -> (r: Vec<u8>)
    ensures
        r@ == dec_seq(v as nat),
    decreases v,
{
    if v < 10 {
        let mut r: Vec<u8> = Vec::new();
        r.push(48 + (v as u8));
        proof {
            assert(r@ =~= dec_seq(v as nat));
        }
        r
    } else {
        let mut r = render_dec(v / 10);
        r.push(48 + ((v % 10) as u8));
        proof {
            assert(r@ =~= dec_seq((v / 10) as nat) + seq![(48 + (v as nat) % 10) as u8]);
        }
        r
    }
}

/// Read a canonical decimal string whose value fits in a `u64`.
pub fn parse_dec(s: &[u8]) -> (r: Option<u64>)
    ensures
        match r {
            Some(v) => dec_value(s@) == Some(v as nat) && dec_canonical(s@),
            None => !(dec_canonical(s@) && match dec_value(s@) {
                Some(n) => n <= u64::MAX,
                None => false,
            }),
        },
{
    if s.len() == 0 {
        return None;
    }
    if s.len() > 1 && s[0] == 48 {
        return None;
    }
    let mut acc: u64 = 0;
    let mut i: usize = 0;
    proof {
        assert(s@.subrange(0, 0) =~= Seq::<u8>::empty());
    }
    while i < s.len()
        invariant
            i <= s@.len(),
            dec_value(s@.subrange(0, i as int)) == Some(acc as nat),
        decreases s@.len() - i,
    {
        let c = s[i];
        if c < 48 || c > 57 {
            proof {
                dec_value_prefix_none(s@, i + 1);
            }
            return None;
        }
        let d = c - 48;
        let acc10 = match acc.checked_mul(10) {
            Some(a) => a,
            None => {
                proof {
                    dec_value_overflow(s@, i as int, acc as nat);
                }
                return None;
            },
        };
        let acc2 = match acc10.checked_add(d as u64) {
            Some(a) => a,
            None => {
                proof {
                    dec_value_overflow(s@, i as int, acc as nat);
                }
                return None;
            },
        };
        proof {
            let cur = s@.subrange(0, i + 1);
            assert(cur.drop_last() =~= s@.subrange(0, i as int));
            assert(cur.last() == c);
        }
        acc = acc2;
        i += 1;
    }
    proof {
        assert(s@.subrange(0, s@.len() as int) =~= s@);
    }
    Some(acc)
}

/// If a prefix of `s` ends in a non-digit, `s` has no decimal value.
proof fn dec_value_prefix_none(s: Seq<u8>, k: int)
    requires
        0 < k <= s.len(),
        !is_dec_byte(s[k - 1]),
    ensures
        dec_value(s) is None,
    decreases s.len(),
{
    if k == s.len() {
    } else {
        dec_value_prefix_none(s.drop_last(), k);
    }
}

/// Once the running value exceeds `u64::MAX` at the next digit, the whole
/// string's value does too.
proof fn dec_value_overflow(s: Seq<u8>, i: int, acc: nat)
    requires
        0 <= i < s.len(),
        dec_value(s.subrange(0, i)) == Some(acc),
        !is_dec_byte(s[i]) || 10 * acc + (s[i] - 48) > u64::MAX,
    ensures
        match dec_value(s) {
            Some(n) => n > u64::MAX,
            None => true,
        },
    decreases s.len() - i,
{
    if !is_dec_byte(s[i]) {
        dec_value_prefix_none_at(s, i);
    } else {
        let cur = s.subrange(0, i + 1);
        assert(cur.drop_last() =~= s.subrange(0, i));
        assert(cur.last() == s[i]);
        let next: nat = (10 * acc + (s[i] - 48)) as nat;
        assert(dec_value(cur) == Some(next));
        if i + 1 == s.len() {
            assert(cur =~= s);
        } else {
            assert(next > u64::MAX);
            if is_dec_byte(s[i + 1]) {
                assert(10 * next + (s[i + 1] - 48) >= 10 * next > u64::MAX);
            }
            dec_value_overflow(s, i + 1, next);
        }
    }
}

/// A non-digit anywhere means the whole string has no value.
proof fn dec_value_prefix_none_at(s: Seq<u8>, i: int)
    requires
        0 <= i < s.len(),
        !is_dec_byte(s[i]),
    ensures
        dec_value(s) is None,
    decreases s.len(),
{
    if i == s.len() - 1 {
    } else {
        dec_value_prefix_none_at(s.drop_last(), i);
    }
}

} // verus!
