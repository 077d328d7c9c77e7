//! Byte-sequence utilities shared by the text codecs: searching for a
//! separator, splitting on it, and the lemmas that relate splitting to
//! concatenation.

use vstd::prelude::*;

verus! {

/// True when `b` occurs somewhere in `s`.
pub open spec fn has_byte(s: Seq<u8>, b: u8) -> bool {
    exists|i: int| 0 <= i < s.len() && s[i] == b
}

/// Split `s` at every occurrence of `sep`.  The result always has one part
/// more than `s` has separators; a trailing separator yields a final empty
/// part.
pub open spec fn split_on(s: Seq<u8>, sep: u8) -> Seq<Seq<u8>>
    decreases s.len(),
{
    if s.len() == 0 {
        seq![Seq::<u8>::empty()]
    } else if s[0] == sep {
        seq![Seq::<u8>::empty()] + split_on(s.drop_first(), sep)
    } else {
        let r = split_on(s.drop_first(), sep);
        seq![seq![s[0]] + r[0]] + r.drop_first()
    }
}

pub proof fn lemma_split_on_len(s: Seq<u8>, sep: u8)
    ensures
        split_on(s, sep).len() >= 1,
    decreases s.len(),
{
    if s.len() == 0 {
    } else {
        lemma_split_on_len(s.drop_first(), sep);
    }
}

/// A sequence without the separator splits into a single part: itself.
pub proof fn lemma_split_on_whole(s: Seq<u8>, sep: u8)
    requires
        !has_byte(s, sep),
    ensures
        split_on(s, sep) =~~= seq![s],
    decreases s.len(),
{
    if s.len() == 0 {
        assert(split_on(s, sep) =~~= seq![s]);
    } else {
        assert(s[0] != sep);
        assert(!has_byte(s.drop_first(), sep)) by {
            assert forall|i: int| 0 <= i < s.drop_first().len() implies s.drop_first()[i] != sep by {
                assert(s.drop_first()[i] == s[i + 1]);
            }
        }
        lemma_split_on_whole(s.drop_first(), sep);
        lemma_split_on_len(s.drop_first(), sep);
        assert(seq![s[0]] + s.drop_first() =~= s);
    }
}

/// Splitting `a + [sep] + b` where `a` is separator-free peels off `a`.
pub proof fn lemma_split_on_concat(a: Seq<u8>, b: Seq<u8>, sep: u8)
    requires
        !has_byte(a, sep),
    ensures
        split_on(a + seq![sep] + b, sep) =~~= seq![a] + split_on(b, sep),
    decreases a.len(),
{
    let s = a + seq![sep] + b;
    lemma_split_on_len(b, sep);
    if a.len() == 0 {
        assert(s[0] == sep);
        assert(s.drop_first() =~= b);
        assert(split_on(s, sep) =~~= seq![Seq::<u8>::empty()] + split_on(b, sep));
        assert(seq![a] =~~= seq![Seq::<u8>::empty()]);
    } else {
        assert(s[0] == a[0]);
        assert(a[0] != sep);
        assert(!has_byte(a.drop_first(), sep)) by {
            assert forall|i: int| 0 <= i < a.drop_first().len() implies a.drop_first()[i] != sep by {
                assert(a.drop_first()[i] == a[i + 1]);
            }
        }
        lemma_split_on_concat(a.drop_first(), b, sep);
        assert(s.drop_first() =~= a.drop_first() + seq![sep] + b);
        let r = split_on(s.drop_first(), sep);
        assert(r =~~= seq![a.drop_first()] + split_on(b, sep));
        assert(r[0] == a.drop_first());
        assert(seq![s[0]] + r[0] =~= a);
        assert(r.drop_first() =~~= split_on(b, sep));
    }
}

/// When the separator occurs, the first part is the separator-free prefix and
/// the remaining parts split the rest.
pub proof fn lemma_split_first(s: Seq<u8>, sep: u8)
    requires
        has_byte(s, sep),
    ensures
        split_on(s, sep).len() >= 2,
        !has_byte(split_on(s, sep)[0], sep),
        split_on(s, sep)[0].len() < s.len(),
        s =~= split_on(s, sep)[0] + seq![sep] + s.skip(split_on(s, sep)[0].len() as int + 1),
        split_on(s.skip(split_on(s, sep)[0].len() as int + 1), sep) =~~= split_on(s, sep).drop_first(),
    decreases s.len(),
{
    let parts = split_on(s, sep);
    lemma_split_on_len(s, sep);
    if s[0] == sep {
        lemma_split_on_len(s.drop_first(), sep);
        assert(parts[0] =~= Seq::<u8>::empty());
        assert(s.skip(1) =~= s.drop_first());
        assert(s =~= parts[0] + seq![sep] + s.skip(1));
        assert(parts.drop_first() =~~= split_on(s.drop_first(), sep));
    } else {
        assert(has_byte(s.drop_first(), sep)) by {
            let i = choose|i: int| 0 <= i < s.len() && s[i] == sep;
            assert(s.drop_first()[i - 1] == s[i]);
        }
        lemma_split_first(s.drop_first(), sep);
        let r = split_on(s.drop_first(), sep);
        assert(parts[0] =~= seq![s[0]] + r[0]);
        assert(!has_byte(parts[0], sep)) by {
            assert forall|i: int| 0 <= i < parts[0].len() implies parts[0][i] != sep by {
                if i > 0 {
                    assert(parts[0][i] == r[0][i - 1]);
                }
            }
        }
        assert(s.skip(parts[0].len() as int + 1) =~= s.drop_first().skip(r[0].len() as int + 1));
        assert(parts.drop_first() =~~= r.drop_first());
        assert(s.drop_first() =~= r[0] + seq![sep] + s.drop_first().skip(r[0].len() as int + 1));
        assert(s =~= seq![s[0]] + s.drop_first());
        assert(s =~= parts[0] + seq![sep] + s.skip(parts[0].len() as int + 1));
    }
}

/// When `i` is the first occurrence of the separator, the first part of the
/// split is exactly the prefix before it.
pub proof fn lemma_first_part(s: Seq<u8>, sep: u8, i: int)
    requires
        0 <= i < s.len(),
        s[i] == sep,
        forall|j: int| 0 <= j < i ==> s[j] != sep,
    ensures
        split_on(s, sep)[0] =~= s.subrange(0, i),
        split_on(s, sep)[0].len() == i,
{
    assert(has_byte(s, sep));
    lemma_split_first(s, sep);
    let p0 = split_on(s, sep)[0];
    assert(s =~= p0 + seq![sep] + s.skip(p0.len() as int + 1));
    assert forall|k: int| 0 <= k < p0.len() implies s[k] == p0[k] by {}
    assert(p0.len() <= i) by {
        if p0.len() > i {
            assert(p0[i] == s[i]);
        }
    }
    assert(s[p0.len() as int] == sep);
    assert(p0.len() >= i);
    assert(p0 =~= s.subrange(0, p0.len() as int));
}

/// Test whether `s` ends with `suffix`.
pub open spec fn ends_with(s: Seq<u8>, suffix: Seq<u8>) -> bool {
    suffix.len() <= s.len() && s.skip(s.len() - suffix.len()) == suffix
}

pub fn slice_ends_with(s: &[u8], suffix: &[u8]) -> (r: bool)
    ensures
        r == ends_with(s@, suffix@),
{
    if suffix.len() > s.len() {
        return false;
    }
    let off = s.len() - suffix.len();
    let mut i: usize = 0;
    while i < suffix.len()
        invariant
            i <= suffix@.len(),
            off == s@.len() - suffix@.len(),
            suffix@.len() <= s@.len(),
            s@.len() <= usize::MAX,
            forall|j: int| 0 <= j < i ==> s@[off + j] == suffix@[j],
        decreases suffix@.len() - i,
    {
        if s[off + i] != suffix[i] {
            proof {
                assert(s@.skip(off as int)[i as int] == s@[off + i]);
            }
            return false;
        }
        i += 1;
    }
    proof {
        assert(s@.skip(off as int) =~= suffix@);
    }
    true
}

/// Concatenation keeps a byte out when both halves do.
pub proof fn lemma_concat_no_byte(a: Seq<u8>, b: Seq<u8>, bad: u8)
    requires
        !has_byte(a, bad),
        !has_byte(b, bad),
    ensures
        !has_byte(a + b, bad),
{
    assert forall|i: int| 0 <= i < (a + b).len() implies (a + b)[i] != bad by {
        if i < a.len() {
            assert((a + b)[i] == a[i]);
        } else {
            assert((a + b)[i] == b[i - a.len()]);
        }
    }
}

/// No part produced by a split holds the separator.
pub proof fn lemma_split_on_parts_clean(s: Seq<u8>, sep: u8)
    ensures
        forall|i: int| 0 <= i < split_on(s, sep).len() ==> !has_byte(
            #[trigger] split_on(s, sep)[i],
            sep,
        ),
    decreases s.len(),
{
    if s.len() == 0 {
        assert forall|i: int| 0 <= i < split_on(s, sep).len() implies !has_byte(
            split_on(s, sep)[i],
            sep,
        ) by {
            assert(split_on(s, sep)[i] =~= Seq::<u8>::empty());
        }
    } else if !has_byte(s, sep) {
        lemma_split_on_whole(s, sep);
    } else {
        lemma_split_first(s, sep);
        let parts = split_on(s, sep);
        let rest = s.skip(parts[0].len() as int + 1);
        lemma_split_on_parts_clean(rest, sep);
        assert forall|i: int| 0 <= i < parts.len() implies !has_byte(parts[i], sep) by {
            if i > 0 {
                assert(parts[i] == split_on(rest, sep)[i - 1]);
            }
        }
    }
}

/// Interleave the parts with the separator.
pub open spec fn join_with(parts: Seq<Seq<u8>>, sep: u8) -> Seq<u8>
    decreases parts.len(),
{
    if parts.len() == 0 {
        Seq::<u8>::empty()
    } else if parts.len() == 1 {
        parts[0]
    } else {
        parts[0] + seq![sep] + join_with(parts.drop_first(), sep)
    }
}

/// Joining the parts of a split gives the sequence back.
pub proof fn lemma_split_join(s: Seq<u8>, sep: u8)
    ensures
        join_with(split_on(s, sep), sep) == s,
    decreases s.len(),
{
    if !has_byte(s, sep) {
        lemma_split_on_whole(s, sep);
    } else {
        lemma_split_first(s, sep);
        let parts = split_on(s, sep);
        let rest = s.skip(parts[0].len() as int + 1);
        lemma_split_join(rest, sep);
        assert(parts.drop_first() =~~= split_on(rest, sep));
        lemma_split_on_len(rest, sep);
        assert(join_with(parts, sep) =~= parts[0] + seq![sep] + join_with(
            parts.drop_first(),
            sep,
        ));
        assert(join_with(parts, sep) =~= s);
    }
}

/// Find the first occurrence of `b` at or after `from`.
pub fn find_byte_from(s: &[u8], b: u8, from: usize) -> (r: Option<usize>)
    requires
        from <= s@.len(),
    ensures
        match r {
            Some(i) => from <= i < s@.len() && s@[i as int] == b && forall|j: int|
                from <= j < i ==> s@[j] != b,
            None => forall|j: int| from <= j < s@.len() ==> s@[j] != b,
        },
{
    let mut i = from;
    while i < s.len()
        invariant
            from <= i <= s@.len(),
            forall|j: int| from <= j < i ==> s@[j] != b,
        decreases s@.len() - i,
    {
        if s[i] == b {
            return Some(i);
        }
        i += 1;
    }
    None
}

/// True when `b` occurs in `s`.
pub fn contains_byte(s: &[u8], b: u8) -> (r: bool)
    ensures
        r == has_byte(s@, b),
{
    let r = find_byte_from(s, b, 0);
    r.is_some()
}

/// Copy the bytes of `s[from..to]` into a fresh vector.
pub fn sub_vec(s: &[u8], from: usize, to: usize) -> (r: Vec<u8>)
    requires
        from <= to <= s@.len(),
    ensures
        r@ == s@.subrange(from as int, to as int),
{
    let mut out: Vec<u8> = Vec::new();
    let mut i = from;
    while i < to
        invariant
            from <= i <= to <= s@.len(),
            out@ =~= s@.subrange(from as int, i as int),
        decreases to - i,
    {
        out.push(s[i]);
        i += 1;
    }
    out
}

/// Split `s` at every occurrence of `sep`, as [`split_on`] describes.
pub fn split_bytes(s: &[u8], sep: u8) -> (r: Vec<Vec<u8>>)
    ensures
        r.deep_view() == split_on(s@, sep),
        r@.len() >= 1,
{
    let mut parts: Vec<Vec<u8>> = Vec::new();
    let mut start: usize = 0;
    let mut i: usize = 0;
    proof {
        assert(parts.deep_view() =~~= Seq::<Seq<u8>>::empty());
        assert(s@.subrange(0, s@.len() as int) =~= s@);
    }
    while i < s.len()
        invariant
            start <= i <= s@.len(),
            !has_byte(s@.subrange(start as int, i as int), sep),
            split_on(s@, sep) =~~= parts.deep_view() + split_on(
                s@.subrange(start as int, s@.len() as int),
                sep,
            ),
        decreases s@.len() - i,
    {
        if s[i] == sep {
            let part = sub_vec(s, start, i);
            let ghost dv0 = parts.deep_view();
            let ghost old_start = start as int;
            proof {
                let rest = s@.subrange(start as int, s@.len() as int);
                let tail = s@.subrange(i + 1, s@.len() as int);
                assert(rest =~= part@ + seq![sep] + tail);
                lemma_split_on_concat(part@, tail, sep);
            }
            parts.push(part);
            start = i + 1;
            proof {
                assert(parts.deep_view() =~~= dv0 + seq![parts@.last().deep_view()]);
                assert(parts@.last().deep_view() =~= s@.subrange(old_start, i as int));
            }
        } else {
            proof {
                let cur = s@.subrange(start as int, i as int);
                let next = s@.subrange(start as int, i + 1 as int);
                assert(next =~= cur + seq![s@[i as int]]);
                assert forall|j: int| 0 <= j < next.len() implies next[j] != sep by {
                    if j < cur.len() {
                        assert(next[j] == cur[j]);
                    }
                }
            }
        }
        i += 1;
    }
    let last = sub_vec(s, start, s.len());
    let ghost dv0 = parts.deep_view();
    proof {
        lemma_split_on_whole(s@.subrange(start as int, s@.len() as int), sep);
    }
    parts.push(last);
    proof {
        assert(parts.deep_view() =~~= dv0 + seq![parts@.last().deep_view()]);
        assert(parts@.last().deep_view() =~= s@.subrange(start as int, s@.len() as int));
        assert(parts.deep_view() =~~= split_on(s@, sep));
    }
    parts
}

/// True when `s` starts with `prefix`.
pub open spec fn starts_with(s: Seq<u8>, prefix: Seq<u8>) -> bool {
    prefix.len() <= s.len() && s.subrange(0, prefix.len() as int) == prefix
}

/// Compare two byte slices for equality.
pub fn bytes_eq(a: &[u8], b: &[u8]) -> (r: bool)
    ensures
        r == (a@ == b@),
{
    if a.len() != b.len() {
        proof {
            assert(a@.len() != b@.len());
        }
        return false;
    }
    let mut i: usize = 0;
    while i < a.len()
        invariant
            i <= a@.len(),
            a@.len() == b@.len(),
            forall|j: int| 0 <= j < i ==> a@[j] == b@[j],
        decreases a@.len() - i,
    {
        if a[i] != b[i] {
            return false;
        }
        i += 1;
    }
    proof {
        assert(a@ =~= b@);
    }
    true
}

/// Test whether `s[at..]` starts with `prefix`.
pub fn slice_starts_with(s: &[u8], prefix: &[u8]) -> (r: bool)
    ensures
        r == starts_with(s@, prefix@),
{
    if prefix.len() > s.len() {
        return false;
    }
    let mut i: usize = 0;
    while i < prefix.len()
        invariant
            i <= prefix@.len() <= s@.len(),
            forall|j: int| 0 <= j < i ==> s@[j] == prefix@[j],
        decreases prefix@.len() - i,
    {
        if s[i] != prefix[i] {
            proof {
                assert(s@.subrange(0, prefix@.len() as int)[i as int] == s@[i as int]);
            }
            return false;
        }
        i += 1;
    }
    proof {
        assert(s@.subrange(0, prefix@.len() as int) =~= prefix@);
    }
    true
}

} // verus!
