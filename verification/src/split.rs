//! Byte-level framing: splitting a buffer into lines and tokens.
//!
//! The request grammar is framed by ASCII delimiters (line feed, space,
//! colon-space), so the model works directly on byte sequences. `split_on`
//! mirrors `str::split` with a one-byte separator, `split_on2` mirrors it
//! for a two-byte separator, and `lines_of` mirrors `str::lines`.

use vstd::prelude::*;

verus! {

pub const LF: u8 = 10;

pub const CR: u8 = 13;

pub const SP: u8 = 32;

pub const COLON: u8 = 58;

/// Split `b` at every occurrence of `sep`. The result always holds one more
/// part than there are separators; an empty input gives one empty part.
pub open spec fn split_on<T>(b: Seq<T>, sep: T) -> Seq<Seq<T>>
    decreases b.len(),
{
    if b.len() == 0 {
        seq![Seq::<T>::empty()]
    } else if b[0] == sep {
        seq![Seq::<T>::empty()] + split_on(b.drop_first(), sep)
    } else {
        let rest = split_on(b.drop_first(), sep);
        seq![seq![b[0]] + rest[0]] + rest.drop_first()
    }
}

/// The parts joined back together with `sep` between each two.
pub open spec fn join_on<T>(parts: Seq<Seq<T>>, sep: T) -> Seq<T>
    decreases parts.len(),
{
    if parts.len() == 0 {
        Seq::empty()
    } else if parts.len() == 1 {
        parts[0]
    } else {
        parts[0] + seq![sep] + join_on(parts.drop_first(), sep)
    }
}

/// Split `b` at every non-overlapping occurrence of the two-byte separator
/// `s1 s2`, scanning left to right, as `str::split` does with a two-byte
/// pattern.
pub open spec fn split_on2(b: Seq<u8>, s1: u8, s2: u8) -> Seq<Seq<u8>>
    decreases b.len(),
{
    if b.len() >= 2 && b[0] == s1 && b[1] == s2 {
        seq![Seq::<u8>::empty()] + split_on2(b.skip(2), s1, s2)
    } else if b.len() == 0 {
        seq![Seq::<u8>::empty()]
    } else {
        let rest = split_on2(b.drop_first(), s1, s2);
        seq![seq![b[0]] + rest[0]] + rest.drop_first()
    }
}

/// Prepend `p` onto the first part of `s`.
spec fn cons_first<T>(p: Seq<T>, s: Seq<Seq<T>>) -> Seq<Seq<T>>
    recommends
        s.len() >= 1,
{
    seq![p + s[0]] + s.drop_first()
}

pub proof fn lemma_split_on_len<T>(b: Seq<T>, sep: T)
    ensures
        split_on(b, sep).len() >= 1,
    decreases b.len(),
{
    if b.len() > 0 {
        lemma_split_on_len(b.drop_first(), sep);
    }
}

pub proof fn lemma_split_on2_len(b: Seq<u8>, s1: u8, s2: u8)
    ensures
        split_on2(b, s1, s2).len() >= 1,
    decreases b.len(),
{
    if b.len() >= 2 && b[0] == s1 && b[1] == s2 {
        lemma_split_on2_len(b.skip(2), s1, s2);
    } else if b.len() > 0 {
        lemma_split_on2_len(b.drop_first(), s1, s2);
    }
}

/// A sequence free of the separator is returned whole, as the single part.
pub proof fn lemma_split_on_no_sep<T>(b: Seq<T>, sep: T)
    requires
        forall|i: int| 0 <= i < b.len() ==> b[i] != sep,
    ensures
        split_on(b, sep) == seq![b],
    decreases b.len(),
{
    if b.len() == 0 {
        assert(split_on(b, sep) =~~= seq![b]);
    } else {
        lemma_split_on_no_sep(b.drop_first(), sep);
        assert(split_on(b, sep) =~~= seq![b]);
    }
}

/// Splitting `a + [sep] + b` where `a` is free of the separator yields `a`
/// as the first part, followed by the parts of `b`.
pub proof fn lemma_split_on_concat<T>(a: Seq<T>, b: Seq<T>, sep: T)
    requires
        forall|i: int| 0 <= i < a.len() ==> a[i] != sep,
    ensures
        split_on(a + seq![sep] + b, sep) == seq![a] + split_on(b, sep),
    decreases a.len(),
{
    lemma_split_on_len(b, sep);
    if a.len() == 0 {
        assert((a + seq![sep] + b).drop_first() =~= b);
        assert(split_on(a + seq![sep] + b, sep) =~~= seq![a] + split_on(b, sep));
    } else {
        lemma_split_on_concat(a.drop_first(), b, sep);
        assert((a + seq![sep] + b).drop_first() =~= a.drop_first() + seq![sep] + b);
        lemma_split_on_len(a.drop_first() + seq![sep] + b, sep);
        assert(split_on(a + seq![sep] + b, sep) =~~= seq![a] + split_on(b, sep));
    }
}

/// Joining the parts of a split with the same separator gives the input
/// back: splitting loses nothing.
pub proof fn lemma_join_split<T>(b: Seq<T>, sep: T)
    ensures
        join_on(split_on(b, sep), sep) == b,
    decreases b.len(),
{
    if b.len() == 0 {
    } else if b[0] == sep {
        lemma_join_split(b.drop_first(), sep);
        lemma_split_on_len(b.drop_first(), sep);
        let parts = split_on(b, sep);
        assert(parts.drop_first() =~= split_on(b.drop_first(), sep));
        assert(join_on(parts, sep) =~= b);
    } else {
        lemma_join_split(b.drop_first(), sep);
        lemma_split_on_len(b.drop_first(), sep);
        let rest = split_on(b.drop_first(), sep);
        let parts = split_on(b, sep);
        if rest.len() == 1 {
            assert(parts =~~= seq![seq![b[0]] + rest[0]]);
            assert(join_on(parts, sep) == seq![b[0]] + rest[0]);
            assert(join_on(rest, sep) == rest[0]);
            assert(join_on(parts, sep) =~= b);
        } else {
            assert(parts[0] == seq![b[0]] + rest[0]);
            assert(parts.drop_first() =~= rest.drop_first());
            assert(parts.len() >= 2);
            assert(join_on(parts, sep) == parts[0] + seq![sep] + join_on(
                rest.drop_first(),
                sep,
            ));
            assert(join_on(rest, sep) == rest[0] + seq![sep] + join_on(rest.drop_first(), sep));
            assert(join_on(parts, sep) =~= seq![b[0]] + join_on(rest, sep));
            assert(join_on(parts, sep) =~= b);
        }
    }
}

/// Exec counterpart of `split_on`.
pub fn split_bytes(v: &[u8], sep: u8) -> (r: Vec<Vec<u8>>)
    ensures
        r.deep_view() == split_on(v@, sep),
        r.len() >= 1,
{
    let mut parts: Vec<Vec<u8>> = Vec::new();
    let mut cur: Vec<u8> = Vec::new();
    let mut i: usize = 0;
    proof {
        lemma_split_on_len(v@, sep);
        assert(v@.skip(0) =~= v@);
        assert(split_on(v@, sep) =~~= parts.deep_view() + cons_first(
            cur@,
            split_on(v@.skip(0), sep),
        ));
    }
    while i < v.len()
        invariant
            i <= v@.len(),
            split_on(v@, sep) == parts.deep_view() + cons_first(
                cur@,
                split_on(v@.skip(i as int), sep),
            ),
        decreases v@.len() - i,
    {
        proof {
            assert(v@.skip(i as int).len() > 0);
            assert(v@.skip(i as int)[0] == v@[i as int]);
            assert(v@.skip(i as int).drop_first() =~= v@.skip(i as int + 1));
            lemma_split_on_len(v@.skip(i as int + 1), sep);
        }
        if v[i] == sep {
            let ghost old_parts = parts.deep_view();
            let ghost old_cur = cur@;
            parts.push(cur);
            cur = Vec::new();
            proof {
                assert(parts.deep_view() =~~= old_parts.push(old_cur));
                assert(split_on(v@, sep) =~~= parts.deep_view() + cons_first(
                    cur@,
                    split_on(v@.skip(i as int + 1), sep),
                ));
            }
        } else {
            let ghost old_cur = cur@;
            cur.push(v[i]);
            proof {
                assert(split_on(v@, sep) =~~= parts.deep_view() + cons_first(
                    cur@,
                    split_on(v@.skip(i as int + 1), sep),
                ));
            }
        }
        i = i + 1;
    }
    proof {
        assert(v@.skip(i as int) =~= Seq::<u8>::empty());
        let ghost old_parts = parts.deep_view();
        assert(split_on(v@, sep) =~~= old_parts.push(cur@));
    }
    parts.push(cur);
    proof {
        lemma_split_on_len(v@, sep);
        assert(parts.deep_view() =~~= split_on(v@, sep));
    }
    parts
}

/// Exec counterpart of `split_on2`.
pub fn split_bytes2(v: &[u8], s1: u8, s2: u8) -> (r: Vec<Vec<u8>>)
    ensures
        r.deep_view() == split_on2(v@, s1, s2),
        r.len() >= 1,
{
    let mut parts: Vec<Vec<u8>> = Vec::new();
    let mut cur: Vec<u8> = Vec::new();
    let mut i: usize = 0;
    proof {
        lemma_split_on2_len(v@, s1, s2);
        assert(v@.skip(0) =~= v@);
        assert(split_on2(v@, s1, s2) =~~= parts.deep_view() + cons_first(
            cur@,
            split_on2(v@.skip(0), s1, s2),
        ));
    }
    while i < v.len()
        invariant
            i <= v@.len(),
            split_on2(v@, s1, s2) == parts.deep_view() + cons_first(
                cur@,
                split_on2(v@.skip(i as int), s1, s2),
            ),
        decreases v@.len() - i,
    {
        proof {
            assert(v@.skip(i as int).len() > 0);
            assert(v@.skip(i as int)[0] == v@[i as int]);
            if i + 1 < v@.len() {
                assert(v@.skip(i as int)[1] == v@[i as int + 1]);
                assert(v@.skip(i as int).skip(2) =~= v@.skip(i as int + 2));
            }
            assert(v@.skip(i as int).drop_first() =~= v@.skip(i as int + 1));
        }
        if i + 1 < v.len() && v[i] == s1 && v[i + 1] == s2 {
            let ghost old_parts = parts.deep_view();
            let ghost old_cur = cur@;
            parts.push(cur);
            cur = Vec::new();
            proof {
                lemma_split_on2_len(v@.skip(i as int + 2), s1, s2);
                assert(parts.deep_view() =~~= old_parts.push(old_cur));
                assert(split_on2(v@, s1, s2) =~~= parts.deep_view() + cons_first(
                    cur@,
                    split_on2(v@.skip(i as int + 2), s1, s2),
                ));
            }
            i = i + 2;
        } else {
            let ghost old_cur = cur@;
            cur.push(v[i]);
            proof {
                lemma_split_on2_len(v@.skip(i as int + 1), s1, s2);
                assert(split_on2(v@, s1, s2) =~~= parts.deep_view() + cons_first(
                    cur@,
                    split_on2(v@.skip(i as int + 1), s1, s2),
                ));
            }
            i = i + 1;
        }
    }
    proof {
        assert(v@.skip(i as int) =~= Seq::<u8>::empty());
        let ghost old_parts = parts.deep_view();
        assert(split_on2(v@, s1, s2) =~~= old_parts.push(cur@));
    }
    parts.push(cur);
    proof {
        lemma_split_on2_len(v@, s1, s2);
        assert(parts.deep_view() =~~= split_on2(v@, s1, s2));
    }
    parts
}

/// A line with its trailing carriage return removed, if it has one.
pub open spec fn strip_cr(l: Seq<u8>) -> Seq<u8> {
    if l.len() > 0 && l.last() == CR {
        l.drop_last()
    } else {
        l
    }
}

/// The lines of a buffer, as `str::lines` frames them: split at every line
/// feed, drop the final empty part that a trailing line feed leaves, and
/// strip one trailing carriage return from each line.
pub open spec fn lines_of(b: Seq<u8>) -> Seq<Seq<u8>> {
    let parts = split_on(b, LF);
    let trimmed = if parts.last().len() == 0 {
        parts.drop_last()
    } else {
        parts
    };
    trimmed.map_values(|l: Seq<u8>| strip_cr(l))
}

/// Exec counterpart of `lines_of`.
pub fn lines_bytes(v: &[u8]) -> (r: Vec<Vec<u8>>)
    ensures
        r.deep_view() == lines_of(v@),
{
    let mut parts = split_bytes(v, LF);
    let ghost raw = parts.deep_view();
    if parts[parts.len() - 1].len() == 0 {
        parts.pop();
    }
    let ghost trimmed = if raw.last().len() == 0 {
        raw.drop_last()
    } else {
        raw
    };
    proof {
        assert(parts.deep_view() =~~= trimmed);
    }
    let mut out: Vec<Vec<u8>> = Vec::new();
    let mut i: usize = 0;
    while i < parts.len()
        invariant
            i <= parts.len(),
            parts.deep_view() == trimmed,
            out.deep_view().len() == i,
            forall|j: int| 0 <= j < i ==> out.deep_view()[j] == strip_cr(trimmed[j]),
        decreases parts.len() - i,
    {
        let line = &parts[i];
        let mut copy = vstd::slice::slice_to_vec(line.as_slice());
        if copy.len() > 0 && copy[copy.len() - 1] == CR {
            copy.pop();
        }
        proof {
            assert(copy@ =~= strip_cr(trimmed[i as int]));
        }
        let ghost old_out = out.deep_view();
        out.push(copy);
        proof {
            assert(out.deep_view() =~~= old_out.push(copy@));
        }
        i = i + 1;
    }
    proof {
        assert(out.deep_view() =~~= trimmed.map_values(|l: Seq<u8>| strip_cr(l)));
    }
    out
}

} // verus!
