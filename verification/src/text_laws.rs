//! What holds of searching, splitting and trimming, on the characters.
use vstd::prelude::*;
use vstd::utf8::encode_utf8;

use crate::order::{bytes_lt, text_lt};
use crate::text::{
    byte_len, contains, ends_with, find, is_blank, is_first, is_whitespace, lemma_encode_concat,
    lemma_find, lemma_found, lines, occurs_at, split, starts_with, strip_cr, strip_prefix,
    strip_suffixes, trim, trim_end, trim_fringe, trim_start, unquote, Fringe,
};

verus! {

/// With `pat` behind it, `a` holds `pat` nowhere before its end: neither inside
/// nor across the end.
pub open spec fn clear_of(a: Seq<char>, pat: Seq<char>) -> bool {
    forall|i: int|
        0 <= i < a.len() ==> #[trigger] (a + pat).subrange(i, i + pat.len()) != pat
}

/// No stretch of `s` is `pat`.
pub open spec fn lacks(s: Seq<char>, pat: Seq<char>) -> bool {
    forall|i: int|
        0 <= i && i + pat.len() <= s.len() ==> #[trigger] s.subrange(i, i + pat.len()) != pat
}

/// What is searched for is found where it stands first.
pub proof fn law_the_first_place_is_found(a: Seq<char>, pat: Seq<char>, b: Seq<char>)
    requires
        clear_of(a, pat),
    ensures
        find(a + pat + b, pat) == Some(a.len() as int),
{
    let s = a + pat + b;
    let n = a.len() as int;
    assert(s.subrange(n, n + pat.len()) =~= pat);
    assert(occurs_at(s, pat, n));
    assert forall|j: int| 0 <= j < n implies !#[trigger] occurs_at(s, pat, j) by {
        assert(s.subrange(j, j + pat.len()) =~= (a + pat).subrange(j, j + pat.len()));
    }
    assert(is_first(s, pat, n));
    lemma_find(s, pat, n);
}

/// What stands nowhere is not found.
pub proof fn law_what_is_missing_is_not_found(s: Seq<char>, pat: Seq<char>)
    requires
        lacks(s, pat),
    ensures
        find(s, pat) is None,
{
    lemma_found(s, pat);
    if contains(s, pat) {
        let i = choose|i: int| occurs_at(s, pat, i);
        assert(s.subrange(i, i + pat.len()) == pat);
    }
}

/// A text contains what it is made of, and nothing else.
pub proof fn law_contained_parts(s: Seq<char>, pat: Seq<char>)
    ensures
        contains(s, pat) <==> exists|a: Seq<char>, b: Seq<char>| #[trigger] (a + pat + b) == s,
        starts_with(s, pat) <==> exists|b: Seq<char>| #[trigger] (pat + b) == s,
        ends_with(s, pat) <==> exists|a: Seq<char>| #[trigger] (a + pat) == s,
{
    if contains(s, pat) {
        let i = choose|i: int| occurs_at(s, pat, i);
        assert(s.take(i) + pat + s.skip(i + pat.len()) =~= s);
    }
    if exists|a: Seq<char>, b: Seq<char>| #[trigger] (a + pat + b) == s {
        let (a, b) = choose|a: Seq<char>, b: Seq<char>| #[trigger] (a + pat + b) == s;
        let i = a.len() as int;
        assert(s.subrange(i, i + pat.len()) =~= pat);
        assert(occurs_at(s, pat, i));
    }
    if starts_with(s, pat) {
        assert(pat + s.skip(pat.len() as int) =~= s);
    }
    if exists|b: Seq<char>| #[trigger] (pat + b) == s {
        assert(s.subrange(0, pat.len() as int) =~= pat);
    }
    if ends_with(s, pat) {
        assert(s.take(s.len() - pat.len()) + pat =~= s);
    }
    if exists|a: Seq<char>| #[trigger] (a + pat) == s {
        assert(s.subrange(s.len() - pat.len(), s.len() as int) =~= pat);
    }
}

/// Taking a prefix off gives the rest, and is refused to a text without it.
pub proof fn law_a_prefix_comes_off(s: Seq<char>, pat: Seq<char>)
    ensures
        strip_prefix(pat + s, pat) == Some(s),
        strip_prefix(s, pat) matches Some(rest) ==> s == pat + rest,
        strip_prefix(s, pat) is None ==> forall|rest: Seq<char>| #[trigger] (pat + rest) != s,
{
    let l = pat + s;
    assert(l.subrange(0, pat.len() as int) =~= pat);
    assert(l.skip(pat.len() as int) =~= s);
    law_contained_parts(s, pat);
    match strip_prefix(s, pat) {
        Some(rest) => {
            assert(s =~= pat + rest);
        },
        None => {},
    }
}

/// A newline ends a line, whatever stands behind it. What ends with a carriage
/// return and a newline is the same line.
pub proof fn law_newlines_end_lines(a: Seq<char>, b: Seq<char>)
    requires
        !a.contains('\n'),
    ensures
        a.len() == 0 || a.last() != '\r' ==> lines(a + seq!['\n'] + b) == seq![a] + lines(b),
        lines(a + seq!['\r', '\n'] + b) == seq![a] + lines(b),
{
    let nl = seq!['\n'];
    lemma_line(a, b);
    let c = a.push('\r');
    assert(!c.contains('\n')) by {
        if c.contains('\n') {
            let i = choose|i: int| 0 <= i < c.len() && c[i] == '\n';
            assert(a[i] == '\n');
        }
    }
    lemma_line(c, b);
    assert(a + seq!['\r', '\n'] + b =~= c + nl + b);
    assert(strip_cr(c) =~= a);
}

proof fn lemma_line(a: Seq<char>, b: Seq<char>)
    requires
        !a.contains('\n'),
    ensures
        lines(a + seq!['\n'] + b) == seq![strip_cr(a)] + lines(b),
{
    let nl = seq!['\n'];
    let s = a + nl + b;
    assert forall|i: int| 0 <= i < a.len() implies #[trigger] (a + nl).subrange(i, i + nl.len())
        != nl by {
        assert((a + nl).subrange(i, i + 1)[0] == a[i]);
        assert(a.contains(a[i]));
    }
    law_the_first_place_is_found(a, nl, b);
    let n = a.len() as int;
    assert(s.take(n) =~= a);
    assert(s.skip(n + 1) =~= b);
}

/// A last line needs no newline, and an empty text has no line.
pub proof fn law_a_rest_is_a_line(s: Seq<char>)
    requires
        !s.contains('\n'),
    ensures
        lines(s) == if s.len() == 0 {
            Seq::empty()
        } else {
            seq![s]
        },
{
    let nl = seq!['\n'];
    assert forall|i: int| 0 <= i && i + nl.len() <= s.len() implies #[trigger] s.subrange(
        i,
        i + nl.len(),
    ) != nl by {
        assert(s.subrange(i, i + 1)[0] == s[i]);
        assert(s.contains(s[i]));
    }
    law_what_is_missing_is_not_found(s, nl);
}

/// Splitting cuts at every place, from the left, and takes nothing else away.
pub proof fn law_splitting_cuts_everywhere(a: Seq<char>, pat: Seq<char>, b: Seq<char>)
    requires
        pat.len() > 0,
        clear_of(a, pat),
    ensures
        split(a + pat + b, pat) == seq![a] + split(b, pat),
{
    let s = a + pat + b;
    let n = a.len() as int;
    law_the_first_place_is_found(a, pat, b);
    assert(s.take(n) =~= a);
    assert(s.skip(n + pat.len()) =~= b);
}

/// What holds nothing to cut at stays whole.
pub proof fn law_splitting_nothing(s: Seq<char>, pat: Seq<char>)
    requires
        lacks(s, pat),
    ensures
        split(s, pat) == seq![s],
{
    law_what_is_missing_is_not_found(s, pat);
}

/// Every character is of the fringe.
pub open spec fn all_of(s: Seq<char>, f: Fringe) -> bool {
    forall|i: int| 0 <= i < s.len() ==> (match f {
        Fringe::Space => is_whitespace(#[trigger] s[i]),
        Fringe::Only(c) => s[i] == c,
    })
}

/// Neither end is of the fringe.
pub open spec fn solid_ends(s: Seq<char>, f: Fringe) -> bool {
    s.len() == 0 || !(all_of(seq![s[0]], f) || all_of(seq![s.last()], f))
}

proof fn lemma_trim_start(a: Seq<char>, m: Seq<char>, f: Fringe)
    requires
        all_of(a, f),
        m.len() == 0 || !all_of(seq![m[0]], f),
    ensures
        trim_start(a + m, f) == m,
    decreases a.len(),
{
    let s = a + m;
    if a.len() == 0 {
        assert(s =~= m);
        if m.len() > 0 {
            assert(seq![m[0]][0] == m[0]);
        }
    } else {
        assert(s[0] == a[0]);
        assert(s.skip(1) =~= a.skip(1) + m);
        lemma_trim_start(a.skip(1), m, f);
    }
}

proof fn lemma_trim_end(m: Seq<char>, b: Seq<char>, f: Fringe)
    requires
        all_of(b, f),
        m.len() == 0 || !all_of(seq![m.last()], f),
    ensures
        trim_end(m + b, f) == m,
    decreases b.len(),
{
    let s = m + b;
    if b.len() == 0 {
        assert(s =~= m);
        if m.len() > 0 {
            assert(seq![m.last()][0] == m.last());
        }
    } else {
        assert(s.last() == b[b.len() - 1]);
        assert(s.drop_last() =~= m + b.drop_last());
        lemma_trim_end(m, b.drop_last(), f);
    }
}

/// Trimming takes off what is at the ends, all of it and nothing else.
pub proof fn law_trimming_takes_off_the_ends(a: Seq<char>, m: Seq<char>, b: Seq<char>, f: Fringe)
    requires
        all_of(a, f),
        all_of(b, f),
        solid_ends(m, f),
    ensures
        trim_fringe(a + m + b, f) == m,
        f == Fringe::Space ==> trim(a + m + b) == m,
        f == Fringe::Only('"') ==> unquote(a + m + b) == m,
{
    if m.len() == 0 {
        let s = a + m + b;
        assert forall|i: int| 0 <= i < s.len() implies (match f {
            Fringe::Space => is_whitespace(#[trigger] s[i]),
            Fringe::Only(c) => s[i] == c,
        }) by {
            if i < a.len() {
                assert(s[i] == a[i]);
            } else {
                assert(s[i] == b[i - a.len()]);
            }
        }
        assert(s + m =~= s);
        lemma_trim_start(s, m, f);
        lemma_trim_end(m, Seq::empty(), f);
        assert(m + Seq::<char>::empty() =~= m);
    } else {
        assert(a + m + b =~= a + (m + b));
        assert((m + b)[0] == m[0]);
        lemma_trim_start(a, m + b, f);
        lemma_trim_end(m, b, f);
    }
}

/// Every text is white space, then something solid or nothing, then white space
/// again; what is in the middle is what trimming leaves. A text is blank where
/// nothing is left.
pub proof fn law_trimming_leaves_the_middle(s: Seq<char>)
    ensures
        exists|a: Seq<char>, b: Seq<char>|
            #[trigger] (a + trim(s) + b) == s && is_blank(a) && is_blank(b),
        trim(s).len() > 0 ==> !is_whitespace(trim(s)[0]) && !is_whitespace(trim(s).last()),
        is_blank(s) <==> trim(s).len() == 0,
{
    let f = Fringe::Space;
    lemma_start_parts(s, f);
    let t = trim_start(s, f);
    let a = s.take(s.len() - t.len());
    lemma_end_parts(t, f);
    let m = trim_end(t, f);
    let b = t.skip(m.len() as int);
    assert(m == trim(s));
    assert(a + trim(s) + b =~= s);
    assert forall|i: int| 0 <= i < a.len() implies is_whitespace(#[trigger] a[i]) by {
        assert(f.has(s.take(s.len() - t.len())[i]));
    }
    assert forall|i: int| 0 <= i < b.len() implies is_whitespace(#[trigger] b[i]) by {
        assert(f.has(t.skip(m.len() as int)[i]));
    }
    if m.len() > 0 {
        assert(m[0] == t[0]);
    }
    if is_blank(s) && m.len() > 0 {
        assert(s[a.len() as int] == m[0]);
    }
    if m.len() == 0 {
        assert forall|i: int| 0 <= i < s.len() implies is_whitespace(#[trigger] s[i]) by {
            if i < a.len() {
                assert(s[i] == a[i]);
            } else {
                assert(s[i] == b[i - a.len()]);
            }
        }
    }
}

proof fn lemma_start_parts(s: Seq<char>, f: Fringe)
    ensures
        trim_start(s, f).len() <= s.len(),
        trim_start(s, f) == s.skip(s.len() - trim_start(s, f).len()),
        forall|i: int|
            0 <= i < s.len() - trim_start(s, f).len() ==> f.has(
                #[trigger] s.take(s.len() - trim_start(s, f).len())[i],
            ),
        trim_start(s, f).len() > 0 ==> !f.has(trim_start(s, f)[0]),
    decreases s.len(),
{
    let t = trim_start(s, f);
    if s.len() > 0 && f.has(s[0]) {
        let r = s.skip(1);
        lemma_start_parts(r, f);
        let n = s.len() - t.len();
        assert(r.skip(n - 1) =~= s.skip(n));
        assert forall|i: int| 0 <= i < n implies f.has(#[trigger] s.take(n)[i]) by {
            if i > 0 {
                assert(s.take(n)[i] == r.take(n - 1)[i - 1]);
            }
        }
    } else {
        assert(s.skip(0) =~= s);
    }
}

proof fn lemma_end_parts(s: Seq<char>, f: Fringe)
    ensures
        trim_end(s, f).len() <= s.len(),
        trim_end(s, f) == s.take(trim_end(s, f).len() as int),
        forall|i: int|
            0 <= i < s.len() - trim_end(s, f).len() ==> f.has(
                #[trigger] s.skip(trim_end(s, f).len() as int)[i],
            ),
        trim_end(s, f).len() > 0 ==> !f.has(trim_end(s, f).last()),
    decreases s.len(),
{
    let t = trim_end(s, f);
    let n = t.len() as int;
    if s.len() > 0 && f.has(s.last()) {
        let r = s.drop_last();
        lemma_end_parts(r, f);
        assert(r.take(n) =~= s.take(n));
        assert forall|i: int| 0 <= i < s.len() - n implies f.has(#[trigger] s.skip(n)[i]) by {
            if i < r.len() - n {
                assert(s.skip(n)[i] == r.skip(n)[i]);
            } else {
                assert(s.skip(n)[i] == s.last());
            }
        }
    } else {
        assert(s.take(s.len() as int) =~= s);
    }
}

/// A suffix comes off however often it stands at the end, and nothing else
/// does.
pub proof fn law_suffixes_come_off(s: Seq<char>, pat: Seq<char>)
    requires
        pat.len() > 0,
    ensures
        strip_suffixes(s + pat, pat) == strip_suffixes(s, pat),
        (forall|a: Seq<char>| #[trigger] (a + pat) != s) ==> strip_suffixes(s, pat) == s,
{
    let l = s + pat;
    assert(l.subrange(l.len() - pat.len(), l.len() as int) =~= pat);
    assert(l.take(l.len() - pat.len()) =~= s);
    law_contained_parts(s, pat);
}

/// The size of a text is that of its bytes in UTF-8, and sizes of parts sum up.
pub proof fn law_sizes_are_in_bytes(a: Seq<char>, b: Seq<char>)
    ensures
        byte_len(a) == encode_utf8(a).len(),
        byte_len(a + b) == byte_len(a) + byte_len(b),
{
    lemma_encode_concat(a, b);
}

/// The order of bytes is decided where two texts first differ; one that goes on
/// where the other ends comes behind it. Texts are ordered as their bytes in
/// UTF-8 are.
pub proof fn law_the_first_difference_decides(
    p: Seq<u8>,
    x: u8,
    r: Seq<u8>,
    y: u8,
    t: Seq<u8>,
)
    requires
        x != y,
    ensures
        bytes_lt(p + seq![x] + r, p + seq![y] + t) <==> x < y,
        bytes_lt(p, p + seq![y] + t),
        !bytes_lt(p + seq![y] + t, p),
        forall|a: Seq<char>, b: Seq<char>| #[trigger]
            text_lt(a, b) == bytes_lt(encode_utf8(a), encode_utf8(b)),
    decreases p.len(),
{
    let a = p + seq![x] + r;
    let b = p + seq![y] + t;
    if p.len() == 0 {
        assert(a[0] == x);
        assert(b[0] == y);
    } else {
        let q = p.skip(1);
        law_the_first_difference_decides(q, x, r, y, t);
        assert(a[0] == p[0]);
        assert(b[0] == p[0]);
        assert(a.skip(1) =~= q + seq![x] + r);
        assert(b.skip(1) =~= q + seq![y] + t);
    }
}

/// White space are the characters that Unicode counts as such: six control
/// characters, and the spaces and separators.
pub proof fn law_white_space(c: char)
    ensures
        is_whitespace(c) <==> c == '\t' || c == '\n' || c == '\u{b}' || c == '\u{c}' || c == '\r'
            || c == ' ' || c == '\u{85}' || c == '\u{a0}' || c == '\u{1680}' || ('\u{2000}' <= c
            <= '\u{200a}') || c == '\u{2028}' || c == '\u{2029}' || c == '\u{202f}' || c
            == '\u{205f}' || c == '\u{3000}',
{
}

} // verus!
