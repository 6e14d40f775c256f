//! Strings as sequences of characters: searching, splitting and trimming.
//!
//! A string is read once into a `Vec<char>`; everything after that works on
//! slices of it, so positions count characters and no offset can fall inside
//! one.
use vstd::prelude::*;
use vstd::slice::slice_subrange;
use vstd::utf8::encode_utf8;

verus! {

/// `String::push` appends the character to the end of the string.
pub assume_specification[ String::push ](s: &mut String, c: char)
    ensures
        final(s)@ == old(s)@.push(c),
;

/// `pat` stands in `s` at position `i`.
pub open spec fn occurs_at(s: Seq<char>, pat: Seq<char>, i: int) -> bool {
    0 <= i && i + pat.len() <= s.len() && s.subrange(i, i + pat.len()) == pat
}

/// `i` is the first position of `pat` in `s`.
pub open spec fn is_first(s: Seq<char>, pat: Seq<char>, i: int) -> bool {
    occurs_at(s, pat, i) && forall|j: int| 0 <= j < i ==> !#[trigger] occurs_at(s, pat, j)
}

/// The first position of `pat` in `s`, if it occurs at all.
pub open spec fn find(s: Seq<char>, pat: Seq<char>) -> Option<int> {
    if exists|i: int| is_first(s, pat, i) {
        Some(choose|i: int| is_first(s, pat, i))
    } else {
        None
    }
}

pub open spec fn starts_with(s: Seq<char>, pat: Seq<char>) -> bool {
    occurs_at(s, pat, 0)
}

pub open spec fn ends_with(s: Seq<char>, pat: Seq<char>) -> bool {
    occurs_at(s, pat, s.len() - pat.len())
}

/// What follows `pat` when `s` starts with it.
pub open spec fn strip_prefix(s: Seq<char>, pat: Seq<char>) -> Option<Seq<char>> {
    if starts_with(s, pat) {
        Some(s.skip(pat.len() as int))
    } else {
        None
    }
}

/// `s` occurs somewhere in the text.
pub open spec fn contains(s: Seq<char>, pat: Seq<char>) -> bool {
    exists|i: int| occurs_at(s, pat, i)
}

/// A line without the carriage return that may stand before its newline.
pub open spec fn strip_cr(s: Seq<char>) -> Seq<char> {
    if s.len() > 0 && s.last() == '\r' {
        s.drop_last()
    } else {
        s
    }
}

/// The lines of a text. A newline ends a line, a carriage return in front of
/// it belongs to it, and the empty rest after a final newline is no line.
pub open spec fn lines(s: Seq<char>) -> Seq<Seq<char>>
    decreases s.len(),
{
    if s.len() == 0 {
        Seq::empty()
    } else {
        match find(s, seq!['\n']) {
            Some(i) => if 0 <= i < s.len() {
                seq![strip_cr(s.take(i))] + lines(s.skip(i + 1))
            } else {
                Seq::empty()
            },
            None => seq![s],
        }
    }
}

/// The parts of `s` between the occurrences of `pat`, taken from the left.
pub open spec fn split(s: Seq<char>, pat: Seq<char>) -> Seq<Seq<char>>
    decreases s.len(),
{
    match find(s, pat) {
        Some(i) => if pat.len() > 0 && 0 <= i && i + pat.len() <= s.len() {
            seq![s.take(i)] + split(s.skip(i + pat.len()), pat)
        } else {
            seq![s]
        },
        None => seq![s],
    }
}

/// The characters with the Unicode property `White_Space`.
pub open spec fn is_whitespace(c: char) -> bool {
    let u = c as u32;
    ||| 0x9 <= u <= 0xD
    ||| u == 0x20
    ||| u == 0x85
    ||| u == 0xA0
    ||| u == 0x1680
    ||| 0x2000 <= u <= 0x200A
    ||| u == 0x2028
    ||| u == 0x2029
    ||| u == 0x202F
    ||| u == 0x205F
    ||| u == 0x3000
}

/// Nothing but white space, or nothing at all.
pub open spec fn is_blank(s: Seq<char>) -> bool {
    forall|i: int| 0 <= i < s.len() ==> is_whitespace(#[trigger] s[i])
}

/// What can be trimmed off the ends of a text.
pub enum Fringe {
    /// White space.
    Space,
    /// One character.
    Only(char),
}

impl Fringe {
    pub open spec fn has(self, c: char) -> bool {
        match self {
            Fringe::Space => is_whitespace(c),
            Fringe::Only(f) => c == f,
        }
    }
}

/// `s` without the characters of `f` that it begins with.
pub open spec fn trim_start(s: Seq<char>, f: Fringe) -> Seq<char>
    decreases s.len(),
{
    if s.len() > 0 && f.has(s[0]) {
        trim_start(s.skip(1), f)
    } else {
        s
    }
}

/// `s` without the characters of `f` that it ends with.
pub open spec fn trim_end(s: Seq<char>, f: Fringe) -> Seq<char>
    decreases s.len(),
{
    if s.len() > 0 && f.has(s.last()) {
        trim_end(s.drop_last(), f)
    } else {
        s
    }
}

/// `s` without the characters of `f` at either end.
pub open spec fn trim_fringe(s: Seq<char>, f: Fringe) -> Seq<char> {
    trim_end(trim_start(s, f), f)
}

/// `s` without the white space at either end.
pub open spec fn trim(s: Seq<char>) -> Seq<char> {
    trim_fringe(s, Fringe::Space)
}

/// `s` without the quotation marks at either end.
pub open spec fn unquote(s: Seq<char>) -> Seq<char> {
    trim_fringe(s, Fringe::Only('"'))
}

/// `s` without `pat` at its end, however often it stands there.
pub open spec fn strip_suffixes(s: Seq<char>, pat: Seq<char>) -> Seq<char>
    decreases s.len(),
{
    if pat.len() > 0 && ends_with(s, pat) {
        strip_suffixes(s.take(s.len() - pat.len()), pat)
    } else {
        s
    }
}

/// The size of a text in bytes, as UTF-8.
pub open spec fn byte_len(s: Seq<char>) -> nat {
    encode_utf8(s).len()
}

/// The texts that a list of slices holds.
pub open spec fn views(v: Seq<&[char]>) -> Seq<Seq<char>> {
    v.map_values(|x: &[char]| x@)
}

/// The texts that a list of strings holds.
pub open spec fn texts(v: Seq<String>) -> Seq<Seq<char>> {
    v.map_values(|x: String| x@)
}

/// The first position is unique, so it is what `find` gives.
pub proof fn lemma_find(s: Seq<char>, pat: Seq<char>, i: int)
    requires
        is_first(s, pat, i),
    ensures
        find(s, pat) == Some(i),
{
    let k = choose|k: int| is_first(s, pat, k);
    assert(is_first(s, pat, k));
    if k < i {
        assert(occurs_at(s, pat, k));
    }
    if i < k {
        assert(occurs_at(s, pat, i));
    }
}

/// Where something occurs, it occurs a first time.
pub proof fn lemma_least(s: Seq<char>, pat: Seq<char>, i: int)
    requires
        occurs_at(s, pat, i),
    ensures
        exists|k: int| is_first(s, pat, k),
    decreases i,
{
    if exists|j: int| 0 <= j < i && #[trigger] occurs_at(s, pat, j) {
        let j = choose|j: int| 0 <= j < i && #[trigger] occurs_at(s, pat, j);
        lemma_least(s, pat, j);
    } else {
        assert(is_first(s, pat, i));
    }
}

/// What `find` gives is the first position, and it gives none only when there
/// is none.
pub proof fn lemma_found(s: Seq<char>, pat: Seq<char>)
    ensures
        match find(s, pat) {
            Some(i) => is_first(s, pat, i),
            None => !contains(s, pat),
        },
{
    if contains(s, pat) {
        let i = choose|i: int| occurs_at(s, pat, i);
        lemma_least(s, pat, i);
    }
}

/// A newline is found where it stands.
pub proof fn lemma_newline_at(s: Seq<char>, i: int)
    ensures
        occurs_at(s, seq!['\n'], i) <==> 0 <= i < s.len() && s[i] == '\n',
{
    let pat = seq!['\n'];
    if 0 <= i < s.len() {
        assert(s.subrange(i, i + 1)[0] == s[i]);
        assert(s[i] == '\n' ==> s.subrange(i, i + 1) =~= pat);
    }
}

/// What stands before the first newline holds none, and a text in which none
/// is found holds none.
pub proof fn lemma_before_newline(s: Seq<char>)
    ensures
        match find(s, seq!['\n']) {
            Some(i) => 0 <= i < s.len() && s[i] == '\n' && !s.take(i).contains('\n'),
            None => !s.contains('\n'),
        },
{
    let pat = seq!['\n'];
    lemma_found(s, pat);
    match find(s, pat) {
        Some(i) => {
            lemma_newline_at(s, i);
            if s.take(i).contains('\n') {
                let j = choose|j: int| 0 <= j < s.take(i).len() && s.take(i)[j] == '\n';
                lemma_newline_at(s, j);
                assert(occurs_at(s, pat, j));
            }
        },
        None => {
            if s.contains('\n') {
                let j = choose|j: int| 0 <= j < s.len() && s[j] == '\n';
                lemma_newline_at(s, j);
                assert(occurs_at(s, pat, j));
            }
        },
    }
}

/// No line holds a newline.
pub proof fn lemma_lines_hold_no_newline(s: Seq<char>)
    ensures
        forall|k: int| 0 <= k < lines(s).len() ==> !(#[trigger] lines(s)[k]).contains('\n'),
    decreases s.len(),
{
    if s.len() > 0 {
        lemma_before_newline(s);
        match find(s, seq!['\n']) {
            Some(i) => {
                let line = strip_cr(s.take(i));
                let after = lines(s.skip(i + 1));
                lemma_lines_hold_no_newline(s.skip(i + 1));
                assert(!line.contains('\n')) by {
                    if line.contains('\n') {
                        let j = choose|j: int| 0 <= j < line.len() && line[j] == '\n';
                        assert(s.take(i)[j] == '\n');
                    }
                }
                assert(lines(s) == seq![line] + after);
                assert forall|k: int| 0 <= k < lines(s).len() implies !(
                #[trigger] lines(s)[k]).contains('\n') by {
                    if k > 0 {
                        assert(lines(s)[k] == after[k - 1]);
                    }
                }
            },
            None => {},
        }
    }
}

/// Trimming takes a stretch out of the middle.
pub proof fn lemma_trim_is_part(s: Seq<char>, f: Fringe)
    ensures
        exists|a: int, b: int|
            0 <= a <= b <= s.len() && trim_fringe(s, f) == #[trigger] s.subrange(a, b),
{
    lemma_trim_start_is_part(s, f);
    let a = choose|a: int| 0 <= a <= s.len() && trim_start(s, f) == #[trigger] s.skip(a);
    lemma_trim_end_is_part(s.skip(a), f);
    let t = s.skip(a);
    let b = choose|b: int| 0 <= b <= t.len() && trim_end(t, f) == #[trigger] t.take(b);
    assert(t.take(b) =~= s.subrange(a, a + b));
}

proof fn lemma_trim_start_is_part(s: Seq<char>, f: Fringe)
    ensures
        exists|a: int| 0 <= a <= s.len() && trim_start(s, f) == #[trigger] s.skip(a),
    decreases s.len(),
{
    if s.len() > 0 && f.has(s[0]) {
        lemma_trim_start_is_part(s.skip(1), f);
        let t = s.skip(1);
        let a = choose|a: int| 0 <= a <= t.len() && trim_start(t, f) == #[trigger] t.skip(a);
        assert(t.skip(a) =~= s.skip(a + 1));
    } else {
        assert(s.skip(0) =~= s);
    }
}

proof fn lemma_trim_end_is_part(s: Seq<char>, f: Fringe)
    ensures
        exists|b: int| 0 <= b <= s.len() && trim_end(s, f) == #[trigger] s.take(b),
    decreases s.len(),
{
    if s.len() > 0 && f.has(s.last()) {
        let t = s.drop_last();
        lemma_trim_end_is_part(t, f);
        let b = choose|b: int| 0 <= b <= t.len() && trim_end(t, f) == #[trigger] t.take(b);
        assert(t.take(b) =~= s.take(b));
    } else {
        assert(s.take(s.len() as int) =~= s);
    }
}

/// The bytes of two texts one behind the other are those of the one and then
/// those of the other.
pub proof fn lemma_encode_concat(a: Seq<char>, b: Seq<char>)
    ensures
        encode_utf8(a + b) == encode_utf8(a) + encode_utf8(b),
    decreases a.len(),
{
    if a.len() == 0 {
        assert(a + b =~= b);
        assert(encode_utf8(a) + encode_utf8(b) =~= encode_utf8(b));
    } else {
        lemma_encode_concat(a.drop_first(), b);
        assert((a + b).drop_first() =~= a.drop_first() + b);
        assert((a + b)[0] == a[0]);
    }
}

/// The characters of a string.
pub fn chars_of(s: &str) -> (v: Vec<char>)
    ensures
        v@ == s@,
{
    let mut v: Vec<char> = Vec::new();
    for c in it: s.chars()
        invariant
            v@ == it.seq().take(it.index() as int),
            it.seq() == s@,
    {
        v.push(c);
    }
    v
}

/// The string of a slice of characters.
pub fn string_of(c: &[char]) -> (s: String)
    ensures
        s@ == c@,
{
    let mut s = String::new();
    let n: usize = c.len();
    let mut i: usize = 0;
    while i < n
        invariant
            n == c@.len(),
            i <= n,
            s@ == c@.take(i as int),
        decreases n - i,
    {
        s.push(c[i]);
        proof {
            assert(c@.take(i + 1) =~= c@.take(i as int).push(c@[i as int]));
        }
        i = i + 1;
    }
    proof {
        assert(c@.take(n as int) =~= c@);
    }
    s
}

/// Whether `pat` stands in `s` at position `i`.
pub fn occurs(s: &[char], pat: &[char], i: usize) -> (r: bool)
    ensures
        r == occurs_at(s@, pat@, i as int),
{
    let n: usize = s.len();
    let m: usize = pat.len();
    if i > n || m > n - i {
        return false;
    }
    let mut j: usize = 0;
    while j < m
        invariant
            n == s@.len(),
            m == pat@.len(),
            i + m <= n,
            j <= m,
            forall|k: int| 0 <= k < j ==> s@[i + k] == #[trigger] pat@[k],
        decreases m - j,
    {
        if s[i + j] != pat[j] {
            proof {
                assert(s@.subrange(i as int, i + m)[j as int] == s@[i + j]);
            }
            return false;
        }
        j = j + 1;
    }
    proof {
        assert(s@.subrange(i as int, i + m) =~= pat@);
    }
    true
}

/// The first position of `pat` in `s`.
pub fn find_in(s: &[char], pat: &[char]) -> (r: Option<usize>)
    ensures
        match r {
            Some(i) => find(s@, pat@) == Some(i as int) && occurs_at(s@, pat@, i as int),
            None => find(s@, pat@) is None && !contains(s@, pat@),
        },
{
    let n: usize = s.len();
    let m: usize = pat.len();
    if m > n {
        return None;
    }
    let mut i: usize = 0;
    while i <= n - m
        invariant
            n == s@.len(),
            m == pat@.len(),
            m <= n,
            i <= n - m + 1,
            forall|j: int| 0 <= j < i ==> !#[trigger] occurs_at(s@, pat@, j),
        decreases n - m + 1 - i,
    {
        if occurs(s, pat, i) {
            proof {
                lemma_find(s@, pat@, i as int);
            }
            return Some(i);
        }
        if i == n - m {
            return None;
        }
        i = i + 1;
    }
    None
}

/// The rest of `s` behind `pat`, when `s` starts with `pat`.
pub fn strip<'a>(s: &'a [char], pat: &[char]) -> (r: Option<&'a [char]>)
    ensures
        match r {
            Some(rest) => strip_prefix(s@, pat@) == Some(rest@),
            None => strip_prefix(s@, pat@) is None,
        },
{
    if occurs(s, pat, 0) {
        let rest = slice_subrange(s, pat.len(), s.len());
        proof {
            assert(rest@ =~= s@.skip(pat@.len() as int));
        }
        Some(rest)
    } else {
        None
    }
}

/// The part of `s` before position `i`.
pub fn head<'a>(s: &'a [char], i: usize) -> (r: &'a [char])
    requires
        i <= s@.len(),
    ensures
        r@ == s@.take(i as int),
{
    slice_subrange(s, 0, i)
}

/// The part of `s` from position `i` on.
pub fn tail<'a>(s: &'a [char], i: usize) -> (r: &'a [char])
    requires
        i <= s@.len(),
    ensures
        r@ == s@.skip(i as int),
{
    slice_subrange(s, i, s.len())
}

/// The lines of `s`.
pub fn lines_of<'a>(s: &'a [char]) -> (out: Vec<&'a [char]>)
    ensures
        views(out@) == lines(s@),
{
    let newline: Vec<char> = vec!['\n'];
    let mut out: Vec<&'a [char]> = Vec::new();
    let mut rest: &'a [char] = s;
    proof {
        assert(views(out@) + lines(rest@) =~= lines(s@));
    }
    while rest.len() > 0
        invariant
            newline@ == seq!['\n'],
            views(out@) + lines(rest@) == lines(s@),
        decreases rest@.len(),
    {
        let ghost before = out@;
        match find_in(rest, &newline) {
            Some(i) => {
                let line = head(rest, i);
                let kept = if i > 0 && line[i - 1] == '\r' {
                    head(line, i - 1)
                } else {
                    line
                };
                proof {
                    assert(kept@ =~= strip_cr(rest@.take(i as int)));
                }
                let next = tail(rest, i + 1);
                out.push(kept);
                proof {
                    assert(views(out@) =~= views(before).push(kept@));
                    assert(views(out@) + lines(next@) =~= views(before) + (seq![kept@] + lines(next@)));
                }
                rest = next;
            },
            None => {
                let line = rest;
                let next = tail(rest, rest.len());
                out.push(line);
                proof {
                    assert(views(out@) =~= views(before).push(line@));
                    assert(views(out@) + lines(next@) =~= views(before) + seq![line@]);
                }
                rest = next;
            },
        }
    }
    proof {
        assert(views(out@) + lines(rest@) =~= views(out@));
    }
    out
}

/// The parts of `s` between the occurrences of `pat`.
pub fn split_on<'a>(s: &'a [char], pat: &[char]) -> (out: Vec<&'a [char]>)
    requires
        pat@.len() > 0,
    ensures
        views(out@) == split(s@, pat@),
{
    let mut out: Vec<&'a [char]> = Vec::new();
    let mut rest: &'a [char] = s;
    proof {
        assert(views(out@) + split(rest@, pat@) =~= split(s@, pat@));
    }
    loop
        invariant
            pat@.len() > 0,
            views(out@) + split(rest@, pat@) == split(s@, pat@),
        decreases rest@.len(),
    {
        let ghost before = out@;
        match find_in(rest, pat) {
            Some(i) => {
                let part = head(rest, i);
                let left: usize = rest.len() - i - pat.len();
                let next = tail(rest, rest.len() - left);
                out.push(part);
                proof {
                    assert(views(out@) =~= views(before).push(part@));
                    assert(views(out@) + split(next@, pat@) =~= views(before) + (seq![part@]
                        + split(next@, pat@)));
                }
                rest = next;
            },
            None => {
                out.push(rest);
                proof {
                    assert(views(out@) =~= views(before) + seq![rest@]);
                }
                return out;
            },
        }
    }
}

impl Fringe {
    /// Whether the character can be trimmed off.
    pub fn covers(&self, c: char) -> (r: bool)
        ensures
            r == self.has(c),
    {
        match self {
            Fringe::Space => is_space(c),
            Fringe::Only(f) => c == *f,
        }
    }
}

/// Whether the character is white space.
pub fn is_space(c: char) -> (r: bool)
    ensures
        r == is_whitespace(c),
{
    let u: u32 = c as u32;
    (0x9 <= u && u <= 0xD) || u == 0x20 || u == 0x85 || u == 0xA0 || u == 0x1680 || (0x2000 <= u
        && u <= 0x200A) || u == 0x2028 || u == 0x2029 || u == 0x202F || u == 0x205F || u == 0x3000
}

/// Whether `s` is blank.
pub fn blank(s: &[char]) -> (r: bool)
    ensures
        r == is_blank(s@),
{
    let n: usize = s.len();
    let mut i: usize = 0;
    while i < n
        invariant
            n == s@.len(),
            i <= n,
            forall|k: int| 0 <= k < i ==> is_whitespace(#[trigger] s@[k]),
        decreases n - i,
    {
        if !is_space(s[i]) {
            return false;
        }
        i = i + 1;
    }
    true
}

/// `s` without the characters of `f` at either end.
pub fn trim_by<'a>(s: &'a [char], f: &Fringe) -> (r: &'a [char])
    ensures
        r@ == trim_fringe(s@, *f),
{
    let mut rest: &'a [char] = s;
    while rest.len() > 0 && f.covers(rest[0])
        invariant
            trim_start(rest@, *f) == trim_start(s@, *f),
        decreases rest@.len(),
    {
        rest = tail(rest, 1);
    }
    proof {
        assert(rest@ == trim_start(s@, *f));
    }
    let ghost open = rest@;
    while rest.len() > 0 && f.covers(rest[rest.len() - 1])
        invariant
            trim_end(rest@, *f) == trim_end(open, *f),
        decreases rest@.len(),
    {
        let ghost before = rest@;
        rest = head(rest, rest.len() - 1);
        proof {
            assert(rest@ =~= before.drop_last());
        }
    }
    rest
}

/// `s` without the white space at either end.
pub fn trimmed<'a>(s: &'a [char]) -> (r: &'a [char])
    ensures
        r@ == trim(s@),
{
    trim_by(s, &Fringe::Space)
}

/// `s` without the quotation marks at either end.
pub fn unquoted<'a>(s: &'a [char]) -> (r: &'a [char])
    ensures
        r@ == unquote(s@),
{
    trim_by(s, &Fringe::Only('"'))
}

/// `s` without `pat` at its end, however often it stands there.
pub fn without_suffixes<'a>(s: &'a [char], pat: &[char]) -> (r: &'a [char])
    requires
        pat@.len() > 0,
    ensures
        r@ == strip_suffixes(s@, pat@),
{
    let m: usize = pat.len();
    let mut rest: &'a [char] = s;
    while rest.len() >= m && occurs(rest, pat, rest.len() - m)
        invariant
            m == pat@.len(),
            m > 0,
            strip_suffixes(rest@, pat@) == strip_suffixes(s@, pat@),
        decreases rest@.len(),
    {
        rest = head(rest, rest.len() - m);
    }
    rest
}

/// The size of a string in bytes.
pub fn size_of_text(s: &str) -> (n: usize)
    ensures
        n == byte_len(s@),
{
    s.as_bytes().len()
}

} // verus!
