//! What is asked: prompts, requests and settings.
use vstd::prelude::*;
use vstd::string::StringExecFns;

use crate::hits::DEFAULT_K;
use crate::text::{
    chars_of, contains, find_in, lines, lines_of, occurs, starts_with, string_of, trim, trim_end,
    trim_start, trimmed, views, Fringe,
};

verus! {

/// Shorter prompts are greetings and acknowledgements.
pub const MIN_PROMPT_CHARS: usize = 12;

/// How many threads the model uses where nothing else is set.
pub const EMBED_THREADS: usize = 4;

/// A line out of a terminal: it names a user at a host and has a shell's
/// prompt.
pub open spec fn is_shell_line(l: Seq<char>) -> bool {
    contains(l, "@"@) && (contains(l, "% "@) || contains(l, "$ "@))
}

/// Some line is out of a terminal.
pub open spec fn is_paste(s: Seq<char>) -> bool {
    exists|i: int| 0 <= i < lines(s).len() && is_shell_line(#[trigger] lines(s)[i])
}

/// What a prompt asks, if it asks anything: greetings, commands and pasted
/// terminal output do not.
pub open spec fn question(prompt: Seq<char>) -> Option<Seq<char>> {
    let t = trim(prompt);
    if t.len() < MIN_PROMPT_CHARS || starts_with(t, "/"@) || is_paste(t) {
        None
    } else {
        Some(t)
    }
}

/// Whether a part occurs.
fn holds(s: &[char], part: &str) -> (r: bool)
    requires
        part@.len() > 0,
    ensures
        r == contains(s@, part@),
{
    let p = chars_of(part);
    find_in(s, &p).is_some()
}

/// What a prompt asks, if it asks anything.
pub fn question_in(prompt: &str) -> (r: Option<String>)
    ensures
        match r {
            Some(q) => question(prompt@) == Some(q@),
            None => question(prompt@) is None,
        },
{
    let all = chars_of(prompt);
    let t = trimmed(&all);
    let slash: Vec<char> = vec!['/'];
    proof {
        reveal_strlit("/");
        reveal_strlit("@");
        reveal_strlit("% ");
        reveal_strlit("$ ");
        assert(slash@ =~= "/"@);
    }
    if t.len() < MIN_PROMPT_CHARS || occurs(t, &slash, 0) {
        return None;
    }
    let ls = lines_of(t);
    let n: usize = ls.len();
    let mut i: usize = 0;
    while i < n
        invariant
            n == ls@.len(),
            i <= n,
            views(ls@) == lines(t@),
            t@ == trim(prompt@),
            "@"@.len() > 0,
            "% "@.len() > 0,
            "$ "@.len() > 0,
            forall|j: int| 0 <= j < i ==> !is_shell_line(#[trigger] lines(t@)[j]),
        decreases n - i,
    {
        let l = ls[i];
        proof {
            assert(views(ls@)[i as int] == l@);
        }
        if holds(l, "@") && (holds(l, "% ") || holds(l, "$ ")) {
            proof {
                assert(is_shell_line(lines(t@)[i as int]));
            }
            return None;
        }
        i = i + 1;
    }
    Some(string_of(t))
}

/// A member of a JSON object, as far as a request is concerned.
#[derive(Debug, PartialEq, Eq)]
pub enum Member {
    /// It is null, or is not there.
    Null,
    Truth(bool),
    /// A number, with its value where that is a natural number in range.
    Number(Option<u64>),
    Text(String),
    List,
    Object,
}

/// What a member holds.
#[verifier::ext_equal]
pub enum MemberView {
    Null,
    Truth(bool),
    Number(Option<u64>),
    Text(Seq<char>),
    List,
    Object,
}

impl View for Member {
    type V = MemberView;

    open spec fn view(&self) -> MemberView {
        match self {
            Member::Null => MemberView::Null,
            Member::Truth(b) => MemberView::Truth(*b),
            Member::Number(n) => MemberView::Number(*n),
            Member::Text(s) => MemberView::Text(s@),
            Member::List => MemberView::List,
            Member::Object => MemberView::Object,
        }
    }
}

/// The member of a JSON text under a key: none at all where the text is no
/// JSON.
pub uninterp spec fn member_of(text: Seq<char>, key: Seq<char>) -> Option<MemberView>;

/// `serde_json::from_str` into a value, and the value's member under the key as
/// indexing gives it: null where there is none. The result is named; which
/// texts are JSON is not stated.
#[verifier::external_body]
fn json_member(text: &str, key: &str) -> (r: Option<Member>)
    ensures
        match r {
            Some(m) => member_of(text@, key@) == Some(m@),
            None => member_of(text@, key@) is None,
        },
{
    let v: serde_json::Value = serde_json::from_str(text).ok()?;
    Some(match &v[key] {
        serde_json::Value::Null => Member::Null,
        serde_json::Value::Bool(b) => Member::Truth(*b),
        serde_json::Value::Number(n) => Member::Number(n.as_u64()),
        serde_json::Value::String(s) => Member::Text(s.clone()),
        serde_json::Value::Array(_) => Member::List,
        serde_json::Value::Object(_) => Member::Object,
    })
}

/// No key stands twice among these members.
pub open spec fn distinct_keys<A>(members: Seq<(&str, A)>) -> bool {
    forall|i: int, j: int|
        0 <= i < j < members.len() ==> (#[trigger] members[i]).0@ != (#[trigger] members[j]).0@
}

/// The key is that of one of these members.
pub open spec fn has_member<A>(members: Seq<(&str, A)>, key: Seq<char>) -> bool {
    exists|i: int| 0 <= i < members.len() && (#[trigger] members[i]).0@ == key
}

/// `serde_json::Value`'s printing, of an object with some texts and numbers:
/// what is printed stands in braces on one line, and reading it gives these
/// members back and no other.
#[verifier::external_body]
fn json_object(texts: &Vec<(&str, &str)>, numbers: &Vec<(&str, u64)>) -> (line: String)
    requires
        distinct_keys(texts@),
        distinct_keys(numbers@),
        forall|i: int|
            0 <= i < numbers@.len() ==> !has_member(texts@, (#[trigger] numbers@[i]).0@),
    ensures
        line@.len() > 1,
        line@[0] == '{',
        line@.last() == '}',
        !line@.contains('\n'),
        forall|i: int|
            0 <= i < texts@.len() ==> member_of(line@, (#[trigger] texts@[i]).0@) == Some(
                MemberView::Text(texts@[i].1@),
            ),
        forall|i: int|
            0 <= i < numbers@.len() ==> member_of(line@, (#[trigger] numbers@[i]).0@) == Some(
                MemberView::Number(Some(numbers@[i].1)),
            ),
        forall|key: Seq<char>|
            !has_member(texts@, key) && !has_member(numbers@, key) ==> #[trigger] member_of(
                line@,
                key,
            ) == Some(MemberView::Null),
{
    let mut map = serde_json::Map::new();
    for (key, text) in texts {
        map.insert((*key).to_owned(), serde_json::Value::from(*text));
    }
    for (key, number) in numbers {
        map.insert((*key).to_owned(), serde_json::Value::from(*number));
    }
    serde_json::Value::Object(map).to_string()
}

/// What a hook was called for: the prompt of its JSON input, which counts as
/// empty where there is none.
pub open spec fn prompt_of(member: Option<MemberView>) -> Seq<char> {
    match member {
        Some(MemberView::Text(s)) => s,
        _ => Seq::empty(),
    }
}

/// The prompt out of a member of the input.
pub fn prompt_from(member: Option<Member>) -> (s: String)
    ensures
        s@ == prompt_of(
            match member {
                Some(m) => Some(m@),
                None => None,
            },
        ),
{
    match member {
        Some(Member::Text(s)) => s,
        _ => String::new(),
    }
}

/// The prompt out of a hook's JSON input.
pub fn read_prompt(input: &str) -> (s: String)
    ensures
        s@ == prompt_of(member_of(input@, "prompt"@)),
{
    prompt_from(json_member(input, "prompt"))
}

/// A request to the daemon.
#[derive(Debug, PartialEq, Eq)]
pub struct Request {
    pub q: String,
    /// How many files.
    pub k: usize,
    /// Whether the hits are wanted all and as they are.
    pub raw: bool,
}

/// What a request holds.
#[verifier::ext_equal]
pub struct RequestView {
    pub q: Seq<char>,
    pub k: usize,
    pub raw: bool,
}

impl View for Request {
    type V = RequestView;

    open spec fn view(&self) -> RequestView {
        RequestView { q: self.q@, k: self.k, raw: self.raw }
    }
}

/// The request out of the members of its line. What is missing or is of
/// another kind is filled in.
pub open spec fn request_of(q: MemberView, k: MemberView, raw: MemberView) -> RequestView {
    RequestView {
        q: match q {
            MemberView::Text(s) => s,
            _ => Seq::empty(),
        },
        k: match k {
            MemberView::Number(Some(n)) => n as usize,
            _ => DEFAULT_K,
        },
        raw: match raw {
            MemberView::Truth(b) => b,
            _ => false,
        },
    }
}

/// The request on a line, if the line is JSON.
pub open spec fn request_on(line: Seq<char>) -> Option<RequestView> {
    let t = trim(line);
    match (member_of(t, "q"@), member_of(t, "k"@), member_of(t, "raw"@)) {
        (Some(q), Some(k), Some(raw)) => Some(request_of(q, k, raw)),
        _ => None,
    }
}

/// The request out of the members of its line.
pub fn request_from(q: Member, k: Member, raw: Member) -> (r: Request)
    ensures
        r@ == request_of(q@, k@, raw@),
{
    Request {
        q: match q {
            Member::Text(s) => s,
            _ => String::new(),
        },
        k: match k {
            Member::Number(Some(n)) => n as usize,
            _ => DEFAULT_K,
        },
        raw: match raw {
            Member::Truth(b) => b,
            _ => false,
        },
    }
}

/// The request on a line, if the line is JSON.
pub fn read_request(line: &str) -> (r: Option<Request>)
    ensures
        match r {
            Some(req) => request_on(line@) == Some(req@),
            None => request_on(line@) is None,
        },
{
    let all = chars_of(line);
    let t = string_of(trimmed(&all));
    let q = json_member(t.as_str(), "q");
    let k = json_member(t.as_str(), "k");
    let raw = json_member(t.as_str(), "raw");
    match (q, k, raw) {
        (Some(q), Some(k), Some(raw)) => Some(request_from(q, k, raw)),
        _ => None,
    }
}

/// The line that asks for a query, for so many files.
pub fn request_line(q: &str, k: usize) -> (line: String)
    ensures
        request_on(line@) == Some(RequestView { q: q@, k, raw: false }),
        line@.len() > 0,
        line@.last() == '\n',
        !line@.drop_last().contains('\n'),
{
    proof {
        reveal_strlit("q");
        reveal_strlit("k");
        reveal_strlit("raw");
        reveal_strlit("\n");
        assert("q"@[0] != "k"@[0]);
        assert("raw"@.len() == 3);
    }
    let texts: Vec<(&str, &str)> = vec![("q", q)];
    let numbers: Vec<(&str, u64)> = vec![("k", k as u64)];
    let mut line = json_object(&texts, &numbers);
    let ghost body = line@;
    line.append("\n");
    proof {
        assert(texts@[0].0@ == "q"@ && texts@[0].1@ == q@);
        assert(numbers@[0].0@ == "k"@ && numbers@[0].1 == k);
        assert(!has_member(texts@, "raw"@) && !has_member(numbers@, "raw"@));
        assert(line@ =~= body.push('\n'));
        assert(line@.drop_last() =~= body);
        lemma_braces(body);
    }
    line
}

/// White space behind what stands in braces is trimmed off, and no more.
proof fn lemma_braces(body: Seq<char>)
    requires
        body.len() > 1,
        body[0] == '{',
        body.last() == '}',
    ensures
        trim(body.push('\n')) == body,
{
    let s = body.push('\n');
    assert(trim_start(s, Fringe::Space) == s);
    assert(s.drop_last() =~= body);
    reveal_with_fuel(trim_end, 3);
    assert(trim_end(body, Fringe::Space) == body);
}

/// The digit that a character is.
pub open spec fn digit(c: char) -> Option<int> {
    if '0' <= c <= '9' {
        Some(c as int - '0' as int)
    } else {
        None
    }
}

/// Every character is a digit.
pub open spec fn all_digits(s: Seq<char>) -> bool {
    forall|i: int| 0 <= i < s.len() ==> digit(#[trigger] s[i]) is Some
}

/// The number that some digits write.
pub open spec fn value(s: Seq<char>) -> int
    decreases s.len(),
{
    if s.len() == 0 {
        0
    } else {
        value(s.drop_last()) * 10 + digit(s.last()).unwrap()
    }
}

/// The natural number that a text writes: digits, with a plus in front or none.
pub open spec fn natural(s: Seq<char>) -> Option<int> {
    let body = if s.len() > 0 && s[0] == '+' {
        s.skip(1)
    } else {
        s
    };
    if body.len() > 0 && all_digits(body) {
        Some(value(body))
    } else {
        None
    }
}

/// How many threads the model uses: what is set, where that is a positive
/// number in range.
pub open spec fn threads(set: Option<Seq<char>>) -> int {
    match set {
        Some(s) => match natural(s) {
            Some(n) => if 0 < n <= usize::MAX {
                n
            } else {
                EMBED_THREADS as int
            },
            None => EMBED_THREADS as int,
        },
        None => EMBED_THREADS as int,
    }
}

/// Digits behind digits do not make a number less.
proof fn lemma_value_grows(s: Seq<char>, i: int)
    requires
        0 <= i <= s.len(),
        all_digits(s),
    ensures
        0 <= value(s.take(i)) <= value(s),
    decreases s.len(),
{
    if i == s.len() {
        assert(s.take(i) =~= s);
        if i > 0 {
            let less = s.drop_last();
            assert(all_digits(less)) by {
                assert forall|j: int| 0 <= j < less.len() implies digit(
                    #[trigger] less[j],
                ) is Some by {
                    assert(s[j] == less[j]);
                }
            }
            lemma_value_grows(less, less.len() as int);
            assert(less.take(less.len() as int) =~= less);
            assert(digit(s[s.len() - 1]) is Some);
        }
    } else {
        let less = s.drop_last();
        assert(all_digits(less)) by {
            assert forall|j: int| 0 <= j < less.len() implies digit(#[trigger] less[j]) is Some by {
                assert(s[j] == less[j]);
            }
        }
        lemma_value_grows(less, i);
        assert(less.take(i) =~= s.take(i));
        assert(digit(s[s.len() - 1]) is Some);
    }
}

/// The natural number that a text writes, where it is in range.
fn natural_in(text: &str) -> (r: Option<usize>)
    ensures
        match r {
            Some(n) => natural(text@) == Some(n as int),
            None => match natural(text@) {
                Some(n) => n > usize::MAX,
                None => true,
            },
        },
{
    let s = chars_of(text);
    let n: usize = s.len();
    let from: usize = if n > 0 && s[0] == '+' {
        1
    } else {
        0
    };
    if from == n {
        return None;
    }
    let ghost body = s@.skip(from as int);
    proof {
        assert(s@.skip(0) =~= s@);
    }
    let mut acc: usize = 0;
    let mut i: usize = from;
    while i < n
        invariant
            n == s@.len(),
            from <= i <= n,
            body == s@.skip(from as int),
            natural(text@) == if body.len() > 0 && all_digits(body) {
                Some(value(body))
            } else {
                None
            },
            all_digits(body.take(i - from)),
            acc == value(body.take(i - from)),
        decreases n - i,
    {
        let c = s[i];
        proof {
            assert(body[i - from] == c);
        }
        if c < '0' || '9' < c {
            proof {
                assert(digit(body[i - from]) is None);
            }
            return None;
        }
        let d: usize = c as usize - '0' as usize;
        proof {
            let more = body.take(i + 1 - from);
            assert(more.drop_last() =~= body.take(i - from));
            assert(more.last() == c);
            assert(value(more) == acc * 10 + d);
            assert forall|j: int| 0 <= j < more.len() implies digit(#[trigger] more[j]) is Some by {
                if j < i - from {
                    assert(body.take(i - from)[j] == more[j]);
                }
            }
            if all_digits(body) {
                lemma_value_grows(body, i + 1 - from);
            }
        }
        acc = match acc.checked_mul(10) {
            Some(m) => match m.checked_add(d) {
                Some(a) => a,
                None => {
                    return None;
                },
            },
            None => {
                return None;
            },
        };
        i = i + 1;
    }
    proof {
        assert(body.take(n - from) =~= body);
    }
    Some(acc)
}

/// How many threads the model uses. `set` is what the environment says.
pub fn embed_threads(set: Option<&str>) -> (n: usize)
    ensures
        n == threads(
            match set {
                Some(s) => Some(s@),
                None => None,
            },
        ),
        n > 0,
{
    match set {
        Some(s) => match natural_in(s) {
            Some(n) => if n > 0 {
                n
            } else {
                EMBED_THREADS
            },
            None => EMBED_THREADS,
        },
        None => EMBED_THREADS,
    }
}

/// The text in front of what was found for a prompt.
pub open spec fn preamble() -> Seq<char> {
    "Relevant entries from the pos108 memory store (retrieved automatically \
     for this prompt — they may be stale, verify before relying on them):\n\n"@
}

/// What is put in front of a prompt, if anything was found for it.
pub open spec fn added_context(found: Seq<char>) -> Option<Seq<char>> {
    if trim(found).len() == 0 {
        None
    } else {
        Some(preamble() + found)
    }
}

/// What is put in front of a prompt, if anything was found for it.
pub fn context_for(found: &str) -> (r: Option<String>)
    ensures
        match r {
            Some(c) => added_context(found@) == Some(c@),
            None => added_context(found@) is None,
        },
{
    let all = chars_of(found);
    if trimmed(&all).len() == 0 {
        None
    } else {
        let mut s = "Relevant entries from the pos108 memory store (retrieved automatically \
     for this prompt — they may be stale, verify before relying on them):\n\n".to_owned();
        s.append(found);
        Some(s)
    }
}

/// A hook's line of output around its inner object.
pub open spec fn hook_line(inner: Seq<char>) -> Seq<char> {
    "{\"hookSpecificOutput\":"@ + inner + "}"@
}

/// The inner object of a hook's output: the event, and what is added to the
/// prompt.
pub open spec fn is_hook_output(inner: Seq<char>, context: Seq<char>) -> bool {
    &&& member_of(inner, "hookEventName"@) == Some(MemberView::Text("UserPromptSubmit"@))
    &&& member_of(inner, "additionalContext"@) == Some(MemberView::Text(context))
    &&& forall|key: Seq<char>|
        key != "hookEventName"@ && key != "additionalContext"@ ==> #[trigger] member_of(inner, key)
            == Some(MemberView::Null)
}

/// The line that a hook prints to add something to the prompt.
pub fn hook_output(context: &str) -> (line: String)
    ensures
        !line@.contains('\n'),
        exists|inner: Seq<char>| #[trigger]
            hook_line(inner) == line@ && is_hook_output(inner, context@),
{
    let texts: Vec<(&str, &str)> = vec![
        ("hookEventName", "UserPromptSubmit"),
        ("additionalContext", context),
    ];
    let numbers: Vec<(&str, u64)> = vec![];
    proof {
        reveal_strlit("hookEventName");
        reveal_strlit("additionalContext");
        reveal_strlit("{\"hookSpecificOutput\":");
        reveal_strlit("}");
        assert("hookEventName"@.len() != "additionalContext"@.len());
        assert(texts@[0].0@ == "hookEventName"@ && texts@[0].1@ == "UserPromptSubmit"@);
        assert(texts@[1].0@ == "additionalContext"@ && texts@[1].1@ == context@);
    }
    let inner = json_object(&texts, &numbers);
    let mut line = "{\"hookSpecificOutput\":".to_owned();
    line.append(inner.as_str());
    line.append("}");
    proof {
        let iv = inner@;
        assert(line@ == hook_line(iv));
        assert(is_hook_output(iv, context@));
        let open = "{\"hookSpecificOutput\":"@;
        assert forall|i: int| 0 <= i < line@.len() implies line@[i] != '\n' by {
            if i >= open.len() && i < open.len() + iv.len() {
                assert(line@[i] == iv[i - open.len()]);
                assert(iv.contains(iv[i - open.len()]));
            } else if i < open.len() {
                assert(line@[i] == open[i]);
            }
        }
    }
    line
}

} // verus!
