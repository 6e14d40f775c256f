//! What is asked, on the characters of what was typed or sent.
use vstd::prelude::*;

use crate::request::{
    added_context, all_digits, digit, hook_line, is_hook_output, is_paste, is_shell_line, member_of,
    natural, preamble, prompt_of, question, request_of, request_on, threads, value, MemberView,
};
use crate::text::{contains, is_blank, lines, occurs_at, trim};
use crate::text_laws::law_trimming_leaves_the_middle;

verus! {

/// The two characters stand side by side.
pub open spec fn side_by_side(s: Seq<char>, a: char, b: char) -> bool {
    exists|i: int| 0 <= i < s.len() - 1 && #[trigger] s[i] == a && s[i + 1] == b
}

proof fn lemma_holds_one(s: Seq<char>, c: char)
    ensures
        contains(s, seq![c]) <==> s.contains(c),
{
    if contains(s, seq![c]) {
        let i = choose|i: int| occurs_at(s, seq![c], i);
        assert(s.subrange(i, i + 1)[0] == s[i]);
    }
    if s.contains(c) {
        let i = choose|i: int| 0 <= i < s.len() && s[i] == c;
        assert(s.subrange(i, i + 1) =~= seq![c]);
        assert(occurs_at(s, seq![c], i));
    }
}

proof fn lemma_holds_two(s: Seq<char>, a: char, b: char)
    ensures
        contains(s, seq![a, b]) <==> side_by_side(s, a, b),
{
    if contains(s, seq![a, b]) {
        let i = choose|i: int| occurs_at(s, seq![a, b], i);
        assert(s.subrange(i, i + 2)[0] == s[i]);
        assert(s.subrange(i, i + 2)[1] == s[i + 1]);
    }
    if side_by_side(s, a, b) {
        let i = choose|i: int| 0 <= i < s.len() - 1 && #[trigger] s[i] == a && s[i + 1] == b;
        assert(s.subrange(i, i + 2) =~= seq![a, b]);
        assert(occurs_at(s, seq![a, b], i));
    }
}

/// A line with an at sign and a shell's prompt.
pub open spec fn from_a_terminal(l: Seq<char>) -> bool {
    l.contains('@') && (side_by_side(l, '%', ' ') || side_by_side(l, '$', ' '))
}

/// What a prompt asks is the whole of it, white space at the ends aside. Only a
/// prompt of fewer than twelve characters, one whose first character is a
/// slash, and one with a line from a terminal ask nothing.
pub proof fn law_what_is_passed_over(prompt: Seq<char>)
    ensures
        question(prompt) == if trim(prompt).len() >= 12 && trim(prompt)[0] != '/' && forall|i: int|
            0 <= i < lines(trim(prompt)).len() ==> !from_a_terminal(
                #[trigger] lines(trim(prompt))[i],
            ) {
            Some(trim(prompt))
        } else {
            None
        },
{
    let t = trim(prompt);
    let ls = lines(t);
    reveal_strlit("/");
    reveal_strlit("@");
    reveal_strlit("% ");
    reveal_strlit("$ ");
    assert("/"@ =~= seq!['/']);
    assert("@"@ =~= seq!['@']);
    assert("% "@ =~= seq!['%', ' ']);
    assert("$ "@ =~= seq!['$', ' ']);
    if t.len() > 0 {
        assert(t.subrange(0, 1)[0] == t[0]);
        if t[0] == '/' {
            assert(t.subrange(0, 1) =~= seq!['/']);
        }
    }
    assert forall|i: int| 0 <= i < ls.len() implies is_shell_line(ls[i]) == from_a_terminal(
        #[trigger] ls[i],
    ) by {
        lemma_holds_one(ls[i], '@');
        lemma_holds_two(ls[i], '%', ' ');
        lemma_holds_two(ls[i], '$', ' ');
    }
    if is_paste(t) {
        let i = choose|i: int| 0 <= i < ls.len() && is_shell_line(#[trigger] ls[i]);
        assert(from_a_terminal(ls[i]));
    }
}

/// White space around a prompt does not matter to what it asks.
pub proof fn law_a_question_is_trimmed(prompt: Seq<char>)
    ensures
        question(prompt) matches Some(q) ==> q.len() >= 12 && exists|a: Seq<char>, b: Seq<char>|
            #[trigger] (a + q + b) == prompt && is_blank(a) && is_blank(b),
{
    law_trimming_leaves_the_middle(prompt);
}

/// A request is read as it was sent: a text as the query, a natural number as
/// the count, a truth value as the mode. What is missing or of another kind is
/// an empty query, three files, and no raw answer.
pub proof fn law_requests_say_what_they_say(
    q: Seq<char>,
    n: u64,
    b: bool,
    other: MemberView,
    one: MemberView,
    two: MemberView,
)
    ensures
        request_of(MemberView::Text(q), one, two).q == q,
        request_of(one, MemberView::Number(Some(n)), two).k == n as usize,
        request_of(one, two, MemberView::Truth(b)).raw == b,
        other !is Text ==> request_of(other, one, two).q.len() == 0,
        !(other matches MemberView::Number(Some(_))) ==> request_of(one, other, two).k == 3,
        other !is Truth ==> !request_of(one, two, other).raw,
        prompt_of(Some(MemberView::Text(q))) == q,
        other !is Text ==> prompt_of(Some(other)).len() == 0,
        prompt_of(None).len() == 0,
{
}

/// Each member of a request is read by itself, under its own key, from the line
/// without white space around it; where the line is JSON there is a request.
pub proof fn law_members_of_a_request(line: Seq<char>)
    ensures
        match (
            member_of(trim(line), "q"@),
            member_of(trim(line), "k"@),
            member_of(trim(line), "raw"@),
        ) {
            (Some(q), Some(k), Some(raw)) => {
                &&& request_on(line) is Some
                &&& request_on(line).unwrap().q == request_of(q, k, raw).q
                &&& request_on(line).unwrap().k == request_of(q, k, raw).k
                &&& request_on(line).unwrap().raw == request_of(q, k, raw).raw
            },
            _ => request_on(line) is None,
        },
{
}

/// Digits write a number place by place, the last ten times less than the one
/// before it; a plus in front changes nothing.
pub proof fn law_digits_write_numbers(s: Seq<char>, d: char)
    requires
        '0' <= d <= '9',
        all_digits(s),
    ensures
        natural(s.push(d)) == Some(value(s) * 10 + (d as int - '0' as int)),
        s.len() > 0 ==> natural(s) == Some(value(s)),
        natural(seq!['+'] + s.push(d)) == natural(s.push(d)),
        natural(seq!['+']) is None,
        natural(Seq::empty()) is None,
        value(Seq::empty()) == 0,
{
    let more = s.push(d);
    assert(more.drop_last() =~= s);
    assert forall|i: int| 0 <= i < more.len() implies digit(#[trigger] more[i]) is Some by {
        if i < s.len() {
            assert(more[i] == s[i]);
        }
    }
    assert(all_digits(more));
    assert(digit(more[0]) is Some);
    assert(digit('+') is None);
    if s.len() > 0 {
        assert(digit(s[0]) is Some);
    }
    let plus = seq!['+'] + more;
    assert(plus[0] == '+');
    assert(plus.skip(1) =~= more);
    assert(seq!['+'].skip(1).len() == 0);
}

/// What holds anything but digits, a plus in front aside, writes no number.
pub proof fn law_other_characters_write_no_number(s: Seq<char>, i: int)
    requires
        0 <= i < s.len(),
        !('0' <= s[i] <= '9'),
        i > 0 || s[0] != '+',
    ensures
        natural(s) is None,
{
    let body = if s[0] == '+' {
        s.skip(1)
    } else {
        s
    };
    if s[0] == '+' {
        assert(body[i - 1] == s[i]);
        assert(digit(body[i - 1]) is None);
    } else {
        assert(digit(body[i]) is None);
    }
}

/// A positive number in range sets the threads; anything else leaves four.
pub proof fn law_threads_are_set_by_number(s: Seq<char>)
    ensures
        threads(None) == 4,
        natural(s) is None ==> threads(Some(s)) == 4,
        natural(s) matches Some(n) ==> threads(Some(s)) == if 0 < n <= usize::MAX {
            n
        } else {
            4
        },
{
}

/// What was found goes in front of a prompt whole, behind the one preamble, and
/// goes there exactly where it is not blank.
pub proof fn law_what_was_found_is_added_whole(found: Seq<char>)
    ensures
        added_context(found) is None <==> is_blank(found),
        added_context(found) matches Some(c) ==> c == preamble() + found,
        preamble()
            == "Relevant entries from the pos108 memory store (retrieved automatically \
     for this prompt — they may be stale, verify before relying on them):\n\n"@,
{
    law_trimming_leaves_the_middle(found);
}

/// A hook's line holds the event and the context, and nothing more.
pub proof fn law_a_hook_says_what_is_added(inner: Seq<char>, context: Seq<char>)
    ensures
        hook_line(inner) == "{\"hookSpecificOutput\":"@ + inner + "}"@,
        is_hook_output(inner, context) ==> {
            &&& member_of(inner, "additionalContext"@) == Some(MemberView::Text(context))
            &&& member_of(inner, "hookEventName"@) == Some(MemberView::Text("UserPromptSubmit"@))
        },
{
}

} // verus!
