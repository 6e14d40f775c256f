//! What a note's text says of it, and what the graph makes of that.
use vstd::prelude::*;
use vstd::utf8::{
    encode_utf8, encode_utf8_decode_utf8, encode_utf8_valid_utf8, is_ascii_chars_encode_utf8,
};

use crate::link_laws::distinct_stems;
use crate::links::{
    all_neighbours, closer, description, first_description, front_lines, graph_of, is_neighbour,
    is_note, law_ranked_by_links, linked_back, links_along, list_at, mentions, next_rule, ranking,
    related, seed_stems, stem_bytes, stem_of, targets, times, with_file, GraphView,
};
use crate::order::text_lt;
use crate::store::{is_markdown, is_memory, name_at, raw_at, StoreEntry};
use crate::text::{lemma_encode_concat, lines, starts_with, trim, unquote};
use crate::text_laws::{
    clear_of, lacks, law_a_prefix_comes_off, law_the_first_place_is_found,
    law_what_is_missing_is_not_found,
};

verus! {

proof fn lemma_brackets()
    ensures
        "[["@ == seq!['[', '['],
        "]]"@ == seq![']', ']'],
{
    reveal_strlit("[[");
    reveal_strlit("]]");
    assert("[["@ =~= seq!['[', '[']);
    assert("]]"@ =~= seq![']', ']']);
}

/// Every link of a text is a mention, wherever it stands: the first brackets
/// that open, up to the first that close, and then all that follow.
pub proof fn law_every_link_is_mentioned(a: Seq<char>, t: Seq<char>, b: Seq<char>)
    requires
        clear_of(a, seq!['[', '[']),
        clear_of(t, seq![']', ']']),
    ensures
        mentions(a + seq!['[', '['] + t + seq![']', ']'] + b) == seq![trim(t)] + mentions(b),
{
    let open = seq!['[', '['];
    let close = seq![']', ']'];
    lemma_brackets();
    let rest = t + close + b;
    let s = a + open + t + close + b;
    assert(s =~= a + open + rest);
    law_the_first_place_is_found(a, open, rest);
    law_the_first_place_is_found(t, close, b);
    let n = a.len() as int;
    let m = t.len() as int;
    assert(s.skip(n + 2) =~= rest);
    assert(rest.take(m) =~= t);
    assert(rest.skip(m + 2) =~= b);
}

/// A text without brackets that open mentions nothing, and neither do brackets
/// that never close.
pub proof fn law_open_ends_are_no_mentions(a: Seq<char>, t: Seq<char>)
    ensures
        lacks(a, seq!['[', '[']) ==> mentions(a).len() == 0,
        clear_of(a, seq!['[', '[']) && lacks(t, seq![']', ']']) ==> mentions(
            a + seq!['[', '['] + t,
        ).len() == 0,
{
    let open = seq!['[', '['];
    let close = seq![']', ']'];
    lemma_brackets();
    if lacks(a, open) {
        law_what_is_missing_is_not_found(a, open);
    }
    if clear_of(a, open) && lacks(t, close) {
        law_the_first_place_is_found(a, open, t);
        law_what_is_missing_is_not_found(t, close);
        assert((a + open + t).skip(a.len() as int + 2) =~= t);
    }
}

/// Links stand in the order of their first mention.
pub proof fn law_links_keep_their_order(ms: Seq<Seq<char>>, stem: Seq<char>, i: int, j: int)
    requires
        0 <= i < j < targets(ms, stem).len(),
    ensures
        exists|p: int|
            0 <= p < ms.len() && #[trigger] ms[p] == targets(ms, stem)[i] && !ms.take(p).contains(
                targets(ms, stem)[j],
            ),
    decreases ms.len(),
{
    let less = ms.drop_last();
    let before = targets(less, stem);
    let all = targets(ms, stem);
    if j < before.len() {
        law_links_keep_their_order(less, stem, i, j);
        let p = choose|p: int|
            0 <= p < less.len() && #[trigger] less[p] == before[i] && !less.take(p).contains(
                before[j],
            );
        assert(ms[p] == all[i]);
        assert(ms.take(p) =~= less.take(p));
    } else {
        crate::link_laws::law_links_are_the_mentions(less, stem);
        let t = all[i];
        assert(before.contains(before[i]));
        let p = choose|p: int| 0 <= p < less.len() && less[p] == t;
        assert(ms[p] == t);
        if ms.take(p).contains(all[j]) {
            let q = choose|q: int| 0 <= q < ms.take(p).len() && ms.take(p)[q] == all[j];
            assert(less[q] == all[j]);
            assert(less.contains(all[j]));
        }
    }
}

/// The frontmatter is what stands between a first line `---` and the first such
/// line with a line in front of it.
pub proof fn law_the_frontmatter_ends_at_its_rule(
    first: Seq<char>,
    more: Seq<Seq<char>>,
    rest: Seq<Seq<char>>,
)
    requires
        forall|i: int| 0 <= i < more.len() ==> #[trigger] more[i] != seq!['-', '-', '-'],
    ensures
        front_lines(
            seq![seq!['-', '-', '-'], first] + more + seq![seq!['-', '-', '-']] + rest,
        ) == seq![first] + more,
        front_lines(seq![seq!['-', '-', '-'], first] + more).len() == 0,
{
    let rule = seq!['-', '-', '-'];
    reveal_strlit("---");
    assert("---"@ =~= rule);
    let ls = seq![rule, first] + more + seq![rule] + rest;
    let n = more.len() as int;
    assert forall|k: int| 2 <= k < n + 2 implies #[trigger] ls[k] != rule by {
        assert(ls[k] == more[k - 2]);
    }
    assert(ls[n + 2] == rule);
    lemma_next_rule(ls, 2, n + 2);
    assert(ls.subrange(1, n + 2) =~= seq![first] + more);
    let open = seq![rule, first] + more;
    assert forall|k: int| 2 <= k < n + 2 implies #[trigger] open[k] != rule by {
        assert(open[k] == more[k - 2]);
    }
    lemma_no_rule(open, 2);
}

proof fn lemma_next_rule(ls: Seq<Seq<char>>, i: int, end: int)
    requires
        0 <= i <= end < ls.len(),
        ls[end] == "---"@,
        forall|k: int| i <= k < end ==> #[trigger] ls[k] != "---"@,
    ensures
        next_rule(ls, i) == Some(end),
    decreases end - i,
{
    if i < end {
        lemma_next_rule(ls, i + 1, end);
    }
}

proof fn lemma_no_rule(ls: Seq<Seq<char>>, i: int)
    requires
        forall|k: int| i <= k < ls.len() ==> #[trigger] ls[k] != "---"@,
    ensures
        next_rule(ls, i) is None,
    decreases ls.len() - i,
{
    if i < ls.len() {
        lemma_no_rule(ls, i + 1);
    }
}

/// A file that does not begin with the line `---` has no frontmatter, and so no
/// description; the description of any other is the first in its frontmatter.
pub proof fn law_only_frontmatter_describes(raw: Seq<char>)
    ensures
        lines(raw).len() == 0 || lines(raw)[0] != seq!['-', '-', '-'] ==> description(raw).len()
            == 0,
        first_description(front_lines(lines(raw))) matches Some(d) ==> description(raw) == d,
        first_description(front_lines(lines(raw))) is None ==> description(raw).len() == 0,
{
    reveal_strlit("---");
    assert("---"@ =~= seq!['-', '-', '-']);
}

/// The first line that begins with `description:`, white space aside, gives the
/// description: what follows on it, without white space and then quotation
/// marks at the ends.
pub proof fn law_the_first_description_counts(
    a: Seq<Seq<char>>,
    line: Seq<char>,
    d: Seq<char>,
    b: Seq<Seq<char>>,
)
    requires
        forall|i: int|
            0 <= i < a.len() ==> !starts_with(trim(#[trigger] a[i]), "description:"@),
        trim(line) == "description:"@ + d,
    ensures
        first_description(a + seq![line] + b) == Some(unquote(trim(d))),
        first_description(a) is None,
    decreases a.len(),
{
    let all = a + seq![line] + b;
    if a.len() == 0 {
        assert(all[0] == line);
        law_a_prefix_comes_off(d, "description:"@);
    } else {
        let less = a.skip(1);
        assert(all[0] == a[0]);
        assert(all.skip(1) =~= less + seq![line] + b);
        assert forall|i: int| 0 <= i < less.len() implies !starts_with(
            trim(#[trigger] less[i]),
            "description:"@,
        ) by {
            assert(less[i] == a[i + 1]);
        }
        law_the_first_description_counts(less, line, d, b);
    }
}

/// A file adds itself to the graph and nothing else: its own links and
/// description under its stem, and its stem to the end of the list of each file
/// that it links to.
pub proof fn law_a_file_adds_its_own(g: GraphView, stem: Seq<char>, raw: Seq<char>, t: Seq<char>)
    ensures
        ({
            let h = with_file(g, stem, raw);
            &&& h.out == g.out.insert(stem, targets(mentions(raw), stem))
            &&& h.descriptions == g.descriptions.insert(stem, description(raw))
            &&& list_at(h.back, t) == if targets(mentions(raw), stem).contains(t) {
                list_at(g.back, t).push(stem)
            } else {
                list_at(g.back, t)
            }
        }),
{
    let ts = targets(mentions(raw), stem);
    crate::link_laws::law_links_are_the_mentions(mentions(raw), stem);
    lemma_back(g.back, ts, stem, t);
}

proof fn lemma_back(
    back: Map<Seq<char>, Seq<Seq<char>>>,
    ts: Seq<Seq<char>>,
    stem: Seq<char>,
    t: Seq<char>,
)
    requires
        ts.no_duplicates(),
    ensures
        list_at(linked_back(back, ts, stem), t) == if ts.contains(t) {
            list_at(back, t).push(stem)
        } else {
            list_at(back, t)
        },
    decreases ts.len(),
{
    if ts.len() > 0 {
        let less = ts.drop_last();
        let last = ts.last();
        assert forall|i: int, j: int|
            0 <= i < less.len() && 0 <= j < less.len() && i != j implies less[i] != less[j] by {
            assert(ts[i] != ts[j]);
        }
        lemma_back(back, less, stem, t);
        assert(ts.contains(t) <==> less.contains(t) || t == last) by {
            if ts.contains(t) {
                let i = choose|i: int| 0 <= i < ts.len() && ts[i] == t;
                if i < less.len() {
                    assert(less[i] == t);
                }
            }
            if less.contains(t) {
                let i = choose|i: int| 0 <= i < less.len() && less[i] == t;
                assert(ts[i] == t);
            }
            assert(ts[ts.len() - 1] == last);
        }
        if t == last && less.contains(t) {
            let i = choose|i: int| 0 <= i < less.len() && less[i] == t;
            assert(ts[i] == ts[ts.len() - 1]);
        }
    }
}

/// The graph of a store holds every file with its own links and description,
/// and no other file.
pub proof fn law_the_graph_holds_every_file(entries: Seq<StoreEntry>, n: int, i: int)
    requires
        distinct_stems(entries),
        0 <= i < n <= entries.len(),
        is_note(entries, i),
    ensures
        ({
            let stem = stem_of(name_at(entries, i));
            let raw = raw_at(entries, i).unwrap();
            let g = graph_of(entries, n);
            &&& g.out.contains_key(stem)
            &&& g.out[stem] == targets(mentions(raw), stem)
            &&& g.descriptions.contains_key(stem)
            &&& g.descriptions[stem] == description(raw)
        }),
    decreases n,
{
    let stem = stem_of(name_at(entries, i));
    if n - 1 == i {
    } else {
        law_the_graph_holds_every_file(entries, n - 1, i);
        if is_note(entries, n - 1) {
            assert(stem_of(name_at(entries, n - 1)) != stem);
        }
    }
}

/// Only files are in the graph.
pub proof fn law_only_files_are_in_the_graph(entries: Seq<StoreEntry>, n: int, stem: Seq<char>)
    requires
        0 <= n <= entries.len(),
        graph_of(entries, n).out.contains_key(stem),
    ensures
        exists|i: int|
            0 <= i < n && #[trigger] is_note(entries, i) && stem_of(name_at(entries, i)) == stem,
    decreases n,
{
    if n > 0 {
        if graph_of(entries, n - 1).out.contains_key(stem) {
            law_only_files_are_in_the_graph(entries, n - 1, stem);
        } else {
            assert(is_note(entries, n - 1));
        }
    }
}

proof fn lemma_md()
    ensures
        ".md"@ == seq!['.', 'm', 'd'],
        encode_utf8(".md"@).len() == 3,
        encode_utf8(".md"@) == seq![0x2eu8, 0x6du8, 0x64u8],
{
    reveal_strlit(".md");
    is_ascii_chars_encode_utf8(".md"@);
    assert(".md"@ =~= seq!['.', 'm', 'd']);
    assert(encode_utf8(".md"@) =~= seq![0x2eu8, 0x6du8, 0x64u8]);
}

/// A markdown file is one whose name is something with `.md` behind it, and a
/// memory is any of these but `MEMORY.md`.
pub proof fn law_names_of_memories(name: Seq<u8>)
    ensures
        is_markdown(name) <==> name.len() > 3 && name.skip(name.len() - 3) == seq![
            0x2eu8,
            0x6du8,
            0x64u8,
        ],
        is_memory(name) <==> is_markdown(name) && name != seq![
            0x4du8,
            0x45u8,
            0x4du8,
            0x4fu8,
            0x52u8,
            0x59u8,
            0x2eu8,
            0x6du8,
            0x64u8,
        ],
{
    lemma_md();
    reveal_strlit("MEMORY.md");
    is_ascii_chars_encode_utf8("MEMORY.md"@);
    assert(encode_utf8("MEMORY.md"@) =~= seq![
        0x4du8,
        0x45u8,
        0x4du8,
        0x4fu8,
        0x52u8,
        0x59u8,
        0x2eu8,
        0x6du8,
        0x64u8,
    ]);
}

/// A file of the store is in the graph under its name without `.md`, unless it
/// is `MEMORY.md`.
pub proof fn law_notes_go_by_their_stems(entries: Seq<StoreEntry>, i: int, stem: Seq<char>)
    requires
        entries[i] is Found,
        name_at(entries, i) == encode_utf8(stem + ".md"@),
        stem.len() > 0,
    ensures
        stem_of(name_at(entries, i)) == stem,
        is_note(entries, i) <==> stem != "MEMORY"@,
{
    let name = name_at(entries, i);
    lemma_md();
    lemma_encode_concat(stem, ".md"@);
    assert(stem_bytes(name) =~= encode_utf8(stem));
    assert(name.skip(name.len() - 3) =~= encode_utf8(".md"@));
    encode_utf8_valid_utf8(stem);
    encode_utf8_decode_utf8(stem);
    assert(encode_utf8(stem).len() > 0) by {
        if encode_utf8(stem).len() == 0 {
            let none: Seq<char> = Seq::empty();
            assert(encode_utf8(none) =~= encode_utf8(stem));
            encode_utf8_decode_utf8(none);
        }
    }
}

/// How often something stands in a sequence is its count.
pub proof fn law_times_count(s: Seq<Seq<char>>, x: Seq<char>)
    ensures
        times(s, x) == s.to_multiset().count(x),
    decreases s.len(),
{
    s.to_multiset_ensures();
    if s.len() == 0 {
        if s.to_multiset().count(x) > 0 {
            assert(s.contains(x));
        }
    } else {
        let less = s.drop_last();
        less.to_multiset_ensures();
        law_times_count(less, x);
        assert(less.push(s.last()) =~= s);
    }
}

/// The links of some seeds are those of each, to it and from it, one seed after
/// the other.
pub proof fn law_every_seed_brings_its_links(
    g: GraphView,
    stems: Seq<Seq<char>>,
    s: Seq<char>,
    n: Seq<char>,
)
    ensures
        links_along(g, stems.push(s)) == links_along(g, stems) + list_at(g.out, s) + list_at(
            g.back,
            s,
        ),
        links_along(g, Seq::empty()).len() == 0,
        list_at(g.out, s) == if g.out.contains_key(s) {
            g.out[s]
        } else {
            Seq::empty()
        },
        is_neighbour(g, stems, n) <==> links_along(g, stems).contains(n) && !stems.contains(n)
            && g.descriptions.contains_key(n),
{
    assert(stems.push(s).drop_last() =~= stems);
    assert(links_along(g, stems.push(s)) =~= links_along(g, stems) + list_at(g.out, s) + list_at(
        g.back,
        s,
    ));
}

/// What is given out as linked are the closest neighbours and no others: one
/// that is left out has no more links than any that is given, and none is left
/// out while there is room. Of as many links the smaller name comes first.
pub proof fn law_the_closest_neighbours_are_given(
    g: GraphView,
    files: Seq<Seq<char>>,
    limit: nat,
    n: Seq<char>,
)
    requires
        is_neighbour(g, seed_stems(files), n),
    ensures
        ({
            let r = related(g, files, limit);
            let all = links_along(g, seed_stems(files));
            let named = r.map_values(|p: (Seq<char>, Seq<char>)| p.0);
            &&& named.contains(n) || r.len() == limit
            &&& forall|i: int|
                0 <= i < r.len() && !named.contains(n) ==> {
                    let m = (#[trigger] r[i]).0;
                    times(all, m) > times(all, n) || (times(all, m) == times(all, n) && text_lt(
                        m,
                        n,
                    ))
                }
            &&& forall|i: int, j: int|
                0 <= i < j < r.len() ==> {
                    let a = (#[trigger] r[i]).0;
                    let b = (#[trigger] r[j]).0;
                    times(all, a) > times(all, b) || (times(all, a) == times(all, b) && text_lt(
                        a,
                        b,
                    ))
                }
        }),
{
    let stems = seed_stems(files);
    let r = related(g, files, limit);
    let names = ranking(g, stems);
    let named = r.map_values(|p: (Seq<char>, Seq<char>)| p.0);
    law_ranked_by_links(g, stems);
    assert(all_neighbours(g, stems).contains(n));
    assert(names.contains(n));
    let k = choose|k: int| 0 <= k < names.len() && names[k] == n;
    if k < r.len() {
        assert(named[k] == n);
    }
    assert forall|i: int| 0 <= i < r.len() && !named.contains(n) implies closer(g, stems)(
        (#[trigger] r[i]).0,
        n,
    ) by {
        assert(r[i].0 == names[i]);
        assert(i < k);
    }
    assert forall|i: int, j: int| 0 <= i < j < r.len() implies closer(g, stems)(
        (#[trigger] r[i]).0,
        (#[trigger] r[j]).0,
    ) by {
        assert(r[i].0 == names[i]);
        assert(r[j].0 == names[j]);
    }
}

} // verus!
