//! What holds of every link graph.
use vstd::prelude::*;
use vstd::utf8::{
    decode_utf8_encode_utf8, encode_utf8, encode_utf8_decode_utf8, encode_utf8_valid_utf8,
    is_ascii_chars_encode_utf8, valid_utf8,
};

use crate::links::{
    all_neighbours, closer, graph_of, is_neighbour, is_note, law_ranked_by_links,
    lemma_closer_orders, lemma_times_bound, linked_back, links_along, links_at, list_at, mentions,
    ranking, related, seed_stems, stem_bytes, stem_of, targets, times, GraphView,
};
use crate::store::{file_name, is_markdown, name_at, raw_at, StoreEntry};
use crate::text::{ends_with, lemma_encode_concat, strip_suffixes};

verus! {

/// A file's links are what it mentions, apart from itself and from nothing,
/// and each stands once.
pub proof fn law_links_are_the_mentions(ms: Seq<Seq<char>>, stem: Seq<char>)
    ensures
        forall|t: Seq<char>|
            #[trigger] targets(ms, stem).contains(t) <==> ms.contains(t) && t.len() > 0 && t
                != stem,
        targets(ms, stem).no_duplicates(),
    decreases ms.len(),
{
    if ms.len() > 0 {
        let before = targets(ms.drop_last(), stem);
        let after = targets(ms, stem);
        let m = ms.last();
        law_links_are_the_mentions(ms.drop_last(), stem);
        assert forall|t: Seq<char>| #[trigger] after.contains(t) <==> ms.contains(t) && t.len() > 0
            && t != stem by {
            if after.contains(t) {
                let i = choose|i: int| 0 <= i < after.len() && after[i] == t;
                if i < before.len() {
                    assert(before.contains(t));
                    let k = choose|k: int|
                        0 <= k < ms.drop_last().len() && ms.drop_last()[k] == t;
                    assert(ms[k] == t);
                } else {
                    assert(ms[ms.len() - 1] == t);
                }
            }
            if ms.contains(t) && t.len() > 0 && t != stem {
                let k = choose|k: int| 0 <= k < ms.len() && ms[k] == t;
                if k < ms.len() - 1 {
                    assert(ms.drop_last()[k] == t);
                    assert(before.contains(t));
                }
                if before.contains(t) {
                    let i = choose|i: int| 0 <= i < before.len() && before[i] == t;
                    assert(after[i] == t);
                } else {
                    assert(after[before.len() as int] == t);
                }
            }
        }
    }
}

proof fn lemma_linked_back(
    back: Map<Seq<char>, Seq<Seq<char>>>,
    ts: Seq<Seq<char>>,
    stem: Seq<char>,
    k: Seq<char>,
    a: Seq<char>,
)
    ensures
        list_at(linked_back(back, ts, stem), k).contains(a) <==> list_at(back, k).contains(a) || (a
            == stem && ts.contains(k)),
    decreases ts.len(),
{
    if ts.len() > 0 {
        let t = ts.last();
        let b = linked_back(back, ts.drop_last(), stem);
        lemma_linked_back(back, ts.drop_last(), stem, k, a);
        if ts.drop_last().contains(k) {
            let i = choose|i: int| 0 <= i < ts.drop_last().len() && ts.drop_last()[i] == k;
            assert(ts[i] == k);
        }
        if ts.contains(k) && k != t {
            let i = choose|i: int| 0 <= i < ts.len() && ts[i] == k;
            assert(ts.drop_last()[i] == k);
        }
        if k == t {
            assert(ts[ts.len() - 1] == k);
            let l = list_at(b, k);
            let p = l.push(stem);
            if l.contains(a) {
                let i = choose|i: int| 0 <= i < l.len() && l[i] == a;
                assert(p[i] == a);
            }
            if a == stem {
                assert(p[l.len() as int] == a);
            }
            if p.contains(a) && a != stem {
                let i = choose|i: int| 0 <= i < p.len() && p[i] == a;
                assert(l[i] == a);
            }
        }
    }
}

/// No two files of the graph have the same stem, as in a directory.
pub open spec fn distinct_stems(entries: Seq<StoreEntry>) -> bool {
    forall|i: int, j: int|
        0 <= i < j < entries.len() && #[trigger] is_note(entries, i) && #[trigger] is_note(
            entries,
            j,
        ) ==> stem_of(name_at(entries, i)) != stem_of(name_at(entries, j))
}

proof fn lemma_mirror(entries: Seq<StoreEntry>, n: int)
    requires
        0 <= n <= entries.len(),
        distinct_stems(entries),
    ensures
        forall|a: Seq<char>|
            #[trigger] graph_of(entries, n).out.contains_key(a) ==> exists|i: int|
                0 <= i < n && #[trigger] is_note(entries, i) && stem_of(name_at(entries, i)) == a,
        forall|a: Seq<char>, b: Seq<char>|
            #![trigger list_at(graph_of(entries, n).out, a), list_at(graph_of(entries, n).back, b)]
            list_at(graph_of(entries, n).out, a).contains(b) <==> list_at(
                graph_of(entries, n).back,
                b,
            ).contains(a),
    decreases n,
{
    if n > 0 {
        let g0 = graph_of(entries, n - 1);
        let g1 = graph_of(entries, n);
        lemma_mirror(entries, n - 1);
        if is_note(entries, n - 1) {
            let stem = stem_of(name_at(entries, n - 1));
            let ts = targets(mentions(raw_at(entries, n - 1).unwrap()), stem);
            assert(!g0.out.contains_key(stem));
            assert forall|a: Seq<char>| #[trigger] g1.out.contains_key(a) implies exists|i: int|
                0 <= i < n && #[trigger] is_note(entries, i) && stem_of(name_at(entries, i)) == a by {
                if a != stem {
                    assert(g0.out.contains_key(a));
                } else {
                    assert(is_note(entries, n - 1));
                }
            }
            assert forall|a: Seq<char>, b: Seq<char>|
                #![trigger list_at(g1.out, a), list_at(g1.back, b)]
                list_at(g1.out, a).contains(b) <==> list_at(g1.back, b).contains(a) by {
                lemma_linked_back(g0.back, ts, stem, b, a);
                assert(list_at(g0.out, a).contains(b) <==> list_at(g0.back, b).contains(a));
            }
        }
    }
}

/// The two directions agree: a file stands among those that link to another
/// exactly when it links to it.
pub proof fn law_back_mirrors_out(entries: Seq<StoreEntry>, a: Seq<char>, b: Seq<char>)
    requires
        distinct_stems(entries),
    ensures
        list_at(graph_of(entries, entries.len() as int).out, a).contains(b) <==> list_at(
            graph_of(entries, entries.len() as int).back,
            b,
        ).contains(a),
{
    lemma_mirror(entries, entries.len() as int);
}

/// Being linked is mutual: what is one hop from a file has that file one hop
/// from itself.
pub proof fn law_links_are_mutual(entries: Seq<StoreEntry>, a: Seq<char>, b: Seq<char>)
    requires
        distinct_stems(entries),
    ensures
        links_at(graph_of(entries, entries.len() as int), a).contains(b) <==> links_at(
            graph_of(entries, entries.len() as int),
            b,
        ).contains(a),
{
    let g = graph_of(entries, entries.len() as int);
    law_back_mirrors_out(entries, a, b);
    law_back_mirrors_out(entries, b, a);
    lemma_concat_contains(list_at(g.out, a), list_at(g.back, a), b);
    lemma_concat_contains(list_at(g.out, b), list_at(g.back, b), a);
}

proof fn lemma_concat_contains(s: Seq<Seq<char>>, t: Seq<Seq<char>>, x: Seq<char>)
    ensures
        (s + t).contains(x) <==> s.contains(x) || t.contains(x),
{
    let c = s + t;
    if c.contains(x) {
        let i = choose|i: int| 0 <= i < c.len() && c[i] == x;
        if i < s.len() {
            assert(s[i] == x);
        } else {
            assert(t[i - s.len()] == x);
        }
    }
    if s.contains(x) {
        let i = choose|i: int| 0 <= i < s.len() && s[i] == x;
        assert(c[i] == x);
    }
    if t.contains(x) {
        let i = choose|i: int| 0 <= i < t.len() && t[i] == x;
        assert(c[s.len() + i] == x);
    }
}

/// What is given out as linked: at most `limit` files, each a neighbour that is
/// not among the files themselves, with its own description, no file twice, and
/// the one with more links first.
pub proof fn law_linked_files_are_the_closest(
    g: GraphView,
    files: Seq<Seq<char>>,
    limit: nat,
)
    ensures
        ({
            let r = related(g, files, limit);
            let stems = seed_stems(files);
            &&& r.len() <= limit
            &&& forall|i: int|
                0 <= i < r.len() ==> is_neighbour(g, stems, (#[trigger] r[i]).0) && r[i].1
                    == g.descriptions[r[i].0]
            &&& forall|i: int, j: int|
                0 <= i < j < r.len() ==> (#[trigger] r[i]).0 != (#[trigger] r[j]).0 && times(
                    links_along(g, stems),
                    r[i].0,
                ) >= times(links_along(g, stems), r[j].0)
        }),
{
    let r = related(g, files, limit);
    let stems = seed_stems(files);
    let names = ranking(g, stems);
    law_ranked_by_links(g, stems);
    lemma_closer_orders(g, stems);
    assert forall|i: int| 0 <= i < r.len() implies is_neighbour(g, stems, (#[trigger] r[i]).0)
        && r[i].1 == g.descriptions[r[i].0] by {
        assert(r[i].0 == names[i]);
        assert(names.contains(names[i]));
        assert(all_neighbours(g, stems).contains(names[i]));
    }
    assert forall|i: int, j: int| 0 <= i < j < r.len() implies (#[trigger] r[i]).0 != (
    #[trigger] r[j]).0 && times(links_along(g, stems), r[i].0) >= times(
        links_along(g, stems),
        r[j].0,
    ) by {
        assert(r[i].0 == names[i]);
        assert(r[j].0 == names[j]);
        assert(closer(g, stems)(names[i], names[j]));
    }
}

/// The files of the store are those that can be named, whether or not they give
/// a description: the graph of some entries has a description for exactly their
/// files.
pub proof fn law_linked_files_exist(entries: Seq<StoreEntry>, n: int, stem: Seq<char>)
    requires
        0 <= n <= entries.len(),
    ensures
        graph_of(entries, n).descriptions.contains_key(stem) <==> exists|i: int|
            0 <= i < n && #[trigger] is_note(entries, i) && stem_of(name_at(entries, i)) == stem,
    decreases n,
{
    if n > 0 {
        law_linked_files_exist(entries, n - 1, stem);
        if graph_of(entries, n).descriptions.contains_key(stem) && !graph_of(
            entries,
            n - 1,
        ).descriptions.contains_key(stem) {
            assert(is_note(entries, n - 1));
        }
    }
}

/// How often something stands in two sequences together.
proof fn lemma_times_concat(a: Seq<Seq<char>>, b: Seq<Seq<char>>, x: Seq<char>)
    ensures
        times(a + b, x) == times(a, x) + times(b, x),
    decreases b.len(),
{
    if b.len() == 0 {
        assert(a + b =~= a);
    } else {
        lemma_times_concat(a, b.drop_last(), x);
        assert((a + b).drop_last() =~= a + b.drop_last());
        assert((a + b).last() == b.last());
    }
}

/// A seed more adds its own links, wherever it stands.
proof fn lemma_without_seed(g: GraphView, stems: Seq<Seq<char>>, j: int, x: Seq<char>)
    requires
        0 <= j < stems.len(),
    ensures
        times(links_along(g, stems), x) == times(links_along(g, stems.remove(j)), x) + times(
            links_at(g, stems[j]),
            x,
        ),
    decreases stems.len(),
{
    let less = stems.drop_last();
    lemma_times_concat(links_along(g, less), links_at(g, stems.last()), x);
    if j == stems.len() - 1 {
        assert(stems.remove(j) =~= less);
    } else {
        lemma_without_seed(g, less, j, x);
        let rest = stems.remove(j);
        assert(rest.drop_last() =~= less.remove(j));
        assert(rest.last() == stems.last());
        lemma_times_concat(links_along(g, rest.drop_last()), links_at(g, rest.last()), x);
    }
}

/// The same seeds in another order have the same links as often.
proof fn lemma_same_tally(g: GraphView, a: Seq<Seq<char>>, b: Seq<Seq<char>>, x: Seq<char>)
    requires
        a.to_multiset() == b.to_multiset(),
    ensures
        times(links_along(g, a), x) == times(links_along(g, b), x),
    decreases a.len(),
{
    a.to_multiset_ensures();
    b.to_multiset_ensures();
    assert(a.len() == b.len());
    if a.len() > 0 {
        let last = a.len() - 1;
        assert(a.contains(a[last]));
        assert(a.to_multiset().count(a[last]) > 0);
        assert(b.contains(a[last]));
        let j = choose|j: int| 0 <= j < b.len() && b[j] == a[last];
        lemma_without_seed(g, a, last, x);
        lemma_without_seed(g, b, j, x);
        assert(a.remove(last).to_multiset() =~= b.remove(j).to_multiset());
        lemma_same_tally(g, a.remove(last), b.remove(j), x);
    }
}

/// The ranking rests on the tally of the links alone.
proof fn lemma_ranking_by_tally(
    g: GraphView,
    a: Seq<Seq<char>>,
    h: GraphView,
    b: Seq<Seq<char>>,
)
    requires
        g.descriptions == h.descriptions,
        forall|x: Seq<char>| a.contains(x) <==> b.contains(x),
        forall|x: Seq<char>| #[trigger] times(links_along(g, a), x) == times(links_along(h, b), x),
    ensures
        ranking(g, a) == ranking(h, b),
{
    let p = links_along(g, a);
    let q = links_along(h, b);
    assert forall|x: Seq<char>| all_neighbours(g, a).contains(x) <==> all_neighbours(
        h,
        b,
    ).contains(x) by {
        lemma_times_bound(p, x);
        lemma_times_bound(q, x);
        assert(times(p, x) == times(q, x));
    }
    assert(all_neighbours(g, a) =~= all_neighbours(h, b));
    assert(closer(g, a) =~= closer(h, b));
}

/// In which order the files are given does not matter to what is linked with
/// them.
pub proof fn law_order_of_seeds_does_not_matter(
    g: GraphView,
    files: Seq<Seq<char>>,
    others: Seq<Seq<char>>,
    limit: nat,
)
    requires
        files.to_multiset() == others.to_multiset(),
    ensures
        related(g, files, limit) == related(g, others, limit),
{
    let a = seed_stems(files);
    let b = seed_stems(others);
    lemma_stems_of_same(files, others);
    a.to_multiset_ensures();
    b.to_multiset_ensures();
    assert forall|x: Seq<char>| a.contains(x) <==> b.contains(x) by {
        assert(a.to_multiset().count(x) == b.to_multiset().count(x));
    }
    assert forall|x: Seq<char>| #[trigger]
        times(links_along(g, a), x) == times(links_along(g, b), x) by {
        lemma_same_tally(g, a, b, x);
    }
    lemma_ranking_by_tally(g, a, g, b);
}

/// The same files in another order have the same stems in another order.
proof fn lemma_stems_of_same(a: Seq<Seq<char>>, b: Seq<Seq<char>>)
    requires
        a.to_multiset() == b.to_multiset(),
    ensures
        seed_stems(a).to_multiset() == seed_stems(b).to_multiset(),
    decreases a.len(),
{
    a.to_multiset_ensures();
    b.to_multiset_ensures();
    assert(a.len() == b.len());
    if a.len() == 0 {
        assert(seed_stems(a) =~= seed_stems(b));
    } else {
        let last = a.len() - 1;
        assert(a.contains(a[last]));
        assert(a.to_multiset().count(a[last]) > 0);
        assert(b.contains(a[last]));
        let j = choose|j: int| 0 <= j < b.len() && b[j] == a[last];
        assert(a.remove(last).to_multiset() =~= b.remove(j).to_multiset());
        lemma_stems_of_same(a.remove(last), b.remove(j));
        let s = seed_stems(a);
        let t = seed_stems(b);
        s.to_multiset_ensures();
        t.to_multiset_ensures();
        assert(seed_stems(a.remove(last)) =~= s.remove(last));
        assert(seed_stems(b.remove(j)) =~= t.remove(j));
        assert(s[last] == t[j]);
        assert(s.contains(s[last]) && t.contains(t[j]));
        assert(s.to_multiset().count(s[last]) > 0 && t.to_multiset().count(t[j]) > 0);
        assert(s.to_multiset() =~= s.to_multiset().remove(s[last]).insert(s[last]));
        assert(t.to_multiset() =~= t.to_multiset().remove(t[j]).insert(t[j]));
    }
}

/// The one name is the other, or the other with `.md` behind it.
pub open spec fn with_or_without(a: Seq<char>, b: Seq<char>) -> bool {
    a == b || a == b + ".md"@ || b == a + ".md"@
}

/// Whether a file is given with or without `.md` does not matter to what is
/// linked with it, of however many files it is changed.
pub proof fn law_suffix_of_seeds_does_not_matter(
    g: GraphView,
    files: Seq<Seq<char>>,
    others: Seq<Seq<char>>,
    limit: nat,
)
    requires
        files.len() == others.len(),
        forall|i: int|
            0 <= i < files.len() ==> with_or_without(#[trigger] files[i], others[i]),
    ensures
        related(g, files, limit) == related(g, others, limit),
{
    assert forall|i: int| 0 <= i < files.len() implies #[trigger] seed_stems(files)[i]
        == seed_stems(others)[i] by {
        assert(with_or_without(files[i], others[i]));
        lemma_suffix(files[i]);
        lemma_suffix(others[i]);
    }
    assert(seed_stems(files) =~= seed_stems(others));
}

/// One `.md` more is taken off with the others.
proof fn lemma_suffix(f: Seq<char>)
    ensures
        strip_suffixes(f + ".md"@, ".md"@) == strip_suffixes(f, ".md"@),
{
    let l = f + ".md"@;
    reveal_strlit(".md");
    assert(l.skip(l.len() - 3) =~= ".md"@);
    assert(l.take(l.len() - 3) =~= f);
    assert(l.subrange(l.len() - 3, l.len() as int) =~= ".md"@);
}

/// The graph with all its links turned round.
pub open spec fn turned(g: GraphView) -> GraphView {
    GraphView { descriptions: g.descriptions, out: g.back, back: g.out }
}

proof fn lemma_turned(g: GraphView, stems: Seq<Seq<char>>, x: Seq<char>)
    ensures
        times(links_along(turned(g), stems), x) == times(links_along(g, stems), x),
    decreases stems.len(),
{
    if stems.len() > 0 {
        let less = stems.drop_last();
        let s = stems.last();
        lemma_turned(g, less, x);
        lemma_times_concat(links_along(g, less), links_at(g, s), x);
        lemma_times_concat(links_along(turned(g), less), links_at(turned(g), s), x);
        lemma_times_concat(list_at(g.out, s), list_at(g.back, s), x);
        lemma_times_concat(list_at(g.back, s), list_at(g.out, s), x);
    }
}

/// Both directions count alike: turning all links round changes nothing of what
/// is linked with some files.
pub proof fn law_both_directions_count_alike(
    g: GraphView,
    files: Seq<Seq<char>>,
    limit: nat,
)
    ensures
        related(turned(g), files, limit) == related(g, files, limit),
{
    let stems = seed_stems(files);
    assert forall|x: Seq<char>| #[trigger]
        times(links_along(turned(g), stems), x) == times(links_along(g, stems), x) by {
        lemma_turned(g, stems, x);
    }
    lemma_ranking_by_tally(turned(g), stems, g, stems);
}

/// A hit leads to the links of its file: the file of a chunk is the stem of its
/// note with `.md` behind it, and as a seed it is that stem again. A stem that
/// itself ends in `.md` is left out of the second part, because a seed loses
/// every `.md` at its end.
pub proof fn law_hits_lead_to_their_notes(name: Seq<u8>)
    requires
        is_markdown(name),
        valid_utf8(stem_bytes(name)),
    ensures
        file_name(name) == stem_of(name) + ".md"@,
        !ends_with(stem_of(name), ".md"@) ==> seed_stems(seq![file_name(name)]) == seq![
            stem_of(name),
        ],
{
    let stem = stem_of(name);
    let l = stem + ".md"@;
    reveal_strlit(".md");
    is_ascii_chars_encode_utf8(".md"@);
    decode_utf8_encode_utf8(stem_bytes(name));
    lemma_encode_concat(stem, ".md"@);
    assert(name =~= stem_bytes(name) + name.skip(name.len() - 3));
    assert(name == encode_utf8(l));
    encode_utf8_valid_utf8(l);
    encode_utf8_decode_utf8(l);
    lemma_suffix(stem);
    if !ends_with(stem, ".md"@) {
        assert(seed_stems(seq![file_name(name)]) =~= seq![stem]);
    }
}

} // verus!
