//! The graph that the `[[wikilinks]]` between memories make.
//!
//! Whoever wrote a memory also wrote which others belong to it. Only names and
//! descriptions of neighbours are ever given out, never their texts.
use vstd::prelude::*;
use vstd::utf8::{decode_utf8, encode_utf8, is_ascii_chars_encode_utf8, valid_utf8};

use crate::order::{
    lemma_text_irreflexive, lemma_text_total, lemma_text_transitive, text_before, text_lt,
};
use crate::sort::{
    ints, is_sorting, lemma_sorting_exists, lemma_sorting_unique, rises, sort_positions, strict_order,
};
use crate::store::{
    decoded, has_markdown_name, is_markdown, name_at, raw_at, StoreEntry, Unreadable,
};
use crate::strmap::{as_map, is_key, lemma_entry, rising, StrMap};
use crate::text::{
    chars_of, find, find_in, head, lines, lines_of, occurs, string_of, strip, strip_prefix, strip_suffixes,
    tail, texts, trim, trimmed, unquote, unquoted, views, without_suffixes,
};

verus! {

/// The links between the memories of a store.
pub struct LinkGraph {
    /// For a file's stem, the description that its frontmatter gives, empty
    /// where it gives none.
    pub descriptions: StrMap<String>,
    /// For a file's stem, the stems that it links to.
    pub out: StrMap<Vec<String>>,
    /// For a stem, the stems of the files that link to it.
    pub back: StrMap<Vec<String>>,
}

/// What a graph holds.
#[verifier::ext_equal]
pub struct GraphView {
    pub descriptions: Map<Seq<char>, Seq<char>>,
    pub out: Map<Seq<char>, Seq<Seq<char>>>,
    pub back: Map<Seq<char>, Seq<Seq<char>>>,
}

impl View for LinkGraph {
    type V = GraphView;

    open spec fn view(&self) -> GraphView {
        GraphView {
            descriptions: self.descriptions@.map_values(|s: String| s@),
            out: self.out@.map_values(|v: Vec<String>| texts(v@)),
            back: self.back@.map_values(|v: Vec<String>| texts(v@)),
        }
    }
}

/// The graph without files.
pub open spec fn empty_graph() -> GraphView {
    GraphView { descriptions: Map::empty(), out: Map::empty(), back: Map::empty() }
}

/// The name without `.md`.
pub open spec fn stem_bytes(name: Seq<u8>) -> Seq<u8> {
    name.take(name.len() - 3)
}

/// The stem of a file's name, as text.
pub open spec fn stem_of(name: Seq<u8>) -> Seq<char> {
    decode_utf8(stem_bytes(name))
}

/// A file of the graph: a markdown file with a readable name, other than
/// `MEMORY.md`.
pub open spec fn is_note(entries: Seq<StoreEntry>, i: int) -> bool {
    &&& entries[i] is Found
    &&& is_markdown(name_at(entries, i))
    &&& valid_utf8(stem_bytes(name_at(entries, i)))
    &&& stem_of(name_at(entries, i)) != "MEMORY"@
}

/// What follows `description:` on the first line that begins with it, without
/// white space and quotation marks around it.
pub open spec fn first_description(ls: Seq<Seq<char>>) -> Option<Seq<char>>
    decreases ls.len(),
{
    if ls.len() == 0 {
        None
    } else {
        match strip_prefix(trim(ls[0]), "description:"@) {
            Some(d) => Some(unquote(trim(d))),
            None => first_description(ls.skip(1)),
        }
    }
}

/// The place of the next line `---`, from `i` on.
pub open spec fn next_rule(ls: Seq<Seq<char>>, i: int) -> Option<int>
    decreases ls.len() - i,
{
    if i >= ls.len() {
        None
    } else if ls[i] == "---"@ {
        Some(i)
    } else {
        next_rule(ls, i + 1)
    }
}

/// The lines of the frontmatter: those between a first line `---` and the next
/// such line with a line in front of it. How the lines end does not matter.
pub open spec fn front_lines(ls: Seq<Seq<char>>) -> Seq<Seq<char>> {
    if ls.len() > 0 && ls[0] == "---"@ {
        match next_rule(ls, 2) {
            Some(end) => ls.subrange(1, end),
            None => Seq::empty(),
        }
    } else {
        Seq::empty()
    }
}

/// The description of a file: that of its frontmatter, empty where it gives
/// none.
pub open spec fn description(raw: Seq<char>) -> Seq<char> {
    match first_description(front_lines(lines(raw))) {
        Some(d) => d,
        None => Seq::empty(),
    }
}

/// What stands between `[[` and the next `]]`, one link after the other.
pub open spec fn mentions(s: Seq<char>) -> Seq<Seq<char>>
    decreases s.len(),
{
    match find(s, "[["@) {
        Some(open) => if 0 <= open && open + 2 <= s.len() {
            let rest = s.skip(open + 2);
            match find(rest, "]]"@) {
                Some(close) => if 0 <= close && close + 2 <= rest.len() {
                    seq![trim(rest.take(close))] + mentions(rest.skip(close + 2))
                } else {
                    Seq::empty()
                },
                None => Seq::empty(),
            }
        } else {
            Seq::empty()
        },
        None => Seq::empty(),
    }
}

/// The mentions that count as links of the file `stem`: each once, none empty,
/// and none to the file itself.
pub open spec fn targets(ms: Seq<Seq<char>>, stem: Seq<char>) -> Seq<Seq<char>>
    decreases ms.len(),
{
    if ms.len() == 0 {
        Seq::empty()
    } else {
        let before = targets(ms.drop_last(), stem);
        let m = ms.last();
        if m.len() > 0 && m != stem && !before.contains(m) {
            before.push(m)
        } else {
            before
        }
    }
}

/// The list under a key, empty where there is none.
pub open spec fn list_at(m: Map<Seq<char>, Seq<Seq<char>>>, k: Seq<char>) -> Seq<Seq<char>> {
    if m.contains_key(k) {
        m[k]
    } else {
        Seq::empty()
    }
}

/// `back` with `stem` put under each of its targets.
pub open spec fn linked_back(
    back: Map<Seq<char>, Seq<Seq<char>>>,
    ts: Seq<Seq<char>>,
    stem: Seq<char>,
) -> Map<Seq<char>, Seq<Seq<char>>>
    decreases ts.len(),
{
    if ts.len() == 0 {
        back
    } else {
        let b = linked_back(back, ts.drop_last(), stem);
        b.insert(ts.last(), list_at(b, ts.last()).push(stem))
    }
}

/// The graph with one more file.
pub open spec fn with_file(g: GraphView, stem: Seq<char>, raw: Seq<char>) -> GraphView {
    let ts = targets(mentions(raw), stem);
    GraphView {
        descriptions: g.descriptions.insert(stem, description(raw)),
        out: g.out.insert(stem, ts),
        back: linked_back(g.back, ts, stem),
    }
}

/// The graph of the first `n` entries.
pub open spec fn graph_of(entries: Seq<StoreEntry>, n: int) -> GraphView
    decreases n,
{
    if n <= 0 {
        empty_graph()
    } else {
        let g = graph_of(entries, n - 1);
        if is_note(entries, n - 1) {
            with_file(g, stem_of(name_at(entries, n - 1)), raw_at(entries, n - 1).unwrap())
        } else {
            g
        }
    }
}

/// An entry that keeps the graph from being built: one that the listing lost,
/// or a file of the graph without a text.
pub open spec fn spoils(entries: Seq<StoreEntry>, i: int) -> bool {
    entries[i] is Lost || (is_note(entries, i) && raw_at(entries, i) is None)
}

/// Whether a line is `---`.
fn is_rule(line: &[char]) -> (r: bool)
    ensures
        r == (line@ == "---"@),
{
    let rule = chars_of("---");
    if line.len() != rule.len() {
        return false;
    }
    let r = occurs(line, &rule, 0);
    proof {
        assert(line@.subrange(0, line@.len() as int) =~= line@);
    }
    r
}

/// Where the frontmatter of some lines ends: its lines stand from the second up
/// to there.
fn front_end(ls: &Vec<&[char]>) -> (end: usize)
    ensures
        1 <= end,
        end <= ls@.len() || end == 1,
        front_lines(views(ls@)) == if end == 1 {
            Seq::empty()
        } else {
            views(ls@).subrange(1, end as int)
        },
{
    let n: usize = ls.len();
    let ghost lv = views(ls@);
    if n < 3 || !is_rule(ls[0]) {
        proof {
            if n > 0 {
                assert(lv[0] == ls@[0]@);
            }
            assert(next_rule(lv, 2) is Some ==> n >= 3);
        }
        return 1;
    }
    let mut i: usize = 2;
    while i < n
        invariant
            n == ls@.len(),
            2 <= i <= n,
            lv == views(ls@),
            lv[0] == "---"@,
            next_rule(lv, 2) == next_rule(lv, i as int),
        decreases n - i,
    {
        proof {
            assert(lv[i as int] == ls@[i as int]@);
        }
        if is_rule(ls[i]) {
            return i;
        }
        i = i + 1;
    }
    1
}

/// The description of a file with this text.
fn description_of(raw: &[char]) -> (r: String)
    ensures
        r@ == description(raw@),
{
    let key = chars_of("description:");
    let ls = lines_of(raw);
    let end = front_end(&ls);
    let ghost front = front_lines(lines(raw@));
    let mut i: usize = 1;
    proof {
        assert(front.skip(0) =~= front);
    }
    while i < end
        invariant
            1 <= i <= end,
            end <= ls@.len() || end == 1,
            key@ == "description:"@,
            front == front_lines(lines(raw@)),
            front.len() == end - 1,
            forall|k: int| 0 <= k < front.len() ==> #[trigger] front[k] == ls@[k + 1]@,
            first_description(front.skip(i - 1)) == first_description(front),
        decreases end - i,
    {
        proof {
            assert(front.skip(i - 1)[0] == ls@[i as int]@);
            assert(front.skip(i - 1).skip(1) =~= front.skip(i as int));
        }
        match strip(trimmed(ls[i]), &key) {
            Some(d) => {
                return string_of(unquoted(trimmed(d)));
            },
            None => {},
        }
        i = i + 1;
    }
    String::new()
}

/// Whether the list holds the string.
fn holds(list: &Vec<String>, s: &str) -> (r: bool)
    ensures
        r == texts(list@).contains(s@),
{
    let n: usize = list.len();
    let mut i: usize = 0;
    while i < n
        invariant
            n == list@.len(),
            i <= n,
            forall|k: int| 0 <= k < i ==> #[trigger] texts(list@)[k] != s@,
        decreases n - i,
    {
        proof {
            assert(texts(list@)[i as int] == list@[i as int]@);
        }
        if is_key(&list[i], s) {
            return true;
        }
        i = i + 1;
    }
    false
}

/// The links of the file `stem` with this text.
pub fn links_in(raw: &str, stem: &str) -> (out: Vec<String>)
    ensures
        texts(out@) == targets(mentions(raw@), stem@),
{
    let open = chars_of("[[");
    let close = chars_of("]]");
    proof {
        reveal_strlit("[[");
        reveal_strlit("]]");
    }
    let all = chars_of(raw);
    let mut out: Vec<String> = Vec::new();
    let mut rest: &[char] = all.as_slice();
    let ghost mut seen: Seq<Seq<char>> = Seq::empty();
    proof {
        assert(seen + mentions(rest@) =~= mentions(raw@));
        assert(texts(out@) =~= Seq::empty());
    }
    loop
        invariant
            open@ == "[["@,
            close@ == "]]"@,
            open@.len() == 2,
            close@.len() == 2,
            seen + mentions(rest@) == mentions(raw@),
            texts(out@) == targets(seen, stem@),
        decreases rest@.len(),
    {
        match find_in(rest, &open) {
            None => {
                proof {
                    assert(seen + mentions(rest@) =~= seen);
                }
                return out;
            },
            Some(i) => {
                let n: usize = rest.len();
                let inner = tail(rest, i + 2);
                match find_in(inner, &close) {
                    None => {
                        proof {
                            assert(seen + mentions(rest@) =~= seen);
                        }
                        return out;
                    },
                    Some(j) => {
                        let m: usize = inner.len();
                        let name = string_of(trimmed(head(inner, j)));
                        let next = tail(inner, j + 2);
                        proof {
                            assert(mentions(rest@) == seq![name@] + mentions(next@));
                            assert(seen.push(name@) + mentions(next@) =~= seen + (seq![name@]
                                + mentions(next@)));
                            assert(seen.push(name@).drop_last() =~= seen);
                            seen = seen.push(name@);
                        }
                        let ghost before = out@;
                        if !name.as_str().is_empty() && !is_key(&name, stem) && !holds(
                            &out,
                            name.as_str(),
                        ) {
                            out.push(name);
                            proof {
                                assert(texts(out@) =~= texts(before).push(seen.last()));
                            }
                        }
                        rest = next;
                    },
                }
            },
        }
    }
}

/// A copy of a list of strings.
fn copied(list: &Vec<String>) -> (out: Vec<String>)
    ensures
        texts(out@) == texts(list@),
{
    let n: usize = list.len();
    let mut out: Vec<String> = Vec::new();
    let mut i: usize = 0;
    while i < n
        invariant
            n == list@.len(),
            i <= n,
            texts(out@) == texts(list@).take(i as int),
        decreases n - i,
    {
        let ghost before = out@;
        out.push(list[i].as_str().to_owned());
        proof {
            assert(texts(out@) =~= texts(before).push(list@[i as int]@));
            assert(texts(list@).take(i + 1) =~= texts(list@).take(i as int).push(list@[i as int]@));
        }
        i = i + 1;
    }
    proof {
        assert(texts(list@).take(n as int) =~= texts(list@));
    }
    out
}

impl LinkGraph {
    /// The graph of a store, from its entries in the order of the listing. It
    /// is built if and only if no entry spoils it; the first that does is
    /// reported.
    pub fn build(entries: &Vec<StoreEntry>) -> (r: Result<LinkGraph, Unreadable>)
        ensures
            match r {
                Ok(g) => {
                    &&& g@ == graph_of(entries@, entries@.len() as int)
                    &&& forall|i: int| 0 <= i < entries@.len() ==> !#[trigger] spoils(entries@, i)
                },
                Err(u) => {
                    &&& u.entry < entries@.len()
                    &&& spoils(entries@, u.entry as int)
                    &&& forall|i: int| 0 <= i < u.entry ==> !#[trigger] spoils(entries@, i)
                },
            },
    {
        let mut g = LinkGraph {
            descriptions: StrMap::new(),
            out: StrMap::new(),
            back: StrMap::new(),
        };
        proof {
            assert(g@ =~= empty_graph());
        }
        let n: usize = entries.len();
        let mut i: usize = 0;
        while i < n
            invariant
                n == entries@.len(),
                i <= n,
                g@ == graph_of(entries@, i as int),
                forall|k: int| 0 <= k < i ==> !#[trigger] spoils(entries@, k),
            decreases n - i,
        {
            match &entries[i] {
                StoreEntry::Lost => {
                    proof {
                        assert(spoils(entries@, i as int));
                    }
                    return Err(Unreadable { entry: i });
                },
                StoreEntry::Found { name, raw } => match note_stem(name) {
                    None => {},
                    Some(stem) => match raw {
                        None => {
                            proof {
                                assert(spoils(entries@, i as int));
                            }
                            return Err(Unreadable { entry: i });
                        },
                        Some(text) => {
                            g.add_file(stem.as_str(), text.as_str());
                        },
                    },
                },
            }
            i = i + 1;
        }
        Ok(g)
    }

    /// Takes one more file into the graph.
    pub fn add_file(&mut self, stem: &str, raw: &str)
        ensures
            final(self)@ == with_file(old(self)@, stem@, raw@),
    {
        let ghost g = self@;
        let chars = chars_of(raw);
        let d = description_of(&chars);
        let ghost dv = d@;
        self.descriptions.insert(stem.to_owned(), d);
        proof {
            assert(self@.descriptions =~= g.descriptions.insert(stem@, dv));
        }
        let ts = links_in(raw, stem);
        let ghost tv = texts(ts@);
        let n: usize = ts.len();
        let mut i: usize = 0;
        let ghost descriptions = self@.descriptions;
        proof {
            assert(tv.take(0) =~= Seq::empty());
        }
        while i < n
            invariant
                n == ts@.len(),
                i <= n,
                tv == texts(ts@),
                self@.descriptions == descriptions,
                self@.out == g.out,
                self@.back == linked_back(g.back, tv.take(i as int), stem@),
            decreases n - i,
        {
            let ghost before = self@.back;
            let ghost t = ts@[i as int]@;
            let mut list = match self.back.remove(ts[i].as_str()) {
                Some(v) => v,
                None => Vec::new(),
            };
            proof {
                assert(texts(list@) =~= list_at(before, t));
            }
            let ghost had = list@;
            list.push(stem.to_owned());
            proof {
                assert(texts(list@) =~= texts(had).push(stem@));
            }
            let ghost now = texts(list@);
            self.back.insert(ts[i].as_str().to_owned(), list);
            proof {
                assert(self@.back =~= before.insert(t, now));
                assert(tv.take(i + 1).drop_last() =~= tv.take(i as int));
                assert(tv.take(i + 1).last() == t);
            }
            i = i + 1;
        }
        proof {
            assert(tv.take(n as int) =~= tv);
        }
        self.out.insert(stem.to_owned(), ts);
        proof {
            assert(self@.out =~= g.out.insert(stem@, tv));
            assert(self@ =~= with_file(g, stem@, raw@));
        }
    }
}

/// The stem of a file of the graph, for the name of one.
fn note_stem(name: &Vec<u8>) -> (r: Option<String>)
    ensures
        match r {
            Some(s) => is_markdown(name@) && valid_utf8(stem_bytes(name@)) && s@ == stem_of(name@)
                && s@ != "MEMORY"@,
            None => !(is_markdown(name@) && valid_utf8(stem_bytes(name@)) && stem_of(name@)
                != "MEMORY"@),
        },
{
    if !has_markdown_name(name) {
        return None;
    }
    proof {
        reveal_strlit(".md");
        is_ascii_chars_encode_utf8(".md"@);
        assert(encode_utf8(".md"@).len() == 3);
    }
    let n: usize = name.len();
    let bytes = vstd::slice::slice_subrange(name.as_slice(), 0, n - 3);
    proof {
        assert(bytes@ =~= stem_bytes(name@));
    }
    match decoded(bytes) {
        None => None,
        Some(s) => {
            if is_key(&s, "MEMORY") {
                None
            } else {
                Some(s)
            }
        },
    }
}

/// The stems of some file names.
pub open spec fn seed_stems(files: Seq<Seq<char>>) -> Seq<Seq<char>> {
    files.map_values(|f: Seq<char>| strip_suffixes(f, ".md"@))
}

/// The links of a file in both directions.
pub open spec fn links_at(g: GraphView, stem: Seq<char>) -> Seq<Seq<char>> {
    list_at(g.out, stem) + list_at(g.back, stem)
}

/// The links of some files, one file after the other.
pub open spec fn links_along(g: GraphView, stems: Seq<Seq<char>>) -> Seq<Seq<char>>
    decreases stems.len(),
{
    if stems.len() == 0 {
        Seq::empty()
    } else {
        links_along(g, stems.drop_last()) + links_at(g, stems.last())
    }
}

/// How often `x` stands in `s`.
pub open spec fn times(s: Seq<Seq<char>>, x: Seq<char>) -> nat
    decreases s.len(),
{
    if s.len() == 0 {
        0
    } else {
        times(s.drop_last(), x) + if s.last() == x {
            1nat
        } else {
            0nat
        }
    }
}

/// A file that the seeds are linked with, that is in the store, and that is
/// not a seed itself. What is in the store has a description, which may be
/// empty.
pub open spec fn is_neighbour(g: GraphView, stems: Seq<Seq<char>>, n: Seq<char>) -> bool {
    &&& links_along(g, stems).contains(n)
    &&& !stems.contains(n)
    &&& g.descriptions.contains_key(n)
}

/// The neighbours of the seeds.
pub open spec fn all_neighbours(g: GraphView, stems: Seq<Seq<char>>) -> Set<Seq<char>> {
    Set::new(|n: Seq<char>| is_neighbour(g, stems, n))
}

/// The neighbour with more links comes first, and of two with as many the one
/// with the smaller name.
pub open spec fn closer(g: GraphView, stems: Seq<Seq<char>>) -> spec_fn(
    Seq<char>,
    Seq<char>,
) -> bool {
    let all = links_along(g, stems);
    |a: Seq<char>, b: Seq<char>|
        times(all, a) > times(all, b) || (times(all, a) == times(all, b) && text_lt(a, b))
}

/// The neighbours of the seeds, the closest first.
pub open spec fn ranking(g: GraphView, stems: Seq<Seq<char>>) -> Seq<Seq<char>> {
    choose|o: Seq<Seq<char>>| is_sorting(o, all_neighbours(g, stems), closer(g, stems))
}

/// What is given out of a ranking: the first `limit` names, each with its
/// description.
pub open spec fn introduced(g: GraphView, names: Seq<Seq<char>>, limit: nat) -> Seq<
    (Seq<char>, Seq<char>),
> {
    let shown = if limit < names.len() {
        names.take(limit as int)
    } else {
        names
    };
    shown.map_values(|n: Seq<char>| (n, g.descriptions[n]))
}

/// The closest neighbours of some files, each with its description.
pub open spec fn related(g: GraphView, files: Seq<Seq<char>>, limit: nat) -> Seq<
    (Seq<char>, Seq<char>),
> {
    introduced(g, ranking(g, seed_stems(files)), limit)
}

/// What a list of names with their descriptions holds.
pub open spec fn pair_views(v: Seq<(String, String)>) -> Seq<(Seq<char>, Seq<char>)> {
    v.map_values(|p: (String, String)| (p.0@, p.1@))
}

/// Closeness orders all names.
pub proof fn lemma_closer_orders(g: GraphView, stems: Seq<Seq<char>>)
    ensures
        strict_order(closer(g, stems)),
{
    let lt = closer(g, stems);
    assert forall|a: Seq<char>| !#[trigger] lt(a, a) by {
        lemma_text_irreflexive(a);
    }
    assert forall|a: Seq<char>, b: Seq<char>, c: Seq<char>| #[trigger]
        lt(a, b) && #[trigger] lt(b, c) implies lt(a, c) by {
        if text_lt(a, b) && text_lt(b, c) {
            lemma_text_transitive(a, b, c);
        }
    }
    assert forall|a: Seq<char>, b: Seq<char>| a == b || #[trigger] lt(a, b) || lt(b, a) by {
        lemma_text_total(a, b);
    }
}

/// The ranking puts the neighbours in the order of their links and then of
/// their names, and no other order does: it rests on the graph and the seeds
/// alone.
pub proof fn law_ranked_by_links(g: GraphView, stems: Seq<Seq<char>>)
    ensures
        is_sorting(ranking(g, stems), all_neighbours(g, stems), closer(g, stems)),
        forall|order: Seq<Seq<char>>| #[trigger]
            is_sorting(order, all_neighbours(g, stems), closer(g, stems)) ==> order == ranking(
                g,
                stems,
            ),
{
    let all = all_neighbours(g, stems);
    let lt = closer(g, stems);
    lemma_closer_orders(g, stems);
    let o = lemma_sorting_exists(links_along(g, stems), all, lt);
    assert(is_sorting(o, all, lt));
    assert forall|order: Seq<Seq<char>>| #[trigger]
        is_sorting(order, all, lt) implies order == ranking(g, stems) by {
        lemma_sorting_unique(ranking(g, stems), order, all, lt);
    }
}

/// How often something can stand in a sequence.
pub proof fn lemma_times_bound(s: Seq<Seq<char>>, x: Seq<char>)
    ensures
        times(s, x) <= s.len(),
        times(s, x) > 0 <==> s.contains(x),
    decreases s.len(),
{
    if s.len() > 0 {
        lemma_times_bound(s.drop_last(), x);
        if s.last() == x {
            assert(s.contains(s.last()));
        }
        if s.drop_last().contains(x) {
            let i = choose|i: int| 0 <= i < s.drop_last().len() && s.drop_last()[i] == x;
            assert(s[i] == x);
        }
        if s.contains(x) && s.last() != x {
            let i = choose|i: int| 0 <= i < s.len() && s[i] == x;
            assert(s.drop_last()[i] == x);
        }
    }
}

/// Puts copies of the strings of a list, if there is one, behind `out`.
fn append_copies(out: &mut Vec<String>, list: Option<&Vec<String>>)
    ensures
        texts(final(out)@) == texts(old(out)@) + (match list {
            Some(v) => texts(v@),
            None => Seq::empty(),
        }),
{
    match list {
        Some(v) => {
            let mut more = copied(v);
            let ghost added = more@;
            out.append(&mut more);
            proof {
                assert(texts(out@) =~= texts(old(out)@) + texts(added));
            }
        },
        None => {
            proof {
                assert(texts(out@) =~= texts(old(out)@) + Seq::<Seq<char>>::empty());
            }
        },
    }
}

impl LinkGraph {
    /// The links of some files, one file after the other.
    fn gather(&self, stems: &Vec<String>) -> (all: Vec<String>)
        ensures
            texts(all@) == links_along(self@, texts(stems@)),
    {
        let n: usize = stems.len();
        let ghost sv = texts(stems@);
        let mut all: Vec<String> = Vec::new();
        let mut i: usize = 0;
        proof {
            assert(texts(all@) =~= Seq::empty());
            assert(sv.take(0) =~= Seq::empty());
        }
        while i < n
            invariant
                n == stems@.len(),
                i <= n,
                sv == texts(stems@),
                texts(all@) == links_along(self@, sv.take(i as int)),
            decreases n - i,
        {
            let ghost before = texts(all@);
            let ghost stem = stems@[i as int]@;
            append_copies(&mut all, self.out.get(stems[i].as_str()));
            append_copies(&mut all, self.back.get(stems[i].as_str()));
            proof {
                assert(texts(all@) =~= before + links_at(self@, stem));
                assert(sv.take(i + 1).drop_last() =~= sv.take(i as int));
                assert(sv.take(i + 1).last() == stem);
            }
            i = i + 1;
        }
        proof {
            assert(sv.take(n as int) =~= sv);
        }
        all
    }

    /// The neighbours among `all` links, each with the number of its links.
    fn tally(&self, stems: &Vec<String>, all: &Vec<String>) -> (hits: StrMap<usize>)
        ensures
            forall|n: Seq<char>|
                #![trigger hits@.contains_key(n)]
                hits@.contains_key(n) <==> texts(all@).contains(n) && !texts(stems@).contains(n)
                    && self@.descriptions.contains_key(n),
            forall|n: Seq<char>|
                #![trigger hits@[n]]
                hits@.contains_key(n) ==> hits@[n] == times(texts(all@), n),
    {
        let mut hits: StrMap<usize> = StrMap::new();
        let ghost av = texts(all@);
        let len: usize = all.len();
        let mut i: usize = 0;
        while i < len
            invariant
                len == all@.len(),
                i <= len,
                av == texts(all@),
                forall|n: Seq<char>|
                    #![trigger hits@.contains_key(n)]
                    hits@.contains_key(n) <==> av.take(i as int).contains(n) && !texts(
                        stems@,
                    ).contains(n) && self@.descriptions.contains_key(n),
                forall|n: Seq<char>|
                    #![trigger hits@[n]]
                    hits@.contains_key(n) ==> hits@[n] == times(av.take(i as int), n),
            decreases len - i,
        {
            let name = all[i].as_str();
            let ghost x = name@;
            let ghost t0 = av.take(i as int);
            let ghost t1 = av.take(i + 1);
            let ghost before = hits@;
            proof {
                assert(t1 =~= t0.push(x));
                assert(t1.drop_last() =~= t0);
                lemma_times_bound(t0, x);
            }
            if !holds(stems, name) && self.descriptions.contains_key(name) {
                let count: usize = match hits.get(name) {
                    Some(c) => *c,
                    None => 0,
                };
                hits.insert(name.to_owned(), count + 1);
            }
            proof {
                assert forall|n: Seq<char>| #[trigger] t1.contains(n) <==> t0.contains(n) || n
                    == x by {
                    if t0.contains(n) {
                        let k = choose|k: int| 0 <= k < t0.len() && t0[k] == n;
                        assert(t1[k] == n);
                    }
                    if n == x {
                        assert(t1[i as int] == n);
                    }
                }
                assert forall|n: Seq<char>| n != x implies #[trigger] times(t1, n) == times(
                    t0,
                    n,
                ) by {}
                assert(times(t1, x) == times(t0, x) + 1);
            }
            i = i + 1;
        }
        proof {
            assert(av.take(len as int) =~= av);
        }
        hits
    }

    /// One hop out from the files that matched, in both directions: the
    /// neighbours with their descriptions, the closest first, at most `limit`.
    pub fn neighbours(&self, seeds: &[String], limit: usize) -> (r: Vec<(String, String)>)
        ensures
            pair_views(r@) == related(self@, texts(seeds@), limit as nat),
    {
        let stems = stems_of(seeds);
        let all = self.gather(&stems);
        let hits = self.tally(&stems, &all);
        let entries = hits.entries();
        let ghost g = self@;
        let ghost sv = seed_stems(texts(seeds@));
        let ghost es = entries@;
        let n: usize = entries.len();
        let mut ids: Vec<usize> = Vec::new();
        let mut i: usize = 0;
        while i < n
            invariant
                n == entries@.len(),
                i <= n,
                ids@.len() == i,
                forall|k: int| 0 <= k < i ==> #[trigger] ids@[k] == k,
            decreases n - i,
        {
            ids.push(i);
            i = i + 1;
        }
        let ghost lt = |a: int, b: int|
            closer(g, sv)(es[a].0@, es[b].0@) || (es[a].0@ == es[b].0@ && a < b);
        proof {
            lemma_closer_orders(g, sv);
            lemma_lifted(closer(g, sv), |a: int| es[a].0@, lt);
            assert forall|k: int| 0 <= k < n implies (#[trigger] es[k]).1 == times(
                links_along(g, sv),
                es[k].0@,
            ) && is_neighbour(g, sv, es[k].0@) by {
                lemma_entry(es, k);
            }
        }
        let before = |a: usize, b: usize| -> (r: bool)
            requires
                a < entries@.len(),
                b < entries@.len(),
            ensures
                r == by_tally(entries@, a as int, b as int),
            {
                entries[a].1 > entries[b].1 || (entries[a].1 == entries[b].1 && (text_before(
                    entries[a].0.as_str(),
                    entries[b].0.as_str(),
                ) || (is_key(&entries[a].0, entries[b].0.as_str()) && a < b)))
            };
        proof {
            assert forall|a: usize| ids@.contains(a) implies a < n by {
                let k = choose|k: int| 0 <= k < ids@.len() && ids@[k] == a;
            }
            assert forall|a: int, b: int| 0 <= a < n && 0 <= b < n implies #[trigger] by_tally(
                es,
                a,
                b,
            ) == lt(a, b) by {
                assert(es[a].1 == times(links_along(g, sv), es[a].0@));
                assert(es[b].1 == times(links_along(g, sv), es[b].0@));
            }
        }
        let order = sort_positions(&ids, before, Ghost(lt));
        let ghost names = ints(order@).map_values(|k: int| es[k].0@);
        proof {
            assert forall|k: int| 0 <= k < order@.len() implies #[trigger] order@[k] < n by {
                assert(order@.contains(order@[k]));
            }
            assert forall|k: int| 0 <= k < es.len() implies #[trigger] order@.contains(
                k as usize,
            ) by {
                assert(ids@[k] == k as usize);
                assert(ids@.contains(k as usize));
            }
            lemma_names_sorted(g, sv, es, order@, names, lt);
            law_ranked_by_links(g, sv);
        }
        let m: usize = if limit < order.len() {
            limit
        } else {
            order.len()
        };
        let mut r: Vec<(String, String)> = Vec::new();
        let ghost want = introduced(g, names, limit as nat);
        let mut k: usize = 0;
        while k < m
            invariant
                m <= order@.len(),
                k <= m,
                es == entries@,
                g == self@,
                names == ints(order@).map_values(|k: int| es[k].0@),
                forall|k: int| 0 <= k < order@.len() ==> #[trigger] order@[k] < es.len(),
                forall|k: int|
                    0 <= k < es.len() ==> is_neighbour(g, sv, (#[trigger] es[k]).0@),
                want == names.take(m as int).map_values(|n: Seq<char>| (n, g.descriptions[n])),
                pair_views(r@) == want.take(k as int),
            decreases m - k,
        {
            let at: usize = order[k];
            let name = entries[at].0.as_str();
            proof {
                assert(is_neighbour(g, sv, es[at as int].0@));
                assert(self.descriptions@.contains_key(name@));
            }
            let description = match self.descriptions.get(name) {
                Some(d) => d.as_str().to_owned(),
                None => String::new(),
            };
            let ghost had = r@;
            r.push((name.to_owned(), description));
            proof {
                assert(want[k as int] == (name@, description@));
                assert(pair_views(r@) =~= pair_views(had).push((name@, description@)));
                assert(want.take(k + 1) =~= want.take(k as int).push(want[k as int]));
            }
            k = k + 1;
        }
        proof {
            assert(want.take(m as int) =~= want);
        }
        r
    }
}

/// The entry at `a` comes before that at `b`: it has the higher count, or the
/// smaller name.
spec fn by_tally(es: Seq<(String, usize)>, a: int, b: int) -> bool {
    es[a].1 > es[b].1 || (es[a].1 == es[b].1 && (text_lt(es[a].0@, es[b].0@) || (es[a].0@
        == es[b].0@ && a < b)))
}

/// The stems of some file names.
fn stems_of(seeds: &[String]) -> (out: Vec<String>)
    ensures
        texts(out@) == seed_stems(texts(seeds@)),
{
    let suffix = chars_of(".md");
    proof {
        reveal_strlit(".md");
    }
    let n: usize = seeds.len();
    let mut out: Vec<String> = Vec::new();
    let mut i: usize = 0;
    while i < n
        invariant
            n == seeds@.len(),
            i <= n,
            suffix@ == ".md"@,
            suffix@.len() == 3,
            texts(out@) == seed_stems(texts(seeds@)).take(i as int),
        decreases n - i,
    {
        let name = chars_of(seeds[i].as_str());
        let stem = string_of(without_suffixes(&name, &suffix));
        let ghost before = out@;
        let ghost sv = stem@;
        out.push(stem);
        proof {
            assert(texts(out@) =~= texts(before).push(sv));
            let all = seed_stems(texts(seeds@));
            assert(all.take(i + 1) =~= all.take(i as int).push(sv));
        }
        i = i + 1;
    }
    proof {
        assert(seed_stems(texts(seeds@)).take(n as int) =~= seed_stems(texts(seeds@)));
    }
    out
}

/// An order of what stands at places orders the places, when equal ones go by
/// their place.
proof fn lemma_lifted<A>(
    lt: spec_fn(A, A) -> bool,
    at: spec_fn(int) -> A,
    lifted: spec_fn(int, int) -> bool,
)
    requires
        strict_order(lt),
        forall|a: int, b: int|
            #[trigger] lifted(a, b) == (lt(at(a), at(b)) || (at(a) == at(b) && a < b)),
    ensures
        strict_order(lifted),
{
    assert forall|a: int, b: int, c: int| #[trigger] lifted(a, b) && #[trigger] lifted(
        b,
        c,
    ) implies lifted(a, c) by {
        if lt(at(a), at(b)) && lt(at(b), at(c)) {
            assert(lt(at(a), at(c)));
        }
    }
    assert forall|a: int| !#[trigger] lifted(a, a) by {
        assert(!lt(at(a), at(a)));
    }
    assert forall|a: int, b: int| a == b || #[trigger] lifted(a, b) || lifted(b, a) by {
        assert(at(a) == at(b) || lt(at(a), at(b)) || lt(at(b), at(a)));
    }
}

/// The sorted places give the names in the order of closeness.
proof fn lemma_names_sorted(
    g: GraphView,
    sv: Seq<Seq<char>>,
    es: Seq<(String, usize)>,
    order: Seq<usize>,
    names: Seq<Seq<char>>,
    lt: spec_fn(int, int) -> bool,
)
    requires
        rising(es),
        lt == (|a: int, b: int|
            closer(g, sv)(es[a].0@, es[b].0@) || (es[a].0@ == es[b].0@ && a < b)),
        forall|n: Seq<char>|
            #![trigger as_map(es).contains_key(n)]
            as_map(es).contains_key(n) <==> is_neighbour(g, sv, n),
        names == ints(order).map_values(|k: int| es[k].0@),
        rises(ints(order), lt),
        forall|k: int| 0 <= k < order.len() ==> #[trigger] order[k] < es.len(),
        forall|k: int| 0 <= k < es.len() ==> #[trigger] order.contains(k as usize),
        es.len() <= usize::MAX,
    ensures
        is_sorting(names, all_neighbours(g, sv), closer(g, sv)),
{
    let c = closer(g, sv);
    assert forall|i: int, j: int| 0 <= i < j < names.len() implies c(
        #[trigger] names[i],
        #[trigger] names[j],
    ) by {
        let a = order[i] as int;
        let b = order[j] as int;
        assert(ints(order)[i] == a && ints(order)[j] == b);
        assert(lt(ints(order)[i], ints(order)[j]));
        lemma_text_irreflexive(es[a].0@);
        if a < b {
            assert(text_lt(es[a].0@, es[b].0@));
        } else if b < a {
            assert(text_lt(es[b].0@, es[a].0@));
        }
    }
    assert forall|n: Seq<char>| names.contains(n) <==> all_neighbours(g, sv).contains(n) by {
        if names.contains(n) {
            let i = choose|i: int| 0 <= i < names.len() && names[i] == n;
            assert(order[i] < es.len());
            lemma_entry(es, order[i] as int);
        }
        if is_neighbour(g, sv, n) {
            assert(as_map(es).contains_key(n));
            let k = choose|k: int| 0 <= k < es.len() && (#[trigger] es[k]).0@ == n;
            assert(order.contains(k as usize));
            let i = choose|i: int| 0 <= i < order.len() && order[i] == k as usize;
            assert(names[i] == n);
        }
    }
}

} // verus!
