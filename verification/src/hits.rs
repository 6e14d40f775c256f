//! Which of the chunks that were found are given out, and how they are shown.
//!
//! A prompt that nobody searched for spends a budget nobody asked for, so it is
//! answered only when it stands out against the store, and with good hits
//! alone. Whoever searches on purpose gets what there is.
use vstd::prelude::*;
use vstd::string::StringExecFns;

use crate::chunk::{body_of, without_context, Chunk};
use crate::links::{pair_views, related, GraphView, LinkGraph};
use crate::search::{at_most, below, does_reach, hit_views, is_below, reaches, Hit};
use crate::strmap::is_key;
use crate::text::texts;

verus! {

/// The bits of 0.53. A hit with a lower score is noise.
pub const MIN_SCORE: u32 = 0x3f07_ae14;

/// The bits of 0.13: how far the best score has to stand above the middle one.
/// Text that is merely text is near everything at once.
pub const MIN_MARGIN: u32 = 0x3e05_1eb8;

/// How many files a prompt is answered with.
pub const DEFAULT_K: usize = 3;

/// How many chunks are looked at for distinct files, at least.
pub const POOL: usize = 40;

/// How many linked files are named.
pub const RELATED_LIMIT: usize = 5;

/// How many chunks a search on purpose gives where it does not say.
pub const TOOL_K: usize = 5;

/// How many chunks a search on purpose gives at most.
pub const TOOL_MAX: usize = 20;

/// How many files a bench row names.
pub const BENCH_FILES: usize = 5;

/// The files of some hits.
pub open spec fn files_of(hits: Seq<Hit>) -> Seq<Seq<char>> {
    hits.map_values(|h: Hit| h.chunk.file)
}

/// The hits that are the first of their file.
pub open spec fn leaders(hits: Seq<Hit>) -> Seq<Hit>
    decreases hits.len(),
{
    if hits.len() == 0 {
        Seq::empty()
    } else {
        let before = leaders(hits.drop_last());
        if files_of(before).contains(hits.last().chunk.file) {
            before
        } else {
            before.push(hits.last())
        }
    }
}

/// The hits before the first one below `floor`.
pub open spec fn until_below(hits: Seq<Hit>, floor: u32) -> Seq<Hit>
    decreases hits.len(),
{
    if hits.len() == 0 {
        Seq::empty()
    } else {
        let before = until_below(hits.drop_last(), floor);
        if before.len() == hits.len() - 1 && !below(hits.last().score, floor) {
            hits
        } else {
            before
        }
    }
}

/// The hits that a prompt is answered with. `margin` is how far the best score
/// stands above the middle one.
pub open spec fn gated(hits: Seq<Hit>, margin: u32, k: nat) -> Seq<Hit> {
    if hits.len() > 0 && reaches(margin, MIN_MARGIN) {
        at_most(leaders(until_below(hits, MIN_SCORE)), k)
    } else {
        Seq::empty()
    }
}

/// A heading as it is shown.
pub open spec fn topic(heading: Seq<char>) -> Seq<char> {
    if heading.len() == 0 {
        "(top)"@
    } else {
        heading
    }
}

/// A hit as it is shown, with its score in print.
pub open spec fn entry_text(h: Hit, shown: Seq<char>) -> Seq<char> {
    "### "@ + h.chunk.file + " — "@ + topic(h.chunk.heading) + " (score "@ + shown + ")\n"@
        + body_of(h.chunk.text)
}

/// Hits as they are shown, each with an empty line behind it.
pub open spec fn entries_text(hits: Seq<Hit>, shown: Seq<Seq<char>>) -> Seq<char>
    decreases hits.len(),
{
    if hits.len() == 0 {
        Seq::empty()
    } else {
        entries_text(hits.drop_last(), shown) + entry_text(hits.last(), shown[hits.len() - 1])
            + "\n\n"@
    }
}

/// Hits as they are shown, with an empty line between them.
pub open spec fn entries_joined(hits: Seq<Hit>, shown: Seq<Seq<char>>) -> Seq<char>
    decreases hits.len(),
{
    if hits.len() == 0 {
        Seq::empty()
    } else if hits.len() == 1 {
        entry_text(hits[0], shown[0])
    } else {
        entries_joined(hits.drop_last(), shown) + "\n\n"@ + entry_text(
            hits.last(),
            shown[hits.len() - 1],
        )
    }
}

/// Linked files as they are shown, one to a line.
pub open spec fn related_lines(pairs: Seq<(Seq<char>, Seq<char>)>) -> Seq<char>
    decreases pairs.len(),
{
    if pairs.len() == 0 {
        Seq::empty()
    } else {
        related_lines(pairs.drop_last()) + "- `"@ + pairs.last().0 + "` — "@ + pairs.last().1
            + "\n"@
    }
}

/// Linked files under their heading.
pub open spec fn related_text(pairs: Seq<(Seq<char>, Seq<char>)>) -> Seq<char> {
    "### Linked from the above (names only — read if relevant)\n"@ + related_lines(pairs)
}

/// The answer to a prompt.
pub open spec fn prompt_text(
    hits: Seq<Hit>,
    shown: Seq<Seq<char>>,
    pairs: Seq<(Seq<char>, Seq<char>)>,
) -> Seq<char> {
    if pairs.len() == 0 {
        entries_text(hits, shown)
    } else {
        entries_text(hits, shown) + related_text(pairs) + "\n"@
    }
}

/// The answer to a search on purpose.
pub open spec fn tool_text(
    hits: Seq<Hit>,
    shown: Seq<Seq<char>>,
    pairs: Seq<(Seq<char>, Seq<char>)>,
) -> Seq<char> {
    if pairs.len() == 0 {
        entries_joined(hits, shown)
    } else {
        entries_joined(hits, shown) + "\n\n"@ + related_text(pairs)
    }
}

/// What a prompt is answered with: its hits, and the files that those are
/// linked with.
pub open spec fn prompt_reply(g: GraphView, hits: Seq<Hit>, shown: Seq<Seq<char>>) -> Seq<char> {
    prompt_text(hits, shown, related(g, files_of(hits), RELATED_LIMIT as nat))
}

/// What a search on purpose is answered with: its hits, and the files that
/// those are linked with, each file counted once.
pub open spec fn tool_reply(g: GraphView, hits: Seq<Hit>, shown: Seq<Seq<char>>) -> Seq<char> {
    tool_text(hits, shown, related(g, files_of(leaders(hits)), RELATED_LIMIT as nat))
}

/// How many chunks are looked at for `k` files.
pub open spec fn pool_size(k: usize) -> usize {
    if k <= POOL {
        POOL
    } else {
        k
    }
}

/// How many chunks a search on purpose gives.
pub open spec fn tool_count(k: Option<usize>) -> usize {
    match k {
        Some(asked) => if asked <= TOOL_MAX {
            asked
        } else {
            TOOL_MAX
        },
        None => TOOL_K,
    }
}

/// How many chunks are looked at for `k` files.
pub fn pool(k: usize) -> (n: usize)
    ensures
        n == pool_size(k),
{
    if k <= POOL {
        POOL
    } else {
        k
    }
}

/// How many chunks a search on purpose gives.
pub fn tool_k(k: Option<usize>) -> (n: usize)
    ensures
        n == tool_count(k),
{
    match k {
        Some(asked) => if asked <= TOOL_MAX {
            asked
        } else {
            TOOL_MAX
        },
        None => TOOL_K,
    }
}

/// Whether one of the hits is of this file.
fn has_file(hits: &Vec<(u32, &Chunk)>, file: &str) -> (r: bool)
    ensures
        r == files_of(hit_views(hits@)).contains(file@),
{
    let n: usize = hits.len();
    let ghost files = files_of(hit_views(hits@));
    let mut i: usize = 0;
    while i < n
        invariant
            n == hits@.len(),
            i <= n,
            files == files_of(hit_views(hits@)),
            forall|j: int| 0 <= j < i ==> #[trigger] files[j] != file@,
        decreases n - i,
    {
        proof {
            assert(files[i as int] == hits@[i as int].1.file@);
        }
        if is_key(&hits[i].1.file, file) {
            proof {
                assert(files.contains(file@));
            }
            return true;
        }
        i = i + 1;
    }
    proof {
        if files.contains(file@) {
            let j = choose|j: int| 0 <= j < files.len() && files[j] == file@;
            assert(files[j] != file@);
        }
    }
    false
}

/// The first hits of a part come first.
pub proof fn lemma_leaders_grow(hits: Seq<Hit>, i: int)
    requires
        0 <= i <= hits.len(),
    ensures
        leaders(hits.take(i)).len() <= leaders(hits).len(),
        leaders(hits).take(leaders(hits.take(i)).len() as int) == leaders(hits.take(i)),
    decreases hits.len(),
{
    let few = leaders(hits.take(i));
    if i == hits.len() {
        assert(hits.take(i) =~= hits);
        assert(few.take(few.len() as int) =~= few);
    } else {
        let less = hits.drop_last();
        lemma_leaders_grow(less, i);
        assert(less.take(i) =~= hits.take(i));
        let before = leaders(less);
        if leaders(hits) != before {
            assert(leaders(hits).take(few.len() as int) =~= before.take(few.len() as int));
        }
    }
}

/// The best hit of each file, for at most `k` files, in the order of the hits.
pub fn best_per_file<'a>(hits: &Vec<(u32, &'a Chunk)>, k: usize) -> (out: Vec<(u32, &'a Chunk)>)
    ensures
        hit_views(out@) == at_most(leaders(hit_views(hits@)), k as nat),
{
    let n: usize = hits.len();
    let ghost hv = hit_views(hits@);
    let mut out: Vec<(u32, &'a Chunk)> = Vec::new();
    let mut i: usize = 0;
    proof {
        assert(hit_views(out@) =~= leaders(hv.take(0)));
    }
    while i < n && out.len() < k
        invariant
            n == hits@.len(),
            i <= n,
            hv == hit_views(hits@),
            out@.len() <= k,
            hit_views(out@) == leaders(hv.take(i as int)),
        decreases n - i,
    {
        proof {
            assert(hv.take(i + 1).drop_last() =~= hv.take(i as int));
            assert(hv.take(i + 1).last() == hv[i as int]);
        }
        let h = hits[i];
        let ghost had = out@;
        if !has_file(&out, h.1.file.as_str()) {
            out.push(h);
            proof {
                assert(hit_views(out@) =~= hit_views(had).push(hv[i as int]));
            }
        }
        i = i + 1;
    }
    proof {
        lemma_leaders_grow(hv, i as int);
        assert(hit_views(out@).len() == out@.len());
        if i == n {
            assert(hv.take(i as int) =~= hv);
            let all = leaders(hv);
            assert(all.take(all.len() as int) =~= all);
        }
    }
    out
}

/// Once a hit is below, nothing behind it counts.
proof fn lemma_until_below(hits: Seq<Hit>, floor: u32, i: int)
    requires
        0 <= i < hits.len(),
        until_below(hits.take(i), floor) == hits.take(i),
        below(hits[i].score, floor),
    ensures
        until_below(hits, floor) == hits.take(i),
    decreases hits.len(),
{
    let less = hits.drop_last();
    if i == hits.len() - 1 {
        assert(less =~= hits.take(i));
    } else {
        assert(less.take(i) =~= hits.take(i));
        lemma_until_below(less, floor, i);
    }
}

/// The hits before the first one below `floor`.
fn above<'a>(hits: &Vec<(u32, &'a Chunk)>, floor: u32) -> (out: Vec<(u32, &'a Chunk)>)
    ensures
        hit_views(out@) == until_below(hit_views(hits@), floor),
{
    let n: usize = hits.len();
    let ghost hv = hit_views(hits@);
    let mut out: Vec<(u32, &'a Chunk)> = Vec::new();
    let mut i: usize = 0;
    proof {
        assert(hit_views(out@) =~= hv.take(0));
        assert(until_below(hv.take(0), floor) =~= hv.take(0));
    }
    while i < n
        invariant
            n == hits@.len(),
            i <= n,
            hv == hit_views(hits@),
            hit_views(out@) == hv.take(i as int),
            until_below(hv.take(i as int), floor) == hv.take(i as int),
        decreases n - i,
    {
        let h = hits[i];
        proof {
            assert(hv[i as int] == (Hit { score: h.0, chunk: h.1@ }));
        }
        if is_below(h.0, floor) {
            proof {
                lemma_until_below(hv, floor, i as int);
            }
            return out;
        }
        let ghost had = out@;
        out.push(h);
        proof {
            assert(hit_views(out@) =~= hit_views(had).push(hv[i as int]));
            assert(hv.take(i + 1) =~= hv.take(i as int).push(hv[i as int]));
            assert(hv.take(i + 1).drop_last() =~= hv.take(i as int));
        }
        i = i + 1;
    }
    proof {
        assert(hv.take(n as int) =~= hv);
    }
    out
}

/// The hits that a prompt is answered with: none unless the best one stands
/// out by enough against the middle of the store, and else the best good hit of
/// each file, for at most `k` files. `margin` is how far the best score stands
/// above the middle one.
pub fn select<'a>(hits: &Vec<(u32, &'a Chunk)>, margin: u32, k: usize) -> (out: Vec<
    (u32, &'a Chunk),
>)
    ensures
        hit_views(out@) == gated(hit_views(hits@), margin, k as nat),
{
    if hits.len() > 0 && does_reach(margin, MIN_MARGIN) {
        let good = above(hits, MIN_SCORE);
        best_per_file(&good, k)
    } else {
        let none: Vec<(u32, &'a Chunk)> = Vec::new();
        proof {
            assert(hit_views(none@) =~= Seq::<Hit>::empty());
        }
        none
    }
}

/// The files of some hits.
fn file_names(hits: &Vec<(u32, &Chunk)>) -> (out: Vec<String>)
    ensures
        texts(out@) == files_of(hit_views(hits@)),
{
    let n: usize = hits.len();
    let ghost files = files_of(hit_views(hits@));
    let mut out: Vec<String> = Vec::new();
    let mut i: usize = 0;
    while i < n
        invariant
            n == hits@.len(),
            i <= n,
            files == files_of(hit_views(hits@)),
            texts(out@) == files.take(i as int),
        decreases n - i,
    {
        let ghost had = out@;
        let name = hits[i].1.file.as_str().to_owned();
        let ghost nv = name@;
        out.push(name);
        proof {
            assert(files[i as int] == nv);
            assert(texts(out@) =~= texts(had).push(nv));
            assert(files.take(i + 1) =~= files.take(i as int).push(nv));
        }
        i = i + 1;
    }
    proof {
        assert(files.take(n as int) =~= files);
    }
    out
}

/// A heading as it is shown.
pub fn shown_heading(heading: &str) -> (s: String)
    ensures
        s@ == topic(heading@),
{
    if heading.is_empty() {
        "(top)".to_owned()
    } else {
        heading.to_owned()
    }
}

/// Puts a hit behind a text.
fn add_entry(out: &mut String, chunk: &Chunk, score: u32, shown: &str)
    ensures
        final(out)@ == old(out)@ + entry_text(Hit { score, chunk: chunk@ }, shown@),
{
    let ghost before = out@;
    out.append("### ");
    out.append(chunk.file.as_str());
    out.append(" — ");
    out.append(shown_heading(chunk.heading.as_str()).as_str());
    out.append(" (score ");
    out.append(shown);
    out.append(")\n");
    out.append(without_context(chunk.text.as_str()).as_str());
    proof {
        assert(out@ =~= before + entry_text(Hit { score, chunk: chunk@ }, shown@));
    }
}

/// Puts the linked files behind a text.
fn add_related(out: &mut String, pairs: &Vec<(String, String)>)
    ensures
        final(out)@ == old(out)@ + related_text(pair_views(pairs@)),
{
    let ghost before = out@;
    let ghost pv = pair_views(pairs@);
    out.append("### Linked from the above (names only — read if relevant)\n");
    let n: usize = pairs.len();
    let mut i: usize = 0;
    proof {
        assert(out@ =~= before
            + "### Linked from the above (names only — read if relevant)\n"@ + related_lines(
            pv.take(0),
        ));
    }
    while i < n
        invariant
            n == pairs@.len(),
            i <= n,
            pv == pair_views(pairs@),
            out@ == before + "### Linked from the above (names only — read if relevant)\n"@
                + related_lines(pv.take(i as int)),
        decreases n - i,
    {
        let ghost had = out@;
        out.append("- `");
        out.append(pairs[i].0.as_str());
        out.append("` — ");
        out.append(pairs[i].1.as_str());
        out.append("\n");
        proof {
            assert(pv.take(i + 1).drop_last() =~= pv.take(i as int));
            assert(pv.take(i + 1).last() == (pairs@[i as int].0@, pairs@[i as int].1@));
            assert(out@ =~= before
                + "### Linked from the above (names only — read if relevant)\n"@ + related_lines(
                pv.take(i + 1),
            ));
        }
        i = i + 1;
    }
    proof {
        assert(pv.take(n as int) =~= pv);
        assert(out@ =~= before + related_text(pv));
    }
}

/// The answer to a prompt: the hits, and the files that their files are linked
/// with. `shown` has the scores in print, one for each hit.
pub fn prompt_answer(graph: &LinkGraph, hits: &Vec<(u32, &Chunk)>, shown: &Vec<String>) -> (out:
    String)
    requires
        shown@.len() == hits@.len(),
    ensures
        out@ == prompt_reply(graph@, hit_views(hits@), texts(shown@)),
{
    let ghost hv = hit_views(hits@);
    let ghost sv = texts(shown@);
    let n: usize = hits.len();
    let mut out = String::new();
    let mut i: usize = 0;
    proof {
        assert(out@ =~= entries_text(hv.take(0), sv));
    }
    while i < n
        invariant
            n == hits@.len(),
            n == shown@.len(),
            i <= n,
            hv == hit_views(hits@),
            sv == texts(shown@),
            out@ == entries_text(hv.take(i as int), sv),
        decreases n - i,
    {
        let h = hits[i];
        add_entry(&mut out, h.1, h.0, shown[i].as_str());
        out.append("\n\n");
        proof {
            assert(hv.take(i + 1).drop_last() =~= hv.take(i as int));
            assert(hv.take(i + 1).last() == (Hit { score: h.0, chunk: h.1@ }));
            assert(sv[i as int] == shown@[i as int]@);
        }
        i = i + 1;
    }
    proof {
        assert(hv.take(n as int) =~= hv);
    }
    let files = file_names(hits);
    let linked = graph.neighbours(files.as_slice(), RELATED_LIMIT);
    proof {
        assert(linked@.len() == pair_views(linked@).len());
    }
    if linked.len() > 0 {
        add_related(&mut out, &linked);
        out.append("\n");
    }
    out
}

/// The answer to a search on purpose: the hits, and the files that their files
/// are linked with. `shown` has the scores in print, one for each hit.
pub fn tool_answer(graph: &LinkGraph, hits: &Vec<(u32, &Chunk)>, shown: &Vec<String>) -> (out:
    String)
    requires
        shown@.len() == hits@.len(),
    ensures
        out@ == tool_reply(graph@, hit_views(hits@), texts(shown@)),
{
    let ghost hv = hit_views(hits@);
    let ghost sv = texts(shown@);
    let n: usize = hits.len();
    let mut out = String::new();
    let mut i: usize = 0;
    proof {
        assert(out@ =~= entries_joined(hv.take(0), sv));
    }
    while i < n
        invariant
            n == hits@.len(),
            n == shown@.len(),
            i <= n,
            hv == hit_views(hits@),
            sv == texts(shown@),
            out@ == entries_joined(hv.take(i as int), sv),
        decreases n - i,
    {
        let h = hits[i];
        if i > 0 {
            out.append("\n\n");
        }
        add_entry(&mut out, h.1, h.0, shown[i].as_str());
        proof {
            let all = hv.take(i + 1);
            assert(all.drop_last() =~= hv.take(i as int));
            assert(all.last() == (Hit { score: h.0, chunk: h.1@ }));
            assert(sv[i as int] == shown@[i as int]@);
            if i == 0 {
                assert(all[0] == all.last());
                assert(out@ =~= entry_text(all[0], sv[0]));
            }
        }
        i = i + 1;
    }
    proof {
        assert(hv.take(n as int) =~= hv);
        assert(leaders(hv).len() <= n) by {
            lemma_leaders_bound(hv);
        }
    }
    let first = best_per_file(hits, n);
    let files = file_names(&first);
    proof {
        assert(hit_views(first@) =~= leaders(hv));
    }
    let linked = graph.neighbours(files.as_slice(), RELATED_LIMIT);
    proof {
        assert(linked@.len() == pair_views(linked@).len());
    }
    if linked.len() > 0 {
        out.append("\n\n");
        add_related(&mut out, &linked);
    }
    out
}

/// There are no more first hits than hits.
proof fn lemma_leaders_bound(hits: Seq<Hit>)
    ensures
        leaders(hits).len() <= hits.len(),
    decreases hits.len(),
{
    if hits.len() > 0 {
        lemma_leaders_bound(hits.drop_last());
    }
}

/// A hit as it is given out raw.
#[derive(Clone, Debug, PartialEq, Eq)]
pub struct RawHit {
    pub file: String,
    pub heading: String,
    /// The bits of the score.
    pub score: u32,
    pub body: String,
}

/// What a raw hit holds.
#[verifier::ext_equal]
pub struct RawHitView {
    pub file: Seq<char>,
    pub heading: Seq<char>,
    pub score: u32,
    pub body: Seq<char>,
}

impl View for RawHit {
    type V = RawHitView;

    open spec fn view(&self) -> RawHitView {
        RawHitView {
            file: self.file@,
            heading: self.heading@,
            score: self.score,
            body: self.body@,
        }
    }
}

/// Hits as they are given out raw, each without its context line.
pub open spec fn raw_views(hits: Seq<Hit>) -> Seq<RawHitView> {
    hits.map_values(
        |h: Hit|
            RawHitView {
                file: h.chunk.file,
                heading: h.chunk.heading,
                score: h.score,
                body: body_of(h.chunk.text),
            },
    )
}

/// What is given to whoever searches on purpose and shows it alone.
#[derive(Debug, PartialEq, Eq)]
pub struct RawAnswer {
    pub hits: Vec<RawHit>,
    /// The linked files, each with its description.
    pub related: Vec<(String, String)>,
}

/// All the hits, good or not, one for each file, for at most `k` files, and
/// the files that those are linked with.
pub fn raw_answer(graph: &LinkGraph, hits: &Vec<(u32, &Chunk)>, k: usize) -> (r: RawAnswer)
    ensures
        ({
            let kept = at_most(leaders(hit_views(hits@)), k as nat);
            &&& r.hits@.map_values(|h: RawHit| h@) == raw_views(kept)
            &&& pair_views(r.related@) == related(graph@, files_of(kept), RELATED_LIMIT as nat)
        }),
{
    let kept = best_per_file(hits, k);
    let ghost kv = hit_views(kept@);
    let ghost want = raw_views(kv);
    let n: usize = kept.len();
    let mut out: Vec<RawHit> = Vec::new();
    let mut i: usize = 0;
    while i < n
        invariant
            n == kept@.len(),
            i <= n,
            kv == hit_views(kept@),
            want == raw_views(kv),
            out@.map_values(|h: RawHit| h@) == want.take(i as int),
        decreases n - i,
    {
        let h = kept[i];
        let ghost had = out@;
        let raw = RawHit {
            file: h.1.file.as_str().to_owned(),
            heading: h.1.heading.as_str().to_owned(),
            score: h.0,
            body: without_context(h.1.text.as_str()),
        };
        let ghost rv = raw@;
        out.push(raw);
        proof {
            assert(want[i as int] == rv);
            assert(out@.map_values(|h: RawHit| h@) =~= had.map_values(|h: RawHit| h@).push(rv));
            assert(want.take(i + 1) =~= want.take(i as int).push(rv));
        }
        i = i + 1;
    }
    proof {
        assert(want.take(n as int) =~= want);
    }
    let files = file_names(&kept);
    let related = graph.neighbours(files.as_slice(), RELATED_LIMIT);
    RawAnswer { hits: out, related }
}

/// Files with their scores in print, one after the other.
pub open spec fn bench_files(hits: Seq<Hit>, shown: Seq<Seq<char>>) -> Seq<char>
    decreases hits.len(),
{
    if hits.len() == 0 {
        Seq::empty()
    } else {
        bench_files(hits.drop_last(), shown) + (if hits.len() > 1 {
            ","@
        } else {
            Seq::empty()
        }) + hits.last().chunk.file + ":"@ + shown[hits.len() - 1]
    }
}

/// The row of a query in a bench.
pub open spec fn bench_line(
    query: Seq<char>,
    hits: Seq<Hit>,
    shown: Seq<Seq<char>>,
) -> Seq<char> {
    query + "\t"@ + bench_files(hits, shown)
}

/// A row of a bench: the query, and the files that were found with their
/// scores. `shown` has the scores in print, one for each hit.
pub fn bench_row(query: &str, hits: &Vec<(u32, &Chunk)>, shown: &Vec<String>) -> (out: String)
    requires
        shown@.len() == hits@.len(),
    ensures
        out@ == bench_line(query@, hit_views(hits@), texts(shown@)),
{
    let ghost hv = hit_views(hits@);
    let ghost sv = texts(shown@);
    let mut out = query.to_owned();
    out.append("\t");
    let n: usize = hits.len();
    let mut i: usize = 0;
    proof {
        assert(out@ =~= query@ + "\t"@ + bench_files(hv.take(0), sv));
    }
    while i < n
        invariant
            n == hits@.len(),
            n == shown@.len(),
            i <= n,
            hv == hit_views(hits@),
            sv == texts(shown@),
            out@ == query@ + "\t"@ + bench_files(hv.take(i as int), sv),
        decreases n - i,
    {
        let h = hits[i];
        if i > 0 {
            out.append(",");
        }
        out.append(h.1.file.as_str());
        out.append(":");
        out.append(shown[i].as_str());
        proof {
            assert(hv.take(i + 1).drop_last() =~= hv.take(i as int));
            assert(hv.take(i + 1).last() == (Hit { score: h.0, chunk: h.1@ }));
            assert(sv[i as int] == shown@[i as int]@);
            assert(out@ =~= query@ + "\t"@ + bench_files(hv.take(i + 1), sv));
        }
        i = i + 1;
    }
    proof {
        assert(hv.take(n as int) =~= hv);
    }
    out
}

} // verus!
