//! What is found and what is shown of it, on the scores and the characters.
use vstd::prelude::*;
use vstd::set_lib::{lemma_int_range, set_int_range};

use crate::file_laws::law_the_body_is_all_behind_the_first_line;
use crate::hit_laws::{falling, numbers};
use crate::hits::{
    bench_files, bench_line, entries_joined, entries_text, entry_text, files_of, gated, leaders,
    pool_size, prompt_reply, prompt_text, raw_views, related_lines, related_text, tool_count,
    tool_reply, tool_text, until_below,
};
use crate::index::IndexView;
use crate::links::{related, GraphView};
use crate::search::{
    all_hits, at_most, below, better, height, is_number, law_ranked_by_score, median, paired,
    places, ranked, reaches, Hit,
};

verus! {

/// The score in the middle has as many hits before it as behind it, or one
/// more: it stands at half the number of hits. Of hits that stand from the best
/// to the worst, none with a better score stands behind that place and none
/// with a worse one before it.
pub proof fn law_the_median_is_in_the_middle(hits: Seq<Hit>)
    requires
        hits.len() > 0,
    ensures
        exists|i: int|
            0 <= i < hits.len() && 2 * i <= hits.len() <= 2 * i + 1 && (#[trigger] hits[i]).score
                == median(hits),
        falling(hits) ==> forall|j: int|
            0 <= j < hits.len() ==> {
                &&& height((#[trigger] hits[j]).score) > height(median(hits)) ==> 2 * (j + 1)
                    <= hits.len()
                &&& height(hits[j].score) < height(median(hits)) ==> hits.len() <= 2 * j
            },
{
    let m = hits.len() as int / 2;
    assert(hits[m].score == median(hits));
    if falling(hits) {
        assert forall|j: int| 0 <= j < hits.len() implies {
            &&& height((#[trigger] hits[j]).score) > height(median(hits)) ==> 2 * (j + 1)
                <= hits.len()
            &&& height(hits[j].score) < height(median(hits)) ==> hits.len() <= 2 * j
        } by {
            if j < m {
                assert(height(hits[j].score) >= height(hits[m].score));
            }
            if j > m {
                assert(height(hits[m].score) >= height(hits[j].score));
            }
        }
    }
}

/// Without hits the middle is zero.
pub proof fn law_the_median_of_nothing(hits: Seq<Hit>)
    requires
        hits.len() == 0,
    ensures
        median(hits) == 0,
{
}

/// Bits without the sign rise with their number, those with it fall, and the
/// two zeros are one: so the one number is below the other, or reaches it,
/// exactly as the numbers are that the bits write.
pub proof fn law_heights_order_the_numbers(a: u32, b: u32)
    ensures
        a < 0x8000_0000 && b < 0x8000_0000 ==> (height(a) < height(b) <==> a < b),
        a > 0x8000_0000 && b > 0x8000_0000 ==> (height(a) < height(b) <==> a > b),
        a > 0x8000_0000 && b < 0x8000_0000 ==> height(a) < height(b),
        height(0) == height(0x8000_0000),
        height(a) == height(b) ==> a == b || (a == 0 && b == 0x8000_0000) || (a == 0x8000_0000 && b
            == 0),
        is_number(a) <==> !(0x7f80_0000 < a < 0x8000_0000) && a <= 0xff80_0000,
        below(a, b) <==> is_number(a) && is_number(b) && height(a) < height(b),
        reaches(a, b) <==> is_number(a) && is_number(b) && !below(a, b),
{
}

/// Of two places of scores, the one has the better score, or an equal one and
/// stands first.
pub open spec fn comes_first(scores: Seq<u32>, a: int, b: int) -> bool {
    &&& 0 <= a < scores.len()
    &&& 0 <= b < scores.len()
    &&& height(scores[a]) >= height(scores[b])
    &&& height(scores[a]) == height(scores[b]) ==> a < b
}

/// Every score has one place in the ranking; a better one comes first, and of
/// equal ones the one that stood first.
pub proof fn law_the_ranking_is_stable(scores: Seq<u32>)
    ensures
        ranked(scores).len() == scores.len(),
        forall|i: int| 0 <= i < scores.len() ==> ranked(scores).contains(i),
        forall|i: int, j: int|
            0 <= i < j < scores.len() ==> comes_first(
                scores,
                #[trigger] ranked(scores)[i],
                #[trigger] ranked(scores)[j],
            ),
{
    let o = ranked(scores);
    law_ranked_by_score(scores);
    assert forall|i: int| 0 <= i < scores.len() implies o.contains(i) by {
        assert(places(scores).contains(i));
    }
    assert(o.no_duplicates()) by {
        assert forall|i: int, j: int| 0 <= i < o.len() && 0 <= j < o.len() && i != j implies o[i]
            != o[j] by {
            if i < j {
                assert(better(scores)(o[i], o[j]));
            } else {
                assert(better(scores)(o[j], o[i]));
            }
        }
    }
    o.unique_seq_to_set();
    lemma_int_range(0, scores.len() as int);
    assert(o.to_set() =~= set_int_range(0, scores.len() as int)) by {
        assert forall|x: int| o.to_set().contains(x) <==> set_int_range(
            0,
            scores.len() as int,
        ).contains(x) by {
            if o.contains(x) {
                assert(places(scores).contains(x));
            }
            if 0 <= x < scores.len() {
                assert(places(scores).contains(x));
            }
        }
    }
    assert forall|i: int, j: int| 0 <= i < j < scores.len() implies comes_first(
        scores,
        #[trigger] ranked(scores)[i],
        #[trigger] ranked(scores)[j],
    ) by {
        assert(o.contains(o[i]) && o.contains(o[j]));
        assert(places(scores).contains(o[i]) && places(scores).contains(o[j]));
        assert(better(scores)(o[i], o[j]));
    }
}

/// A search gives each chunk that has a score once, with its own score, in the
/// order of the ranking.
pub proof fn law_hits_pair_chunks_with_their_scores(index: IndexView, scores: Seq<u32>, i: int)
    requires
        0 <= i < index.chunks.len(),
        i < scores.len(),
    ensures
        all_hits(index, scores).len() == if scores.len() <= index.chunks.len() {
            scores.len()
        } else {
            index.chunks.len()
        },
        exists|k: int|
            0 <= k < all_hits(index, scores).len() && (#[trigger] all_hits(index, scores)[k]).score
                == scores[i] && all_hits(index, scores)[k].chunk == index.chunks[i],
{
    let ps = paired(index, scores);
    law_the_ranking_is_stable(ps);
    assert(ranked(ps).contains(i));
    let k = choose|k: int| 0 <= k < ranked(ps).len() && ranked(ps)[k] == i;
    assert(all_hits(index, scores)[k] == (Hit { score: scores[i], chunk: index.chunks[i] }));
}

/// At most so many are the first of them, and all where there are no more.
pub proof fn law_at_most_takes_the_first<A>(s: Seq<A>, k: nat)
    ensures
        at_most(s, k).len() == if k <= s.len() {
            k
        } else {
            s.len()
        },
        forall|i: int| 0 <= i < at_most(s, k).len() ==> #[trigger] at_most(s, k)[i] == s[i],
{
}

/// A hit speaks for its file exactly where none of the same file stands before
/// it, and those that speak keep their order.
pub proof fn law_the_first_hit_of_a_file_speaks(hits: Seq<Hit>, h: Hit)
    ensures
        leaders(hits.push(h)) == if exists|i: int|
            0 <= i < hits.len() && (#[trigger] hits[i]).chunk.file == h.chunk.file {
            leaders(hits)
        } else {
            leaders(hits).push(h)
        },
        leaders(Seq::empty()).len() == 0,
{
    let all = hits.push(h);
    assert(all.drop_last() =~= hits);
    crate::hit_laws::law_one_hit_per_file(hits);
    let before = leaders(hits);
    if exists|i: int| 0 <= i < hits.len() && (#[trigger] hits[i]).chunk.file == h.chunk.file {
        let i = choose|i: int|
            0 <= i < hits.len() && (#[trigger] hits[i]).chunk.file == h.chunk.file;
        assert(files_of(before).contains(hits[i].chunk.file));
    } else if files_of(before).contains(h.chunk.file) {
        let k = choose|k: int|
            0 <= k < files_of(before).len() && files_of(before)[k] == h.chunk.file;
        lemma_speaker(hits, k);
        let j = choose|j: int| 0 <= j < hits.len() && hits[j] == before[k];
        assert(hits[j].chunk.file == h.chunk.file);
    }
}

proof fn lemma_speaker(hits: Seq<Hit>, k: int)
    requires
        0 <= k < leaders(hits).len(),
    ensures
        hits.contains(leaders(hits)[k]),
    decreases hits.len(),
{
    let less = hits.drop_last();
    let before = leaders(less);
    if k < before.len() {
        lemma_speaker(less, k);
        let j = choose|j: int| 0 <= j < less.len() && less[j] == before[k];
        assert(hits[j] == leaders(hits)[k]);
    } else {
        assert(hits[hits.len() - 1] == leaders(hits)[k]);
    }
}

/// Hits are kept up to the first one below the floor: nothing before it is
/// left out and nothing from it on is kept.
pub proof fn law_hits_are_kept_up_to_the_floor(
    a: Seq<Hit>,
    h: Hit,
    b: Seq<Hit>,
    floor: u32,
)
    requires
        forall|i: int| 0 <= i < a.len() ==> !below((#[trigger] a[i]).score, floor),
        below(h.score, floor),
    ensures
        until_below(a, floor) == a,
        until_below(a.push(h) + b, floor) == a,
    decreases b.len(),
{
    lemma_all_kept(a, floor);
    let all = a.push(h) + b;
    if b.len() == 0 {
        assert(all.drop_last() =~= a);
    } else {
        assert(all.drop_last() =~= a.push(h) + b.drop_last());
        law_hits_are_kept_up_to_the_floor(a, h, b.drop_last(), floor);
    }
}

proof fn lemma_all_kept(a: Seq<Hit>, floor: u32)
    requires
        forall|i: int| 0 <= i < a.len() ==> !below((#[trigger] a[i]).score, floor),
    ensures
        until_below(a, floor) == a,
    decreases a.len(),
{
    if a.len() > 0 {
        let less = a.drop_last();
        assert forall|i: int| 0 <= i < less.len() implies !below(
            (#[trigger] less[i]).score,
            floor,
        ) by {
            assert(less[i] == a[i]);
        }
        lemma_all_kept(less, floor);
        assert(!below(a[a.len() - 1].score, floor));
    }
}

/// A prompt that stands out is answered: every good hit's file is given, until
/// there are `k` of them. The bounds are the bits of 0.13 and 0.53.
pub proof fn law_what_stands_out_is_answered(hits: Seq<Hit>, margin: u32, k: nat, i: int)
    requires
        falling(hits),
        numbers(hits),
        reaches(margin, 0x3e05_1eb8),
        0 <= i < hits.len(),
        !below(hits[i].score, 0x3f07_ae14),
    ensures
        gated(hits, margin, k).len() == k || files_of(gated(hits, margin, k)).contains(
            hits[i].chunk.file,
        ),
        k > 0 ==> gated(hits, margin, k).len() > 0 && gated(hits, margin, k)[0] == hits[0],
{
    let floor = 0x3f07_ae14u32;
    let good = until_below(hits, floor);
    let out = gated(hits, margin, k);
    crate::hit_laws::law_no_good_hit_is_cut_off(hits, floor, i);
    crate::hit_laws::law_no_good_hit_is_cut_off(hits, floor, 0);
    lemma_kept_prefix(hits, floor);
    crate::hit_laws::law_one_hit_per_file(good);
    assert(good[i] == hits[i]);
    assert(files_of(leaders(good)).contains(hits[i].chunk.file));
    if leaders(good).len() <= k {
        assert(out =~= leaders(good));
    }
    lemma_first_speaks(good);
    assert(good[0] == hits[0]);
}

proof fn lemma_kept_prefix(hits: Seq<Hit>, floor: u32)
    ensures
        until_below(hits, floor).len() <= hits.len(),
        forall|j: int|
            0 <= j < until_below(hits, floor).len() ==> #[trigger] until_below(hits, floor)[j]
                == hits[j],
    decreases hits.len(),
{
    if hits.len() > 0 {
        lemma_kept_prefix(hits.drop_last(), floor);
    }
}

proof fn lemma_first_speaks(hits: Seq<Hit>)
    requires
        hits.len() > 0,
    ensures
        leaders(hits).len() > 0,
        leaders(hits)[0] == hits[0],
    decreases hits.len(),
{
    if hits.len() > 1 {
        lemma_first_speaks(hits.drop_last());
    } else {
        let none = hits.drop_last();
        assert(none.len() == 0);
        assert(leaders(none).len() == 0);
        assert(files_of(leaders(none)).len() == 0);
    }
}

/// What is shown of a hit holds the whole of what was found, unshortened: the
/// file, the heading (or that there is none), the score, and everything behind
/// the line that names the file.
pub proof fn law_a_hit_is_shown_whole(h: Hit, shown: Seq<char>, c: Seq<char>, p: Seq<char>)
    requires
        !c.contains('\n'),
        h.chunk.text == c + seq!['\n'] + p,
    ensures
        entry_text(h, shown) == "### "@ + h.chunk.file + " — "@ + (if h.chunk.heading.len() == 0 {
            "(top)"@
        } else {
            h.chunk.heading
        }) + " (score "@ + shown + ")\n"@ + p,
        entry_text(h, shown).skip(entry_text(h, shown).len() - p.len()) == p,
{
    law_the_body_is_all_behind_the_first_line(c, p);
    let e = entry_text(h, shown);
    assert(e.skip(e.len() - p.len()) =~= p);
}

/// A hit of a single line is shown with that line.
pub proof fn law_a_single_line_is_shown(h: Hit, shown: Seq<char>)
    requires
        !h.chunk.text.contains('\n'),
    ensures
        entry_text(h, shown) == "### "@ + h.chunk.file + " — "@ + (if h.chunk.heading.len() == 0 {
            "(top)"@
        } else {
            h.chunk.heading
        }) + " (score "@ + shown + ")\n"@ + h.chunk.text,
{
    law_the_body_is_all_behind_the_first_line(h.chunk.text, Seq::empty());
}

/// An answer to a prompt shows every hit, one behind the other, each with an
/// empty line behind it.
pub proof fn law_prompts_show_every_hit(
    hits: Seq<Hit>,
    h: Hit,
    shown: Seq<Seq<char>>,
    pairs: Seq<(Seq<char>, Seq<char>)>,
)
    requires
        shown.len() == hits.len() + 1,
    ensures
        entries_text(hits.push(h), shown) == entries_text(hits, shown.drop_last()) + entry_text(
            h,
            shown.last(),
        ) + seq!['\n', '\n'],
        entries_text(Seq::empty(), Seq::empty()).len() == 0,
        prompt_text(hits, shown, pairs) == if pairs.len() == 0 {
            entries_text(hits, shown)
        } else {
            entries_text(hits, shown) + related_text(pairs) + seq!['\n']
        },
{
    reveal_strlit("\n\n");
    reveal_strlit("\n");
    assert("\n\n"@ =~= seq!['\n', '\n']);
    assert("\n"@ =~= seq!['\n']);
    let all = hits.push(h);
    assert(all.drop_last() =~= hits);
    lemma_entries_prefix(hits, shown, shown.drop_last());
}

proof fn lemma_entries_prefix(hits: Seq<Hit>, a: Seq<Seq<char>>, b: Seq<Seq<char>>)
    requires
        a.len() >= hits.len(),
        b.len() >= hits.len(),
        forall|i: int| 0 <= i < hits.len() ==> a[i] == #[trigger] b[i],
    ensures
        entries_text(hits, a) == entries_text(hits, b),
        entries_joined(hits, a) == entries_joined(hits, b),
        bench_files(hits, a) == bench_files(hits, b),
    decreases hits.len(),
{
    if hits.len() > 0 {
        lemma_entries_prefix(hits.drop_last(), a, b);
        assert(a[hits.len() - 1] == b[hits.len() - 1]);
        assert(a[0] == b[0]);
    }
}

/// An answer to a search shows every hit, with an empty line between any two.
pub proof fn law_searches_show_every_hit(
    hits: Seq<Hit>,
    h: Hit,
    shown: Seq<Seq<char>>,
    pairs: Seq<(Seq<char>, Seq<char>)>,
)
    requires
        shown.len() == hits.len() + 1,
    ensures
        entries_joined(hits.push(h), shown) == if hits.len() == 0 {
            entry_text(h, shown.last())
        } else {
            entries_joined(hits, shown.drop_last()) + seq!['\n', '\n'] + entry_text(
                h,
                shown.last(),
            )
        },
        entries_joined(Seq::empty(), Seq::empty()).len() == 0,
        tool_text(hits, shown, pairs) == if pairs.len() == 0 {
            entries_joined(hits, shown)
        } else {
            entries_joined(hits, shown) + seq!['\n', '\n'] + related_text(pairs)
        },
{
    reveal_strlit("\n\n");
    assert("\n\n"@ =~= seq!['\n', '\n']);
    let all = hits.push(h);
    assert(all.drop_last() =~= hits);
    lemma_entries_prefix(hits, shown, shown.drop_last());
}

/// Every linked file has a line of its own under the one heading, with its name
/// and its description.
pub proof fn law_every_linked_file_has_its_line(
    pairs: Seq<(Seq<char>, Seq<char>)>,
    name: Seq<char>,
    desc: Seq<char>,
)
    ensures
        related_text(pairs.push((name, desc))) == related_text(pairs) + seq!['-', ' ', '`'] + name
            + seq!['`', ' ', '—', ' '] + desc + seq!['\n'],
        related_text(Seq::empty())
            == "### Linked from the above (names only — read if relevant)\n"@,
{
    reveal_strlit("- `");
    reveal_strlit("` — ");
    reveal_strlit("\n");
    assert("- `"@ =~= seq!['-', ' ', '`']);
    assert("` — "@ =~= seq!['`', ' ', '—', ' ']);
    assert("\n"@ =~= seq!['\n']);
    let all = pairs.push((name, desc));
    assert(all.drop_last() =~= pairs);
    assert(related_text(all) =~= related_text(pairs) + seq!['-', ' ', '`'] + name + seq![
        '`',
        ' ',
        '—',
        ' ',
    ] + desc + seq!['\n']);
    let none: Seq<(Seq<char>, Seq<char>)> = Seq::empty();
    assert(related_lines(none).len() == 0);
    assert(related_text(none)
        =~= "### Linked from the above (names only — read if relevant)\n"@);
}

/// A raw hit holds the file, the heading, the score and everything behind the
/// line that names the file.
pub proof fn law_raw_hits_are_whole(hits: Seq<Hit>, i: int, c: Seq<char>, p: Seq<char>)
    requires
        0 <= i < hits.len(),
        !c.contains('\n'),
        hits[i].chunk.text == c + seq!['\n'] + p,
    ensures
        raw_views(hits).len() == hits.len(),
        raw_views(hits)[i].file == hits[i].chunk.file,
        raw_views(hits)[i].heading == hits[i].chunk.heading,
        raw_views(hits)[i].score == hits[i].score,
        raw_views(hits)[i].body == p,
{
    law_the_body_is_all_behind_the_first_line(c, p);
}

/// A bench row names every file with its score, with commas between them.
pub proof fn law_bench_rows_name_every_file(hits: Seq<Hit>, h: Hit, shown: Seq<Seq<char>>)
    requires
        shown.len() == hits.len() + 1,
    ensures
        bench_files(hits.push(h), shown) == bench_files(hits, shown.drop_last()) + (if hits.len()
            == 0 {
            Seq::empty()
        } else {
            seq![',']
        }) + h.chunk.file + seq![':'] + shown.last(),
        bench_files(Seq::empty(), Seq::empty()).len() == 0,
{
    reveal_strlit(",");
    reveal_strlit(":");
    assert(","@ =~= seq![',']);
    assert(":"@ =~= seq![':']);
    let all = hits.push(h);
    assert(all.drop_last() =~= hits);
    lemma_entries_prefix(hits, shown, shown.drop_last());
}

/// As many chunks are looked at as files are asked for, and at least forty; a
/// search on purpose gives what is asked for up to twenty, and five where it
/// does not say.
pub proof fn law_how_many_are_given(k: usize, asked: usize)
    ensures
        pool_size(k) >= k && pool_size(k) >= 40 && (pool_size(k) == k || pool_size(k) == 40),
        tool_count(Some(asked)) <= asked && tool_count(Some(asked)) <= 20,
        tool_count(Some(asked)) == asked || tool_count(Some(asked)) == 20,
        tool_count(None) == 5,
{
}

/// Behind the hits of a reply stand up to five files that are linked with the
/// files of the hits, if there are any. For a search on purpose a file counts
/// once, however many of its chunks were found; a bench has the query in front.
pub proof fn law_replies_lead_to_what_is_linked(
    g: GraphView,
    hits: Seq<Hit>,
    shown: Seq<Seq<char>>,
    query: Seq<char>,
    h: Hit,
)
    ensures
        ({
            let linked = related(g, hits.map_values(|x: Hit| x.chunk.file), 5);
            &&& linked.len() == 0 ==> prompt_reply(g, hits, shown) == entries_text(hits, shown)
            &&& linked.len() > 0 ==> prompt_reply(g, hits, shown) == entries_text(hits, shown)
                + related_text(linked) + seq!['\n']
        }),
        ({
            let linked = related(g, leaders(hits).map_values(|x: Hit| x.chunk.file), 5);
            &&& linked.len() == 0 ==> tool_reply(g, hits, shown) == entries_joined(hits, shown)
            &&& linked.len() > 0 ==> tool_reply(g, hits, shown) == entries_joined(hits, shown)
                + seq!['\n', '\n'] + related_text(linked)
        }),
        files_of(hits).contains(h.chunk.file) ==> leaders(hits.push(h)) == leaders(hits),
        bench_line(query, hits, shown) == query + seq!['\t'] + bench_files(hits, shown),
{
    reveal_strlit("\n");
    reveal_strlit("\n\n");
    reveal_strlit("\t");
    assert("\n"@ =~= seq!['\n']);
    assert("\n\n"@ =~= seq!['\n', '\n']);
    assert("\t"@ =~= seq!['\t']);
    assert(files_of(hits) =~= hits.map_values(|x: Hit| x.chunk.file));
    assert(files_of(leaders(hits)) =~= leaders(hits).map_values(|x: Hit| x.chunk.file));
    if files_of(hits).contains(h.chunk.file) {
        assert(hits.push(h).drop_last() =~= hits);
        lemma_leaders_have_every_file(hits, h.chunk.file);
    }
}

proof fn lemma_leaders_have_every_file(hits: Seq<Hit>, file: Seq<char>)
    requires
        files_of(hits).contains(file),
    ensures
        files_of(leaders(hits)).contains(file),
    decreases hits.len(),
{
    let less = hits.drop_last();
    let k = choose|k: int| 0 <= k < files_of(hits).len() && files_of(hits)[k] == file;
    if k < less.len() {
        assert(files_of(less)[k] == file);
        lemma_leaders_have_every_file(less, file);
        let before = leaders(less);
        let j = choose|j: int| 0 <= j < files_of(before).len() && files_of(before)[j] == file;
        assert(files_of(leaders(hits))[j] == file);
    } else if !files_of(leaders(less)).contains(file) {
        assert(hits[k] == hits.last());
        assert(files_of(leaders(hits))[leaders(less).len() as int] == file);
    }
}

} // verus!
