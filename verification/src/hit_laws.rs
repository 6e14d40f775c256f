//! What holds of every answer.
use vstd::prelude::*;

use crate::hits::{
    files_of, gated, leaders, lemma_leaders_grow, prompt_text, until_below, MIN_MARGIN, MIN_SCORE,
};
use crate::index::IndexView;
use crate::links::{
    all_neighbours, closer, links_along, ranking, related, seed_stems, GraphView,
};
use crate::request::added_context;
use crate::search::{
    all_hits, at_most, below, better, height, is_number, law_ranked_by_score, paired, places,
    ranked, reaches, Hit,
};
use crate::sort::is_sorting;

verus! {

/// Hits stand from the best to the worst.
pub open spec fn falling(hits: Seq<Hit>) -> bool {
    forall|i: int, j: int|
        0 <= i < j < hits.len() ==> height((#[trigger] hits[i]).score) >= height(
            (#[trigger] hits[j]).score,
        )
}

/// The scores of hits are numbers.
pub open spec fn numbers(hits: Seq<Hit>) -> bool {
    forall|i: int| 0 <= i < hits.len() ==> is_number((#[trigger] hits[i]).score)
}

/// No two stand for the same file.
pub open spec fn distinct_files(hits: Seq<Hit>) -> bool {
    forall|i: int, j: int|
        0 <= i < j < hits.len() ==> (#[trigger] hits[i]).chunk.file != (
        #[trigger] hits[j]).chunk.file
}

/// A search gives every scored chunk its turn: the hits stand from the best to
/// the worst, and each chunk that has a score is among them with that score.
pub proof fn law_search_is_complete(index: IndexView, scores: Seq<u32>)
    ensures
        falling(all_hits(index, scores)),
        forall|i: int|
            #![trigger index.chunks[i]]
            0 <= i < index.chunks.len() && i < scores.len() ==> all_hits(index, scores).contains(
                Hit { score: scores[i], chunk: index.chunks[i] },
            ),
{
    let ps = paired(index, scores);
    let order = ranked(ps);
    let all = all_hits(index, scores);
    law_ranked_by_score(ps);
    assert forall|i: int, j: int| 0 <= i < j < all.len() implies height(
        (#[trigger] all[i]).score,
    ) >= height((#[trigger] all[j]).score) by {
        assert(better(ps)(order[i], order[j]));
        assert(order.contains(order[i]) && order.contains(order[j]));
        assert(places(ps).contains(order[i]) && places(ps).contains(order[j]));
        assert(ps[order[i]] == scores[order[i]]);
        assert(ps[order[j]] == scores[order[j]]);
    }
    assert forall|i: int|
        #![trigger index.chunks[i]]
        0 <= i < index.chunks.len() && i < scores.len() implies all.contains(
        Hit { score: scores[i], chunk: index.chunks[i] },
    ) by {
        assert(places(ps).contains(i));
        assert(order.contains(i));
        let k = choose|k: int| 0 <= k < order.len() && order[k] == i;
        assert(all[k] == (Hit { score: scores[i], chunk: index.chunks[i] }));
    }
}

/// Asking for more hits only adds to the end.
pub proof fn law_more_hits_extend<A>(hits: Seq<A>, k: nat, more: nat)
    requires
        k <= more,
    ensures
        at_most(at_most(hits, more), k) == at_most(hits, k),
{
    if more <= hits.len() {
        assert(hits.take(more as int).take(k as int) =~= hits.take(k as int));
    }
}

/// One hit speaks for a file: no two of those that are kept are of one file,
/// and every file that was found is among them.
pub proof fn law_one_hit_per_file(hits: Seq<Hit>)
    ensures
        distinct_files(leaders(hits)),
        leaders(hits).len() <= hits.len(),
        forall|i: int|
            0 <= i < hits.len() ==> files_of(leaders(hits)).contains(
                (#[trigger] hits[i]).chunk.file,
            ),
    decreases hits.len(),
{
    if hits.len() > 0 {
        let less = hits.drop_last();
        let before = leaders(less);
        let all = leaders(hits);
        law_one_hit_per_file(less);
        assert forall|i: int, j: int| 0 <= i < j < all.len() implies (
        #[trigger] all[i]).chunk.file != (#[trigger] all[j]).chunk.file by {
            if j == before.len() {
                assert(files_of(before)[i] == all[i].chunk.file);
                assert(files_of(before).contains(all[i].chunk.file));
            }
        }
        assert forall|i: int| 0 <= i < hits.len() implies files_of(all).contains(
            (#[trigger] hits[i]).chunk.file,
        ) by {
            let f = hits[i].chunk.file;
            if i < less.len() {
                assert(less[i] == hits[i]);
                let k = choose|k: int| 0 <= k < files_of(before).len() && files_of(before)[k] == f;
                assert(files_of(all)[k] == f);
            } else if !files_of(before).contains(f) {
                assert(files_of(all)[before.len() as int] == f);
            }
        }
    }
}

/// The hit that speaks for a file is its best: of hits that stand from the best
/// to the worst, no other of the same file has a higher score.
pub proof fn law_the_best_hit_speaks(hits: Seq<Hit>, i: int, k: int)
    requires
        falling(hits),
        0 <= i < hits.len(),
        0 <= k < leaders(hits).len(),
        leaders(hits)[k].chunk.file == hits[i].chunk.file,
    ensures
        height(leaders(hits)[k].score) >= height(hits[i].score),
    decreases hits.len(),
{
    let less = hits.drop_last();
    let before = leaders(less);
    law_one_hit_per_file(less);
    if k < before.len() {
        assert(leaders(hits)[k] == before[k]);
        if i < less.len() {
            assert(less[i] == hits[i]);
            law_the_best_hit_speaks(less, i, k);
        } else {
            lemma_leader_is_hit(less, k);
            let j = choose|j: int| 0 <= j < less.len() && less[j] == before[k];
            assert(hits[j] == before[k]);
        }
    } else if i < less.len() {
        assert(less[i] == hits[i]);
        assert(files_of(before).contains(hits[i].chunk.file));
    }
}

/// What speaks for a file was found.
proof fn lemma_leader_is_hit(hits: Seq<Hit>, k: int)
    requires
        0 <= k < leaders(hits).len(),
    ensures
        hits.contains(leaders(hits)[k]),
    decreases hits.len(),
{
    let less = hits.drop_last();
    let before = leaders(less);
    if k < before.len() {
        lemma_leader_is_hit(less, k);
        let j = choose|j: int| 0 <= j < less.len() && less[j] == before[k];
        assert(hits[j] == leaders(hits)[k]);
    } else {
        assert(hits[hits.len() - 1] == leaders(hits)[k]);
    }
}

/// What is kept stands before the first hit below the floor; none of it is
/// below.
proof fn lemma_kept(hits: Seq<Hit>, floor: u32)
    ensures
        until_below(hits, floor).len() <= hits.len(),
        until_below(hits, floor) == hits.take(until_below(hits, floor).len() as int),
        forall|i: int|
            0 <= i < until_below(hits, floor).len() ==> !below((#[trigger] hits[i]).score, floor),
        until_below(hits, floor).len() < hits.len() ==> below(
            hits[until_below(hits, floor).len() as int].score,
            floor,
        ),
    decreases hits.len(),
{
    if hits.len() > 0 {
        let less = hits.drop_last();
        let before = until_below(less, floor);
        lemma_kept(less, floor);
        let n = before.len() as int;
        assert(less.take(n) =~= hits.take(n));
        assert forall|i: int| 0 <= i < n implies !below((#[trigger] hits[i]).score, floor) by {
            assert(less[i] == hits[i]);
        }
        if n < less.len() {
            assert(less[n] == hits[n]);
        }
        assert(hits.take(hits.len() as int) =~= hits);
    } else {
        assert(hits.take(0) =~= until_below(hits, floor));
    }
}

/// The first hit below the floor ends it, and nothing good stands behind: of
/// hits that stand from the best to the worst, those kept are all that are not
/// below the floor.
pub proof fn law_no_good_hit_is_cut_off(hits: Seq<Hit>, floor: u32, i: int)
    requires
        falling(hits),
        numbers(hits),
        is_number(floor),
        0 <= i < hits.len(),
    ensures
        i < until_below(hits, floor).len() <==> !below(hits[i].score, floor),
{
    lemma_kept(hits, floor);
    let n = until_below(hits, floor).len() as int;
    if i >= n {
        assert(below(hits[n].score, floor));
        assert(height(hits[n].score) >= height(hits[i].score));
        assert(is_number(hits[i].score));
    }
}

/// What a prompt is answered with: at most `k` hits, each of a file of its own
/// and none below the least score. Nothing at all where the best does not stand
/// out.
pub proof fn law_prompts_are_gated(hits: Seq<Hit>, margin: u32, k: nat)
    ensures
        gated(hits, margin, k).len() <= k,
        distinct_files(gated(hits, margin, k)),
        forall|i: int|
            0 <= i < gated(hits, margin, k).len() ==> !below(
                (#[trigger] gated(hits, margin, k)[i]).score,
                MIN_SCORE,
            ),
        !reaches(margin, MIN_MARGIN) ==> gated(hits, margin, k).len() == 0,
{
    let good = until_below(hits, MIN_SCORE);
    let out = gated(hits, margin, k);
    lemma_kept(hits, MIN_SCORE);
    law_one_hit_per_file(good);
    assert forall|i: int| 0 <= i < out.len() implies !below(
        (#[trigger] out[i]).score,
        MIN_SCORE,
    ) by {
        assert(out[i] == leaders(good)[i]);
        lemma_leader_is_hit(good, i);
        let j = choose|j: int| 0 <= j < good.len() && good[j] == leaders(good)[i];
        assert(good[j] == hits[j]);
    }
    assert forall|i: int, j: int| 0 <= i < j < out.len() implies (#[trigger] out[i]).chunk.file
        != (#[trigger] out[j]).chunk.file by {
        assert(out[i] == leaders(good)[i]);
        assert(out[j] == leaders(good)[j]);
    }
}

/// Being strict only takes away: a prompt is answered with the first of the hits
/// that a search on purpose for as many files gives.
pub proof fn law_strictness_only_takes_away(hits: Seq<Hit>, margin: u32, k: nat)
    ensures
        ({
            let kept = at_most(leaders(hits), k);
            let out = gated(hits, margin, k);
            out.len() <= kept.len() && out == kept.take(out.len() as int)
        }),
{
    let good = until_below(hits, MIN_SCORE);
    let kept = at_most(leaders(hits), k);
    let out = gated(hits, margin, k);
    lemma_kept(hits, MIN_SCORE);
    lemma_leaders_grow(hits, good.len() as int);
    assert(out =~= kept.take(out.len() as int));
}

/// A prompt about nothing in the store stays without an answer: no hits have no
/// linked files, the answer is empty, and nothing is put in front of the prompt.
pub proof fn law_no_hits_no_answer(g: GraphView, shown: Seq<Seq<char>>, limit: nat)
    ensures
        related(g, files_of(Seq::empty()), limit).len() == 0,
        prompt_text(Seq::empty(), shown, related(g, files_of(Seq::empty()), limit)).len() == 0,
        added_context(
            prompt_text(Seq::empty(), shown, related(g, files_of(Seq::empty()), limit)),
        ) is None,
{
    let stems = seed_stems(files_of(Seq::empty()));
    assert(stems.len() == 0);
    let none: Seq<Seq<char>> = Seq::empty();
    assert forall|x: Seq<char>| none.contains(x) <==> all_neighbours(g, stems).contains(x) by {
        assert(!links_along(g, stems).contains(x));
    }
    assert(is_sorting(none, all_neighbours(g, stems), closer(g, stems)));
    let r = ranking(g, stems);
    assert(is_sorting(r, all_neighbours(g, stems), closer(g, stems)));
    if r.len() > 0 {
        assert(r.contains(r[0]));
        assert(none.contains(r[0]));
    }
}

} // verus!
