//! Scores, and the chunks in their order.
//!
//! A score is a single-precision number. It stands here as its bits, which say
//! of two numbers which is the greater.
use vstd::prelude::*;

use crate::chunk::{Chunk, ChunkView};
use crate::index::{Index, IndexView};
use crate::sort::{
    ints, is_sorting, lemma_sorting_exists, lemma_sorting_unique, sort_positions, strict_order,
};

verus! {

/// The bits are those of a number: anything else compares with nothing.
pub open spec fn is_number(score: u32) -> bool {
    score <= 0x7f80_0000 || 0x8000_0000 <= score <= 0xff80_0000
}

/// Where a number stands among the others: those below the sign bit rise with
/// their bits, those above it fall, and the two zeros stand at the same place.
pub open spec fn height(score: u32) -> int {
    if score < 0x8000_0000 {
        score as int
    } else {
        0x8000_0000 - score
    }
}

/// The one number is less than the other.
pub open spec fn below(a: u32, b: u32) -> bool {
    is_number(a) && is_number(b) && height(a) < height(b)
}

/// The one number is the other or greater.
pub open spec fn reaches(a: u32, b: u32) -> bool {
    is_number(a) && is_number(b) && height(a) >= height(b)
}

/// The better score first; of equal ones the one that stood first.
pub open spec fn better(scores: Seq<u32>) -> spec_fn(int, int) -> bool {
    |i: int, j: int|
        height(scores[i]) > height(scores[j]) || (height(scores[i]) == height(scores[j]) && i < j)
}

/// The places of some scores.
pub open spec fn places(scores: Seq<u32>) -> Set<int> {
    Set::new(|i: int| 0 <= i < scores.len())
}

/// The places of some scores, from the best to the worst.
pub open spec fn ranked(scores: Seq<u32>) -> Seq<int> {
    choose|o: Seq<int>| is_sorting(o, places(scores), better(scores))
}

/// A chunk that was found, with its score.
#[verifier::ext_equal]
pub struct Hit {
    pub score: u32,
    pub chunk: ChunkView,
}

/// What some found chunks hold.
pub open spec fn hit_views(v: Seq<(u32, &Chunk)>) -> Seq<Hit> {
    v.map_values(|h: (u32, &Chunk)| Hit { score: h.0, chunk: h.1@ })
}

/// The scores that have a chunk to go with.
pub open spec fn paired(index: IndexView, scores: Seq<u32>) -> Seq<u32> {
    if scores.len() <= index.chunks.len() {
        scores
    } else {
        scores.take(index.chunks.len() as int)
    }
}

/// Scores can be put in order: no two have to be compared of which one is no
/// number.
pub open spec fn comparable(scores: Seq<u32>) -> bool {
    scores.len() > 1 ==> forall|i: int| 0 <= i < scores.len() ==> is_number(#[trigger] scores[i])
}

/// All the chunks with their scores, from the best to the worst.
pub open spec fn all_hits(index: IndexView, scores: Seq<u32>) -> Seq<Hit> {
    ranked(paired(index, scores)).map_values(
        |i: int| Hit { score: scores[i], chunk: index.chunks[i] },
    )
}

/// At most so many of the first.
pub open spec fn at_most<A>(s: Seq<A>, k: nat) -> Seq<A> {
    if k <= s.len() {
        s.take(k as int)
    } else {
        s
    }
}

/// The score in the middle of the ranking, zero where there is none.
pub open spec fn median(hits: Seq<Hit>) -> u32 {
    if hits.len() == 0 {
        0
    } else {
        hits[hits.len() as int / 2].score
    }
}

/// Scores order their places.
pub proof fn lemma_better_orders(scores: Seq<u32>)
    ensures
        strict_order(better(scores)),
{
}

/// The ranking puts the places in the order of their scores, and no other
/// order does.
pub proof fn law_ranked_by_score(scores: Seq<u32>)
    ensures
        is_sorting(ranked(scores), places(scores), better(scores)),
        forall|order: Seq<int>| #[trigger]
            is_sorting(order, places(scores), better(scores)) ==> order == ranked(scores),
{
    let lt = better(scores);
    let ids = Seq::new(scores.len(), |i: int| i);
    lemma_better_orders(scores);
    assert forall|x: int| #[trigger] places(scores).contains(x) implies ids.contains(x) by {
        assert(ids[x] == x);
    }
    let o = lemma_sorting_exists(ids, places(scores), lt);
    assert(is_sorting(o, places(scores), lt));
    assert forall|order: Seq<int>| #[trigger]
        is_sorting(order, places(scores), lt) implies order == ranked(scores) by {
        lemma_sorting_unique(ranked(scores), order, places(scores), lt);
    }
}

/// The height of a score.
fn level(score: u32) -> (h: i64)
    ensures
        h == height(score),
{
    if score < 0x8000_0000 {
        score as i64
    } else {
        0x8000_0000i64 - score as i64
    }
}

/// Whether the bits are those of a number.
pub fn numeric(score: u32) -> (r: bool)
    ensures
        r == is_number(score),
{
    score <= 0x7f80_0000 || (0x8000_0000 <= score && score <= 0xff80_0000)
}

/// Whether the one number is less than the other.
pub fn is_below(a: u32, b: u32) -> (r: bool)
    ensures
        r == below(a, b),
{
    numeric(a) && numeric(b) && level(a) < level(b)
}

/// Whether the one number is the other or greater.
pub fn does_reach(a: u32, b: u32) -> (r: bool)
    ensures
        r == reaches(a, b),
{
    numeric(a) && numeric(b) && level(a) >= level(b)
}

/// The places of the first `n` scores, from the best to the worst.
pub(crate) fn rank(scores: &Vec<u32>, n: usize) -> (order: Vec<usize>)
    requires
        n <= scores@.len(),
    ensures
        ints(order@) == ranked(scores@.take(n as int)),
        is_sorting(ints(order@), places(scores@.take(n as int)), better(scores@.take(n as int))),
{
    let ghost sv = scores@.take(n as int);
    let mut ids: Vec<usize> = Vec::new();
    let mut i: usize = 0;
    while i < n
        invariant
            i <= n,
            ids@.len() == i,
            forall|k: int| 0 <= k < i ==> #[trigger] ids@[k] == k,
        decreases n - i,
    {
        ids.push(i);
        i = i + 1;
    }
    let before = |a: usize, b: usize| -> (r: bool)
        requires
            a < scores@.len(),
            b < scores@.len(),
        ensures
            r == (height(scores@[a as int]) > height(scores@[b as int]) || (height(
                scores@[a as int],
            ) == height(scores@[b as int]) && a < b)),
        {
            level(scores[a]) > level(scores[b]) || (level(scores[a]) == level(scores[b]) && a < b)
        };
    proof {
        lemma_better_orders(sv);
        assert forall|a: usize| ids@.contains(a) implies a < n by {
            let k = choose|k: int| 0 <= k < ids@.len() && ids@[k] == a;
            assert(ids@[k] == k);
        }
    }
    let order = sort_positions(&ids, before, Ghost(better(sv)));
    proof {
        assert forall|x: int| ints(order@).contains(x) <==> places(sv).contains(x) by {
            if ints(order@).contains(x) {
                assert(ints(ids@).to_set().contains(x));
                let k = choose|k: int| 0 <= k < ints(ids@).len() && ints(ids@)[k] == x;
                assert(ids@[k] == k);
            }
            if places(sv).contains(x) {
                assert(ints(ids@)[x] == x);
                assert(ints(ids@).contains(x));
                assert(ints(ids@).to_set().contains(x));
            }
        }
        assert(is_sorting(ints(order@), places(sv), better(sv)));
        law_ranked_by_score(sv);
    }
    order
}

impl Index {
    /// The best `k` chunks by these scores, one for each embedding in turn, and
    /// the score in the middle of them all. The best stands first, and of equal
    /// scores the one whose chunk stands first.
    ///
    /// A height alone does not tell a question about something known from text
    /// that is merely text: the gap between the best score and the middle one
    /// does.
    pub fn search_scored(&self, scores: &Vec<u32>, k: usize) -> (r: (Vec<(u32, &Chunk)>, u32))
        requires
            comparable(paired(self@, scores@)),
        ensures
            hit_views(r.0@) == at_most(all_hits(self@, scores@), k as nat),
            r.1 == median(all_hits(self@, scores@)),
    {
        let n: usize = if scores.len() <= self.chunks.len() {
            scores.len()
        } else {
            self.chunks.len()
        };
        proof {
            assert(scores@.take(n as int) =~= paired(self@, scores@));
        }
        let ghost sv = paired(self@, scores@);
        let order = rank(scores, n);
        let ghost all = all_hits(self@, scores@);
        proof {
            assert forall|i: int| 0 <= i < order@.len() implies (#[trigger] order@[i]) < n by {
                assert(ints(order@)[i] == order@[i]);
                assert(ints(order@).contains(order@[i] as int));
                assert(places(sv).contains(order@[i] as int));
            }
            assert forall|i: int| 0 <= i < order@.len() implies #[trigger] all[i] == (Hit {
                score: scores@[order@[i] as int],
                chunk: self.chunks@[order@[i] as int]@,
            }) by {
                assert(ints(order@)[i] == order@[i]);
            }
        }
        let total: usize = order.len();
        let middle: u32 = if total == 0 {
            0
        } else {
            scores[order[total / 2]]
        };
        let taken: usize = if k <= total {
            k
        } else {
            total
        };
        let mut hits: Vec<(u32, &Chunk)> = Vec::new();
        let mut i: usize = 0;
        while i < taken
            invariant
                i <= taken <= total,
                total == order@.len(),
                total == all.len(),
                n <= scores@.len(),
                n <= self.chunks@.len(),
                forall|j: int| 0 <= j < order@.len() ==> (#[trigger] order@[j]) < n,
                forall|j: int|
                    0 <= j < order@.len() ==> #[trigger] all[j] == (Hit {
                        score: scores@[order@[j] as int],
                        chunk: self.chunks@[order@[j] as int]@,
                    }),
                hit_views(hits@) == all.take(i as int),
            decreases taken - i,
        {
            let at: usize = order[i];
            let ghost had = hits@;
            hits.push((scores[at], &self.chunks[at]));
            proof {
                assert(hit_views(hits@) =~= hit_views(had).push(all[i as int]));
                assert(all.take(i + 1) =~= all.take(i as int).push(all[i as int]));
            }
            i = i + 1;
        }
        proof {
            assert(all.take(total as int) =~= all);
        }
        (hits, middle)
    }

    /// The best `k` chunks by these scores, one for each embedding in turn.
    pub fn search(&self, scores: &Vec<u32>, k: usize) -> (hits: Vec<(u32, &Chunk)>)
        requires
            comparable(paired(self@, scores@)),
        ensures
            hit_views(hits@) == at_most(all_hits(self@, scores@), k as nat),
    {
        let (hits, _) = self.search_scored(scores, k);
        hits
    }
}

} // verus!
