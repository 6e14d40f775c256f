//! Judging a model by what it ranks first.
use vstd::prelude::*;

use crate::answer_laws::{comes_first, law_the_ranking_is_stable};
use crate::search::{better, comparable, height, law_ranked_by_score, places, rank, ranked};
use crate::sort::{ints, is_sorting};
use crate::strmap::is_key;
use crate::text::texts;

verus! {

/// How a query came out.
#[derive(Clone, Copy, Debug, PartialEq, Eq)]
pub struct Outcome {
    /// The place of the passage that was ranked first.
    pub first: usize,
    /// The place of the passage that was ranked second, if there is one.
    pub second: Option<usize>,
    /// The rank of the right passage, from one on.
    pub rank: usize,
}

/// The label of the passage at this rank.
pub open spec fn label_at(labels: Seq<Seq<char>>, scores: Seq<u32>, r: int) -> Seq<char> {
    labels[ranked(scores)[r]]
}

/// The outcome of a query: what was ranked first and second, and the first rank
/// that has the label `want`.
pub open spec fn is_outcome(
    labels: Seq<Seq<char>>,
    scores: Seq<u32>,
    want: Seq<char>,
    o: Outcome,
) -> bool {
    let order = ranked(scores);
    &&& 0 < order.len()
    &&& o.first == order[0]
    &&& match o.second {
        Some(s) => 1 < order.len() && s == order[1],
        None => order.len() == 1,
    }
    &&& 1 <= o.rank <= order.len()
    &&& label_at(labels, scores, o.rank - 1) == want
    &&& forall|r: int| 0 <= r < o.rank - 1 ==> #[trigger] label_at(labels, scores, r) != want
}

/// How a query came out, whose right passage has the label `want`. There is
/// an outcome if and only if some passage with a score has it.
pub fn judge(labels: &Vec<String>, scores: &Vec<u32>, want: &str) -> (r: Option<Outcome>)
    requires
        scores@.len() <= labels@.len(),
        comparable(scores@),
    ensures
        match r {
            Some(o) => is_outcome(texts(labels@), scores@, want@, o),
            None => !texts(labels@).take(scores@.len() as int).contains(want@),
        },
{
    let n: usize = scores.len();
    let order = rank(scores, n);
    let ghost lv = texts(labels@);
    let ghost all = ranked(scores@);
    proof {
        assert(scores@.take(n as int) =~= scores@);
        law_ranked_by_score(scores@);
        assert forall|k: int| 0 <= k < order@.len() implies (#[trigger] order@[k]) < n by {
            assert(ints(order@)[k] == order@[k]);
            assert(ints(order@).contains(order@[k] as int));
            assert(places(scores@).contains(order@[k] as int));
        }
    }
    let total: usize = order.len();
    let mut i: usize = 0;
    while i < total
        invariant
            total == order@.len(),
            i <= total,
            n <= labels@.len(),
            lv == texts(labels@),
            all == ranked(scores@),
            all == ints(order@),
            forall|k: int| 0 <= k < order@.len() ==> (#[trigger] order@[k]) < n,
            forall|k: int| 0 <= k < i ==> #[trigger] label_at(lv, scores@, k) != want@,
        decreases total - i,
    {
        let at: usize = order[i];
        proof {
            assert(all[i as int] == at);
            assert(label_at(lv, scores@, i as int) == labels@[at as int]@);
        }
        if is_key(&labels[at], want) {
            let second: Option<usize> = if total > 1 {
                Some(order[1])
            } else {
                None
            };
            return Some(Outcome { first: order[0], second, rank: i + 1 });
        }
        i = i + 1;
    }
    proof {
        if lv.take(n as int).contains(want@) {
            let p = choose|p: int| 0 <= p < n && lv.take(n as int)[p] == want@;
            assert(lv[p] == want@);
            assert(places(scores@).contains(p));
            assert(is_sorting(all, places(scores@), better(scores@)));
            assert(all.contains(p));
            let k = choose|k: int| 0 <= k < all.len() && all[k] == p;
            assert(label_at(lv, scores@, k) == want@);
        }
    }
    None
}

/// The outcomes that are right: those that rank the right passage first.
pub open spec fn right(outcomes: Seq<Outcome>) -> Seq<Outcome> {
    outcomes.filter(|o: Outcome| o.rank == 1)
}

/// How many outcomes are right.
pub fn right_answers(outcomes: &Vec<Outcome>) -> (n: usize)
    ensures
        n == right(outcomes@).len(),
{
    let total: usize = outcomes.len();
    let mut n: usize = 0;
    let mut i: usize = 0;
    proof {
        reveal(Seq::filter);
        assert(right(outcomes@.take(0)).len() == 0);
    }
    while i < total
        invariant
            total == outcomes@.len(),
            i <= total,
            n <= i,
            n == right(outcomes@.take(i as int)).len(),
        decreases total - i,
    {
        proof {
            reveal(Seq::filter);
            assert(outcomes@.take(i + 1).drop_last() =~= outcomes@.take(i as int));
            assert(outcomes@.take(i + 1).last() == outcomes@[i as int]);
        }
        if outcomes[i].rank == 1 {
            n = n + 1;
        }
        i = i + 1;
    }
    proof {
        assert(outcomes@.take(total as int) =~= outcomes@);
    }
    n
}

/// A query came out right exactly where the right passage is ranked first.
pub proof fn law_right_means_first(
    labels: Seq<Seq<char>>,
    scores: Seq<u32>,
    want: Seq<char>,
    o: Outcome,
)
    requires
        is_outcome(labels, scores, want, o),
    ensures
        o.rank == 1 <==> labels[o.first as int] == want,
{
    assert(label_at(labels, scores, 0) == labels[o.first as int]);
}

/// What is ranked first has the best score, what is ranked second the best of
/// the others, and the rank of the right passage counts those that were put
/// before it: none of them has its label, and none has a worse score.
pub proof fn law_ranks_go_by_score(
    labels: Seq<Seq<char>>,
    scores: Seq<u32>,
    want: Seq<char>,
    o: Outcome,
    i: int,
)
    requires
        is_outcome(labels, scores, want, o),
        0 <= i < scores.len(),
    ensures
        0 <= o.first < scores.len(),
        height(scores[o.first as int]) >= height(scores[i]),
        o.second matches Some(s) ==> 0 <= s < scores.len() && s != o.first && (i != o.first
            ==> height(scores[s as int]) >= height(scores[i])),
        o.second is None <==> scores.len() == 1,
        labels[i] == want ==> ranked(scores).skip(o.rank - 1).contains(i),
        ranked(scores).len() == scores.len(),
        labels[ranked(scores)[o.rank - 1]] == want,
{
    let order = ranked(scores);
    law_the_ranking_is_stable(scores);
    assert(order.contains(i));
    let k = choose|k: int| 0 <= k < order.len() && order[k] == i;
    law_ranked_by_score(scores);
    assert(order.contains(order[0]));
    assert(places(scores).contains(order[0]));
    if k > 0 {
        assert(comes_first(scores, order[0], order[k]));
    }
    if order.len() > 1 {
        assert(comes_first(scores, order[0], order[1]));
        if k > 1 {
            assert(comes_first(scores, order[1], order[k]));
        }
        assert(better(scores)(order[0], order[1]));
    }
    assert(label_at(labels, scores, o.rank - 1) == want);
    if labels[i] == want {
        assert(label_at(labels, scores, k) == want);
        assert(k >= o.rank - 1);
        assert(order.skip(o.rank - 1)[k - (o.rank - 1)] == i);
    }
}

/// Counting right answers counts each that ranks the right passage first, once.
pub proof fn law_right_answers_add_up(outcomes: Seq<Outcome>, o: Outcome)
    ensures
        right(outcomes.push(o)).len() == right(outcomes).len() + if o.rank == 1 {
            1int
        } else {
            0int
        },
        right(Seq::empty()).len() == 0,
{
    reveal(Seq::filter);
    assert(outcomes.push(o).drop_last() =~= outcomes);
}

} // verus!
