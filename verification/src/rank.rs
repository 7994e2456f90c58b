//! Picking the best of several scored items.
use vstd::prelude::*;

verus! {

/// The position of the greatest score; of several equal ones the last.
pub open spec fn last_best(scores: Seq<int>) -> int
    recommends
        scores.len() > 0,
    decreases scores.len(),
{
    if scores.len() <= 1 {
        0
    } else {
        let best = last_best(scores.drop_last());
        if scores.last() >= scores[best] {
            scores.len() - 1
        } else {
            best
        }
    }
}

/// No score is greater than the best one, and no later score is as great.
pub proof fn lemma_last_best(scores: Seq<int>)
    requires
        scores.len() > 0,
    ensures
        0 <= last_best(scores) < scores.len(),
        forall|k: int| 0 <= k < scores.len() ==> #[trigger] scores[k] <= scores[last_best(scores)],
        forall|k: int| last_best(scores) < k < scores.len() ==> #[trigger] scores[k]
            < scores[last_best(scores)],
    decreases scores.len(),
{
    if scores.len() > 1 {
        let init = scores.drop_last();
        lemma_last_best(init);
        assert forall|k: int| 0 <= k < scores.len() implies #[trigger] scores[k] <= scores[last_best(
            scores,
        )] by {
            if k < init.len() {
                assert(init[k] == scores[k]);
            }
        }
        assert forall|k: int| last_best(scores) < k < scores.len() implies #[trigger] scores[k]
            < scores[last_best(scores)] by {
            if k < init.len() {
                assert(init[k] == scores[k]);
            }
        }
    }
}

/// The position of the best of the first `n + 1` scores, from that of the
/// first `n`.
pub proof fn lemma_last_best_step(scores: Seq<int>, n: int)
    requires
        0 < n < scores.len(),
    ensures
        0 <= last_best(scores.take(n)) < n,
        last_best(scores.take(n + 1)) == if scores[n] >= scores[last_best(scores.take(n))] {
            n
        } else {
            last_best(scores.take(n))
        },
{
    lemma_last_best(scores.take(n));
    assert(scores.take(n + 1).drop_last() =~= scores.take(n));
}

} // verus!
