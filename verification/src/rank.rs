//! Ranking by score: which of the scored items come out, and in what order.
//!
//! A score is a single-precision bit pattern.  Higher scores come first, a
//! NaN comes after every other score, and of two items that rank alike the
//! one with the lower index comes first.

use vstd::prelude::*;
use crate::ieee::{is_nan_single, key_single, single_is_nan, single_key};

verus! {

/// The integer by which a score ranks: its ordering key, and for a NaN a
/// number below every key.
pub open spec fn rank_key(bits: u32) -> int {
    if single_is_nan(bits) {
        -0x8000_0000
    } else {
        single_key(bits)
    }
}

/// Whether item `i` comes before item `j`.
pub open spec fn outranks(scores: Seq<u32>, i: int, j: int) -> bool {
    ||| rank_key(scores[i]) > rank_key(scores[j])
    ||| rank_key(scores[i]) == rank_key(scores[j]) && i < j
}

/// Whether `order` is the ranking of the eligible items, cut to `top_k`:
/// it holds eligible items only, each before the next, and an eligible item
/// is missing only where `order` is full and every item in it comes before
/// the missing one.
pub open spec fn is_ranking(
    scores: Seq<u32>,
    eligible: Seq<bool>,
    top_k: nat,
    order: Seq<usize>,
) -> bool {
    &&& order.len() <= top_k
    &&& forall|r: int|
        0 <= r < order.len() ==> 0 <= #[trigger] order[r] < eligible.len()
            && eligible[order[r] as int]
    &&& forall|r: int, s: int|
        0 <= r < s < order.len() ==> outranks(
            scores,
            #[trigger] order[r] as int,
            #[trigger] order[s] as int,
        )
    &&& forall|i: int|
        0 <= i < eligible.len() && #[trigger] eligible[i] ==> order.contains(i as usize) || (
        order.len() == top_k && forall|r: int|
            0 <= r < order.len() ==> outranks(scores, #[trigger] order[r] as int, i))
}

/// The integer by which a score ranks.
pub fn key_of_score(bits: u32) -> (key: i64)
    ensures
        key == rank_key(bits),
{
    if is_nan_single(bits) {
        -0x8000_0000
    } else {
        key_single(bits)
    }
}

/// An item that is not eligible, or that a full ranking has no room for,
/// leaves the ranking as it is.
pub proof fn lemma_ranking_skips(
    scores: Seq<u32>,
    eligible: Seq<bool>,
    top_k: nat,
    order: Seq<usize>,
    i: int,
)
    requires
        0 <= i < eligible.len(),
        is_ranking(scores, eligible.take(i), top_k, order),
        !eligible[i] || (order.len() == top_k && (order.len() == 0 || rank_key(
            scores[order.last() as int],
        ) >= rank_key(scores[i]))),
    ensures
        is_ranking(scores, eligible.take(i + 1), top_k, order),
{
    let seen = eligible.take(i);
    let next = eligible.take(i + 1);
    assert forall|r: int| 0 <= r < order.len() implies 0 <= #[trigger] order[r] < next.len()
        && next[order[r] as int] by {
        assert(seen[order[r] as int]);
    }
    assert forall|j: int| 0 <= j < next.len() && #[trigger] next[j] implies order.contains(
        j as usize,
    ) || (order.len() == top_k && forall|r: int|
        0 <= r < order.len() ==> outranks(scores, #[trigger] order[r] as int, j)) by {
        if j < i {
            assert(seen[j]);
        } else {
            assert forall|r: int| 0 <= r < order.len() implies outranks(
                scores,
                #[trigger] order[r] as int,
                j,
            ) by {
                assert(order[r] < seen.len());
                if r < order.len() - 1 {
                    assert(outranks(scores, order[r] as int, order[order.len() - 1] as int));
                }
            }
        }
    }
}

/// An eligible item put at its place, after the items that rank at least as
/// high and before those that rank lower, gives the ranking with that item;
/// where the ranking was full its last item leaves.
pub proof fn lemma_ranking_inserts(
    scores: Seq<u32>,
    eligible: Seq<bool>,
    top_k: nat,
    order: Seq<usize>,
    i: int,
    place: int,
)
    requires
        0 <= i < eligible.len(),
        i <= usize::MAX,
        eligible[i],
        is_ranking(scores, eligible.take(i), top_k, order),
        0 <= place <= order.len(),
        place < top_k,
        forall|r: int|
            place <= r < order.len() ==> rank_key(scores[#[trigger] order[r] as int]) < rank_key(
                scores[i],
            ),
        place > 0 ==> rank_key(scores[order[place - 1] as int]) >= rank_key(scores[i]),
    ensures
        is_ranking(
            scores,
            eligible.take(i + 1),
            top_k,
            (if order.len() == top_k {
                order.drop_last()
            } else {
                order
            }).insert(place, i as usize),
        ),
{
    let seen = eligible.take(i);
    let next = eligible.take(i + 1);
    let kept = if order.len() == top_k {
        order.drop_last()
    } else {
        order
    };
    let after = kept.insert(place, i as usize);
    assert forall|r: int| 0 <= r < order.len() implies order[r] < i && eligible[order[r] as int] by {
        assert(order[r] < seen.len() && seen[order[r] as int]);
    }
    assert forall|r: int| 0 <= r < place implies rank_key(scores[#[trigger] order[r] as int])
        >= rank_key(scores[i]) by {
        if r < place - 1 {
            assert(outranks(scores, order[r] as int, order[place - 1] as int));
        }
    }
    assert forall|r: int| 0 <= r < after.len() implies after[r] == (if r < place {
        order[r]
    } else if r == place {
        i as usize
    } else {
        order[r - 1]
    }) by {}
    assert forall|r: int| 0 <= r < after.len() implies 0 <= #[trigger] after[r] < next.len()
        && next[after[r] as int] by {}
    assert forall|r: int, s: int| 0 <= r < s < after.len() implies outranks(
        scores,
        #[trigger] after[r] as int,
        #[trigger] after[s] as int,
    ) by {
        if s < place {
            assert(outranks(scores, order[r] as int, order[s] as int));
        } else if s == place {
        } else if r < place {
            assert(outranks(scores, order[r] as int, order[s - 1] as int));
        } else if r == place {
        } else {
            assert(outranks(scores, order[r - 1] as int, order[s - 1] as int));
        }
    }
    assert forall|j: int| 0 <= j < next.len() && #[trigger] next[j] implies after.contains(
        j as usize,
    ) || (after.len() == top_k && forall|r: int|
        0 <= r < after.len() ==> outranks(scores, #[trigger] after[r] as int, j)) by {
        if j == i {
            assert(after[place] == i as usize);
        } else {
            assert(seen[j]);
            if order.contains(j as usize) {
                let r = choose|r: int| 0 <= r < order.len() && order[r] == j as usize;
                if r < place {
                    assert(after[r] == j as usize);
                } else if r < kept.len() {
                    assert(after[r + 1] == j as usize);
                } else {
                    lemma_outranked_by_all(scores, order, after, place, i, j);
                }
            } else {
                assert(outranks(scores, order[order.len() - 1] as int, j));
                lemma_outranked_by_all(scores, order, after, place, i, j);
            }
        }
    }
}

/// What ranks after the last item of a full ranking, or is that item, ranks
/// after every item of the ranking that a better item was put into.
proof fn lemma_outranked_by_all(
    scores: Seq<u32>,
    order: Seq<usize>,
    after: Seq<usize>,
    place: int,
    i: int,
    j: int,
)
    requires
        order.len() > 0,
        0 <= place < order.len(),
        0 <= i <= usize::MAX,
        after == order.drop_last().insert(place, i as usize),
        forall|r: int, s: int|
            0 <= r < s < order.len() ==> outranks(
                scores,
                #[trigger] order[r] as int,
                #[trigger] order[s] as int,
            ),
        rank_key(scores[order.last() as int]) < rank_key(scores[i]),
        j == order.last() || outranks(scores, order.last() as int, j),
    ensures
        forall|r: int| 0 <= r < after.len() ==> outranks(scores, #[trigger] after[r] as int, j),
{
    let last = order.len() - 1;
    assert forall|r: int| 0 <= r < after.len() implies outranks(
        scores,
        #[trigger] after[r] as int,
        j,
    ) by {
        if r < place {
            assert(after[r] == order[r]);
            assert(outranks(scores, order[r] as int, order[last] as int));
        } else if r == place {
            assert(after[r] == i as usize);
        } else {
            assert(after[r] == order[r - 1]);
            assert(outranks(scores, order[r - 1] as int, order[last] as int));
        }
    }
}

/// The ranking of the eligible items, cut to `top_k`, as indices into
/// `scores`.
pub fn top_ranked(scores: &[u32], eligible: &Vec<bool>, top_k: usize) -> (order: Vec<usize>)
    requires
        scores@.len() == eligible@.len(),
    ensures
        is_ranking(scores@, eligible@, top_k as nat, order@),
{
    let mut order: Vec<usize> = Vec::new();
    let mut i: usize = 0;
    while i < scores.len()
        invariant
            i <= scores.len(),
            scores@.len() == eligible@.len(),
            is_ranking(scores@, eligible@.take(i as int), top_k as nat, order@),
        decreases scores.len() - i,
    {
        let ghost before = order@;
        if eligible[i] && top_k > 0 {
            let key = key_of_score(scores[i]);
            let mut place: usize = order.len();
            assert(eligible@.take(i as int).len() == i);
            while place > 0 && key_of_score(scores[order[place - 1]]) < key
                invariant
                    place <= order.len(),
                    order@ == before,
                    i < scores.len(),
                    key == rank_key(scores@[i as int]),
                    forall|r: int| 0 <= r < order.len() ==> #[trigger] order@[r] < i,
                    forall|r: int|
                        place <= r < order.len() ==> rank_key(scores@[#[trigger] order@[r] as int])
                            < key,
                decreases place,
            {
                place = place - 1;
            }
            if place < top_k {
                proof {
                    lemma_ranking_inserts(
                        scores@,
                        eligible@,
                        top_k as nat,
                        before,
                        i as int,
                        place as int,
                    );
                }
                if order.len() == top_k {
                    order.pop();
                }
                order.insert(place, i);
            } else {
                proof {
                    lemma_ranking_skips(scores@, eligible@, top_k as nat, before, i as int);
                }
            }
        } else {
            proof {
                lemma_ranking_skips(scores@, eligible@, top_k as nat, before, i as int);
            }
        }
        i = i + 1;
    }
    assert(eligible@.take(scores@.len() as int) == eligible@);
    order
}

/// Two rankings of the same items agree up to the length of the shorter.
proof fn lemma_rankings_agree(
    scores: Seq<u32>,
    eligible: Seq<bool>,
    top_k: nat,
    a: Seq<usize>,
    b: Seq<usize>,
    upto: int,
)
    requires
        is_ranking(scores, eligible, top_k, a),
        is_ranking(scores, eligible, top_k, b),
        0 <= upto <= a.len(),
        upto <= b.len(),
    ensures
        forall|r: int| 0 <= r < upto ==> a[r] == b[r],
    decreases upto,
{
    if upto > 0 {
        lemma_rankings_agree(scores, eligible, top_k, a, b, upto - 1);
        let r = upto - 1;
        if a[r] != b[r] {
            lemma_not_both_first(scores, eligible, top_k, a, b, r);
            lemma_not_both_first(scores, eligible, top_k, b, a, r);
        }
    }
}

/// Where two rankings agree before place `r`, the item of the first at `r`
/// does not come before the item of the second at `r`.
proof fn lemma_not_both_first(
    scores: Seq<u32>,
    eligible: Seq<bool>,
    top_k: nat,
    a: Seq<usize>,
    b: Seq<usize>,
    r: int,
)
    requires
        is_ranking(scores, eligible, top_k, a),
        is_ranking(scores, eligible, top_k, b),
        0 <= r < a.len(),
        r < b.len(),
        forall|t: int| 0 <= t < r ==> a[t] == b[t],
    ensures
        !outranks(scores, a[r] as int, b[r] as int),
{
    let i = a[r] as int;
    if outranks(scores, i, b[r] as int) {
        assert(eligible[i]);
        if b.contains(i as usize) {
            let s = choose|s: int| 0 <= s < b.len() && b[s] == i as usize;
            if s < r {
                assert(a[s] == b[s]);
                assert(outranks(scores, a[s] as int, a[r] as int));
            } else if s > r {
                assert(outranks(scores, b[r] as int, b[s] as int));
            }
        } else {
            assert(outranks(scores, b[r] as int, i));
        }
    }
}

/// There is one ranking only: the four conditions of [`is_ranking`] leave no
/// choice.
pub proof fn lemma_ranking_unique(
    scores: Seq<u32>,
    eligible: Seq<bool>,
    top_k: nat,
    a: Seq<usize>,
    b: Seq<usize>,
)
    requires
        is_ranking(scores, eligible, top_k, a),
        is_ranking(scores, eligible, top_k, b),
    ensures
        a == b,
{
    if a.len() <= b.len() {
        lemma_rankings_agree(scores, eligible, top_k, a, b, a.len() as int);
        lemma_same_length(scores, eligible, top_k, a, b);
    } else {
        lemma_rankings_agree(scores, eligible, top_k, a, b, b.len() as int);
        lemma_same_length(scores, eligible, top_k, b, a);
    }
    assert(a =~= b);
}

/// A ranking that starts as another is no longer than it.
proof fn lemma_same_length(
    scores: Seq<u32>,
    eligible: Seq<bool>,
    top_k: nat,
    a: Seq<usize>,
    b: Seq<usize>,
)
    requires
        is_ranking(scores, eligible, top_k, a),
        is_ranking(scores, eligible, top_k, b),
        a.len() <= b.len(),
        forall|r: int| 0 <= r < a.len() ==> a[r] == b[r],
    ensures
        a.len() == b.len(),
{
    if a.len() < b.len() {
        let extra = b[a.len() as int];
        assert(eligible[extra as int]);
        if a.contains(extra) {
            let s = choose|s: int| 0 <= s < a.len() && a[s] == extra;
            assert(b[s] == a[s]);
            assert(outranks(scores, b[s] as int, b[a.len() as int] as int));
        }
    }
}

/// In a ranking no score ranks below a later one; where neither of two
/// scores is a NaN, the earlier is at least the later as numbers compare.
pub proof fn lemma_ranking_descends(
    scores: Seq<u32>,
    eligible: Seq<bool>,
    top_k: nat,
    order: Seq<usize>,
    r: int,
    s: int,
)
    requires
        is_ranking(scores, eligible, top_k, order),
        0 <= r < s < order.len(),
    ensures
        rank_key(scores[order[r] as int]) >= rank_key(scores[order[s] as int]),
        !single_is_nan(scores[order[r] as int]) && !single_is_nan(scores[order[s] as int])
            ==> crate::ieee::single_ge(scores[order[r] as int], scores[order[s] as int]),
        single_is_nan(scores[order[r] as int]) ==> single_is_nan(scores[order[s] as int]),
{
    assert(outranks(scores, order[r] as int, order[s] as int));
}

/// A ranking is no longer than `top_k` and than the eligible items are
/// many: no item occurs twice in it.  It is full or holds every eligible
/// item.
pub proof fn lemma_ranking_length(
    scores: Seq<u32>,
    eligible: Seq<bool>,
    top_k: nat,
    order: Seq<usize>,
)
    requires
        is_ranking(scores, eligible, top_k, order),
    ensures
        order.no_duplicates(),
        order.len() <= top_k,
        order.len() <= count_set(eligible),
        order.len() == top_k || forall|i: int|
            0 <= i < eligible.len() && #[trigger] eligible[i] ==> order.contains(i as usize),
{
    assert forall|r: int, s: int| 0 <= r < order.len() && 0 <= s < order.len() && r != s implies order[r]
        != order[s] by {
        if r < s {
            assert(outranks(scores, order[r] as int, order[s] as int));
        } else {
            assert(outranks(scores, order[s] as int, order[r] as int));
        }
    }
    lemma_distinct_set(order, eligible);
}

/// In a list that descends by rank there is a place for every score: from
/// it on the items rank lower than the score, before it they rank at least
/// as high.
proof fn lemma_place_exists(scores: Seq<u32>, order: Seq<usize>, key: int, upto: int) -> (place:
    int)
    requires
        0 <= upto <= order.len(),
        forall|r: int|
            upto <= r < order.len() ==> rank_key(scores[#[trigger] order[r] as int]) < key,
    ensures
        0 <= place <= upto,
        forall|r: int|
            place <= r < order.len() ==> rank_key(scores[#[trigger] order[r] as int]) < key,
        place > 0 ==> rank_key(scores[order[place - 1] as int]) >= key,
    decreases upto,
{
    if upto > 0 && rank_key(scores[order[upto - 1] as int]) < key {
        lemma_place_exists(scores, order, key, upto - 1)
    } else {
        upto
    }
}

/// The first `upto` items have a ranking.
proof fn lemma_prefix_ranking_exists(
    scores: Seq<u32>,
    eligible: Seq<bool>,
    top_k: nat,
    upto: int,
) -> (order: Seq<usize>)
    requires
        scores.len() == eligible.len(),
        0 <= upto <= eligible.len(),
        eligible.len() <= usize::MAX,
    ensures
        is_ranking(scores, eligible.take(upto), top_k, order),
    decreases upto,
{
    if upto == 0 {
        let order = Seq::<usize>::empty();
        assert(is_ranking(scores, eligible.take(0), top_k, order));
        order
    } else {
        let i = upto - 1;
        let before = lemma_prefix_ranking_exists(scores, eligible, top_k, i);
        let place = lemma_place_exists(scores, before, rank_key(scores[i]), before.len() as int);
        if eligible[i] && place < top_k {
            lemma_ranking_inserts(scores, eligible, top_k, before, i, place);
            (if before.len() == top_k {
                before.drop_last()
            } else {
                before
            }).insert(place, i as usize)
        } else {
            lemma_ranking_skips(scores, eligible, top_k, before, i);
            before
        }
    }
}

/// Every list of scored items has a ranking.
pub proof fn lemma_ranking_exists(scores: Seq<u32>, eligible: Seq<bool>, top_k: nat)
    requires
        scores.len() == eligible.len(),
        eligible.len() <= usize::MAX,
    ensures
        exists|order: Seq<usize>| is_ranking(scores, eligible, top_k, order),
{
    let order = lemma_prefix_ranking_exists(scores, eligible, top_k, eligible.len() as int);
    assert(eligible.take(eligible.len() as int) == eligible);
}

/// How many of the flags are set.
pub open spec fn count_set(flags: Seq<bool>) -> nat
    decreases flags.len(),
{
    if flags.len() == 0 {
        0
    } else {
        count_set(flags.drop_last()) + if flags.last() {
            1nat
        } else {
            0nat
        }
    }
}

/// Distinct places whose flags are set are no more than the flags that are
/// set.
pub proof fn lemma_distinct_set(items: Seq<usize>, flags: Seq<bool>)
    requires
        items.no_duplicates(),
        forall|r: int| 0 <= r < items.len() ==> #[trigger] items[r] < flags.len() && flags[items[r] as int],
    ensures
        items.len() <= count_set(flags),
    decreases flags.len(),
{
    if items.len() > 0 {
        if flags.len() == 0 {
            assert(items[0] < flags.len());
        } else {
            let top = flags.len() - 1;
            let fewer = flags.drop_last();
            if exists|at: int| 0 <= at < items.len() && items[at] == top {
                let at = choose|at: int| 0 <= at < items.len() && items[at] == top;
                let rest = items.remove(at);
                assert forall|r: int| 0 <= r < rest.len() implies #[trigger] rest[r] < fewer.len()
                    && fewer[rest[r] as int] by {
                    let r0 = if r < at { r } else { r + 1 };
                    assert(rest[r] == items[r0]);
                    assert(items[r0] != items[at]);
                }
                assert(rest.no_duplicates()) by {
                    assert forall|r: int, s: int|
                        0 <= r < rest.len() && 0 <= s < rest.len() && r != s implies rest[r]
                        != rest[s] by {
                        let r0 = if r < at { r } else { r + 1 };
                        let s0 = if s < at { s } else { s + 1 };
                        assert(rest[r] == items[r0] && rest[s] == items[s0]);
                    }
                }
                lemma_distinct_set(rest, fewer);
                assert(flags[items[at] as int]);
            } else {
                assert forall|r: int| 0 <= r < items.len() implies #[trigger] items[r] < fewer.len()
                    && fewer[items[r] as int] by {
                    assert(items[r] != top);
                }
                lemma_distinct_set(items, fewer);
            }
        }
    }
}

} // verus!
