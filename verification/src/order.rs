//! Facts about the partial order that a list of constraints stands for.

use vstd::prelude::*;
use crate::algo::{first_relation, precedes, comparable, ranks};

verus! {

/// Where the first pair that relates `a` and `b` stands, if `first_relation`
/// has an answer.
pub proof fn lemma_relation_witness(pairs: Seq<(int, int)>, a: int, b: int) -> (k: int)
    requires
        first_relation(pairs, a, b) is Some,
    ensures
        0 <= k < pairs.len(),
        first_relation(pairs, a, b) == Some(true) ==> pairs[k] == (a, b),
        first_relation(pairs, a, b) == Some(false) ==> pairs[k] == (b, a),
    decreases pairs.len(),
{
    if pairs[0] == (a, b) || pairs[0] == (b, a) {
        0
    } else {
        let k = lemma_relation_witness(pairs.drop_first(), a, b);
        k + 1
    }
}

/// A pair that relates `a` and `b` gives `first_relation` an answer.
pub proof fn lemma_related(pairs: Seq<(int, int)>, k: int, a: int, b: int)
    requires
        0 <= k < pairs.len(),
        pairs[k] == (a, b) || pairs[k] == (b, a),
    ensures
        first_relation(pairs, a, b) is Some,
    decreases pairs.len(),
{
    if pairs[0] == (a, b) || pairs[0] == (b, a) {
    } else {
        assert(pairs.drop_first()[k - 1] == pairs[k]);
        lemma_related(pairs.drop_first(), k - 1, a, b);
    }
}

/// What the pairs say of `b` and `a` is the reverse of what they say of `a`
/// and `b`.
pub proof fn lemma_reverse(pairs: Seq<(int, int)>, a: int, b: int)
    requires
        a != b,
    ensures
        first_relation(pairs, b, a) == match first_relation(pairs, a, b) {
            Some(less) => Some(!less),
            None => None,
        },
    decreases pairs.len(),
{
    if pairs.len() == 0 {
    } else if pairs[0] == (a, b) || pairs[0] == (b, a) {
    } else {
        lemma_reverse(pairs.drop_first(), a, b);
    }
}

/// Under a ranking, a job that directly precedes another has the lower rank.
pub proof fn lemma_precedes_ranked(
    rank: Seq<int>,
    count: int,
    pairs: Seq<(int, int)>,
    a: int,
    b: int,
)
    requires
        ranks(rank, count, pairs),
        precedes(pairs, a, b),
    ensures
        0 <= a < count,
        0 <= b < count,
        rank[a] < rank[b],
{
    let k = lemma_relation_witness(pairs, a, b);
    assert(pairs[k] == (a, b));
}

/// Under a ranking, each pair names a job and one that it directly precedes.
pub proof fn lemma_pair_precedes(rank: Seq<int>, count: int, pairs: Seq<(int, int)>, k: int)
    requires
        ranks(rank, count, pairs),
        0 <= k < pairs.len(),
    ensures
        precedes(pairs, pairs[k].0, pairs[k].1),
        pairs[k].0 != pairs[k].1,
{
    let a = pairs[k].0;
    let b = pairs[k].1;
    assert(pairs[k] == (a, b));
    assert(rank[a] < rank[b]);
    lemma_related(pairs, k, a, b);
    let less = first_relation(pairs, a, b).unwrap();
    assert(first_relation(pairs, a, b) == Some(less));
    if !less {
        let l = lemma_relation_witness(pairs, a, b);
        assert(pairs[l].0 == b && pairs[l].1 == a);
        assert(rank[b] < rank[a]);
    }
}

/// Under a ranking, two jobs that are comparable are ordered as their ranks
/// are.
pub proof fn lemma_comparable_ranked(
    rank: Seq<int>,
    count: int,
    pairs: Seq<(int, int)>,
    a: int,
    b: int,
)
    requires
        ranks(rank, count, pairs),
        comparable(pairs, a, b),
    ensures
        0 <= a < count,
        0 <= b < count,
        a != b,
        precedes(pairs, a, b) <==> rank[a] < rank[b],
        precedes(pairs, b, a) <==> rank[b] < rank[a],
        precedes(pairs, a, b) || precedes(pairs, b, a),
{
    let k = lemma_relation_witness(pairs, a, b);
    let less = first_relation(pairs, a, b).unwrap();
    assert(first_relation(pairs, a, b) == Some(less));
    assert(rank[pairs[k].0] < rank[pairs[k].1]);
    lemma_reverse(pairs, a, b);
}

/// The jobs before `upto` that are not scheduled.
pub open spec fn pending_upto(finish: Seq<Option<int>>, upto: int) -> int
    decreases upto,
{
    if upto <= 0 {
        0
    } else {
        pending_upto(finish, upto - 1) + if finish[upto - 1] is None {
            1int
        } else {
            0int
        }
    }
}

/// No more jobs are pending than there are.
pub proof fn lemma_pending_bounds(finish: Seq<Option<int>>, upto: int)
    requires
        0 <= upto,
    ensures
        0 <= pending_upto(finish, upto) <= upto,
    decreases upto,
{
    if upto > 0 {
        lemma_pending_bounds(finish, upto - 1);
    }
}

/// Scheduling a pending job leaves one job less pending.
pub proof fn lemma_pending_update(finish: Seq<Option<int>>, j: int, value: int, upto: int)
    requires
        0 <= j < finish.len(),
        0 <= upto <= finish.len(),
        finish[j] is None,
    ensures
        pending_upto(finish.update(j, Some(value)), upto) == pending_upto(finish, upto) - if j
            < upto {
            1int
        } else {
            0int
        },
    decreases upto,
{
    if upto > 0 {
        lemma_pending_update(finish, j, value, upto - 1);
    }
}

/// Among the jobs before `upto` that are not scheduled, one of lowest rank.
pub proof fn lemma_lowest_pending(rank: Seq<int>, finish: Seq<Option<int>>, upto: int) -> (j: int)
    requires
        0 <= upto <= finish.len(),
        pending_upto(finish, upto) > 0,
    ensures
        0 <= j < upto,
        finish[j] is None,
        forall|i: int| 0 <= i < upto && (#[trigger] finish[i]) is None ==> rank[j] <= rank[i],
    decreases upto,
{
    if pending_upto(finish, upto - 1) > 0 {
        let j = lemma_lowest_pending(rank, finish, upto - 1);
        if finish[upto - 1] is None && rank[upto - 1] < rank[j] {
            upto - 1
        } else {
            j
        }
    } else {
        lemma_pending_none(finish, upto - 1);
        upto - 1
    }
}

/// If no job is pending, every job is scheduled.
pub proof fn lemma_pending_none(finish: Seq<Option<int>>, upto: int)
    requires
        0 <= upto,
        pending_upto(finish, upto) <= 0,
    ensures
        forall|i: int| 0 <= i < upto ==> (#[trigger] finish[i]) is Some,
    decreases upto,
{
    if upto > 0 {
        lemma_pending_bounds(finish, upto - 1);
        lemma_pending_none(finish, upto - 1);
    }
}

/// If no job is scheduled, every job is pending.
pub proof fn lemma_pending_all(finish: Seq<Option<int>>, upto: int)
    requires
        0 <= upto <= finish.len(),
        forall|i: int| 0 <= i < upto ==> (#[trigger] finish[i]) is None,
    ensures
        pending_upto(finish, upto) == upto,
    decreases upto,
{
    if upto > 0 {
        lemma_pending_all(finish, upto - 1);
    }
}

} // verus!
