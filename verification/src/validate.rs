//! Whether an instance is well formed.

use vstd::prelude::*;
use crate::algo::{Instance, acyclic, ranks, pairs_of};
use crate::error::SchedulingError;
use crate::order::{pending_upto, lemma_pending_all, lemma_pending_update, lemma_pending_none, lemma_lowest_pending};

verus! {

/// Job `j` waits for a job that has no rank yet: some pair names it second
/// and such a job first.
pub open spec fn blocked(pairs: Seq<(int, int)>, rank: Seq<Option<int>>, j: int) -> bool {
    exists|k: int| 0 <= k < pairs.len() && (#[trigger] pairs[k]).1 == j && rank[pairs[k].0] is None
}

/// The pairs name jobs below `count` only.
pub open spec fn in_range(pairs: Seq<(int, int)>, count: int) -> bool {
    forall|k: int|
        0 <= k < pairs.len() ==> 0 <= (#[trigger] pairs[k]).0 < count && 0 <= pairs[k].1 < count
}

/// If every job without a rank waits for another one, the pairs hold a
/// cycle.
proof fn lemma_stuck(pairs: Seq<(int, int)>, rank: Seq<Option<int>>, count: int)
    requires
        rank.len() == count,
        pending_upto(rank, count) > 0,
        forall|j: int| 0 <= j < count && (#[trigger] rank[j]) is None ==> blocked(pairs, rank, j),
    ensures
        !acyclic(count, pairs),
{
    if acyclic(count, pairs) {
        let order = choose|order: Seq<int>| #[trigger] ranks(order, count, pairs);
        let j = lemma_lowest_pending(order, rank, count);
        assert(blocked(pairs, rank, j));
        let k = choose|k: int| 0 <= k < pairs.len() && (#[trigger] pairs[k]).1 == j && rank[pairs[k].0] is None;
        assert(order[pairs[k].0] < order[pairs[k].1]);
    }
}

/// Whether job `j` waits for a job that has no rank yet.
fn is_blocked(instance: &Instance, ranked: &Vec<bool>, j: usize, Ghost(rank): Ghost<Seq<Option<int>>>) -> (yes: bool)
    requires
        in_range(pairs_of(instance.constraints@), ranked.len() as int),
        rank.len() == ranked.len(),
        forall|i: int| 0 <= i < ranked.len() ==> #[trigger] ranked[i] == rank[i] is Some,
    ensures
        yes == blocked(pairs_of(instance.constraints@), rank, j as int),
{
    let ghost pairs = pairs_of(instance.constraints@);
    let mut k: usize = 0;
    while k < instance.constraints.len()
        invariant
            k <= instance.constraints.len(),
            pairs == pairs_of(instance.constraints@),
            in_range(pairs, ranked.len() as int),
            rank.len() == ranked.len(),
            forall|i: int| 0 <= i < ranked.len() ==> #[trigger] ranked[i] == rank[i] is Some,
            forall|l: int| 0 <= l < k ==> !((#[trigger] pairs[l]).1 == j && rank[pairs[l].0] is None),
        decreases instance.constraints.len() - k,
    {
        assert(pairs[k as int] == instance.constraints@[k as int]@);
        if instance.constraints[k].1 == j && !ranked[instance.constraints[k].0] {
            return true;
        }
        k += 1;
    }
    false
}

/// Whether the constraints hold no cycle.
fn is_acyclic(instance: &Instance) -> (yes: bool)
    requires
        in_range(pairs_of(instance.constraints@), instance.jobs.len() as int),
    ensures
        yes == acyclic(instance.jobs.len() as int, pairs_of(instance.constraints@)),
{
    let n = instance.jobs.len();
    let ghost pairs = pairs_of(instance.constraints@);
    let mut ranked: Vec<bool> = Vec::new();
    while ranked.len() < n
        invariant
            ranked.len() <= n,
            forall|i: int| 0 <= i < ranked.len() ==> !#[trigger] ranked[i],
        decreases n - ranked.len(),
    {
        ranked.push(false);
    }
    let ghost mut rank: Seq<Option<int>> = Seq::new(n as nat, |i: int| None);
    let mut round: usize = 0;
    proof {
        lemma_pending_all(rank, n as int);
    }
    while round < n
        invariant
            round <= n,
            n == instance.jobs.len(),
            pairs == pairs_of(instance.constraints@),
            in_range(pairs, n as int),
            ranked.len() == n,
            rank.len() == n,
            forall|i: int| 0 <= i < n ==> #[trigger] ranked[i] == rank[i] is Some,
            pending_upto(rank, n as int) == n - round,
            forall|i: int|
                0 <= i < n && (#[trigger] rank[i]) is Some ==> 0 <= rank[i].unwrap() < round,
            forall|k: int|
                0 <= k < pairs.len() && rank[(#[trigger] pairs[k]).1] is Some ==> rank[pairs[k].0] is Some
                    && rank[pairs[k].0].unwrap() < rank[pairs[k].1].unwrap(),
        decreases n - round,
    {
        let mut j: usize = 0;
        let mut found = false;
        while j < n && !found
            invariant
                j <= n,
                n == instance.jobs.len(),
                pairs == pairs_of(instance.constraints@),
                in_range(pairs, n as int),
                ranked.len() == n,
                rank.len() == n,
                forall|i: int| 0 <= i < n ==> #[trigger] ranked[i] == rank[i] is Some,
                forall|i: int| 0 <= i < j && (#[trigger] rank[i]) is None ==> blocked(pairs, rank, i),
                found ==> j < n && rank[j as int] is None && !blocked(pairs, rank, j as int),
            decreases n - j + if found { 0int } else { 1int },
        {
            if !ranked[j] && !is_blocked(instance, &ranked, j, Ghost(rank)) {
                found = true;
            } else {
                j += 1;
            }
        }
        if !found {
            proof {
                lemma_stuck(pairs, rank, n as int);
            }
            return false;
        }
        ranked.set(j, true);
        proof {
            lemma_pending_update(rank, j as int, round as int, n as int);
            let before = rank;
            rank = rank.update(j as int, Some(round as int));
            assert forall|k: int|
                0 <= k < pairs.len() && rank[(#[trigger] pairs[k]).1] is Some implies rank[pairs[k].0] is Some
                && rank[pairs[k].0].unwrap() < rank[pairs[k].1].unwrap() by {
                if pairs[k].1 == j {
                    assert(!blocked(pairs, before, j as int));
                    assert(before[pairs[k].0] is Some);
                } else {
                    assert(before[pairs[k].1] is Some);
                }
            }
        }
        round += 1;
    }
    proof {
        lemma_pending_none(rank, n as int);
        let order = Seq::new(n as nat, |i: int| rank[i].unwrap());
        assert(ranks(order, n as int, pairs));
    }
    true
}

impl Instance {
    /// Whether the instance is well formed: at least one processor and one
    /// job, every job at its own index with one positive processing time per
    /// allotment, and constraints that join jobs of the instance without a
    /// cycle.
    pub fn validate(&self) -> (result: Result<(), SchedulingError>)
        ensures
            result is Ok <==> self@.wf(),
            result is Err ==> result == Err::<(), SchedulingError>(SchedulingError::InvalidInstance),
    {
        let n = self.jobs.len();
        let m = self.processor_count;
        if m < 1 || n < 1 {
            return Err(SchedulingError::InvalidInstance);
        }
        let mut j: usize = 0;
        while j < n
            invariant
                j <= n,
                n == self.jobs.len(),
                m == self.processor_count,
                m >= 1,
                forall|i: int|
                    0 <= i < j ==> {
                        &&& (#[trigger] self@.jobs[i]).index == i
                        &&& self@.jobs[i].times.len() == m
                    },
                forall|i: int, a: int| 0 <= i < j && 1 <= a <= m ==> #[trigger] self@.time(i, a) >= 1,
            decreases n - j,
        {
            if self.jobs[j].index != j || self.jobs[j].processing_times.len() != m {
                assert(!(self@.jobs[j as int].index == j && self@.jobs[j as int].times.len() == m));
                return Err(SchedulingError::InvalidInstance);
            }
            let mut a: usize = 0;
            while a < m
                invariant
                    a <= m,
                    j < n,
                    n == self.jobs.len(),
                    m == self.processor_count,
                    self.jobs[j as int].processing_times.len() == m,
                    forall|b: int| 1 <= b <= a ==> #[trigger] self@.time(j as int, b) >= 1,
                decreases m - a,
            {
                if self.jobs[j].processing_times[a] < 1 {
                    assert(self@.time(j as int, a + 1) < 1);
                    return Err(SchedulingError::InvalidInstance);
                }
                a += 1;
            }
            j += 1;
        }
        let mut k: usize = 0;
        while k < self.constraints.len()
            invariant
                k <= self.constraints.len(),
                n == self.jobs.len(),
                forall|l: int|
                    0 <= l < k ==> 0 <= (#[trigger] self@.constraints[l]).0 < n && 0
                        <= self@.constraints[l].1 < n,
            decreases self.constraints.len() - k,
        {
            if self.constraints[k].0 >= n || self.constraints[k].1 >= n {
                proof {
                    let l = k as int;
                    assert(!(0 <= self@.constraints[l].0 < n && 0 <= self@.constraints[l].1 < n));
                    if acyclic(n as int, self@.constraints) {
                        let order = choose|order: Seq<int>| #[trigger] ranks(order, n as int, self@.constraints);
                        assert(0 <= self@.constraints[l].0 < n);
                    }
                }
                return Err(SchedulingError::InvalidInstance);
            }
            k += 1;
        }
        assert(in_range(pairs_of(self.constraints@), n as int)) by {
            let pairs = pairs_of(self.constraints@);
            assert(pairs == self@.constraints);
            assert forall|l: int| 0 <= l < pairs.len() implies 0 <= (#[trigger] pairs[l]).0 < n && 0
                <= pairs[l].1 < n by {
                assert(0 <= self@.constraints[l].0 < n);
            }
        }
        if !is_acyclic(self) {
            return Err(SchedulingError::InvalidInstance);
        }
        Ok(())
    }
}

} // verus!
