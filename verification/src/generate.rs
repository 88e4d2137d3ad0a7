//! Random instances: jobs with random processing times, and constraints
//! that make chains of successive jobs.

use vstd::prelude::*;
use rand::seq::SliceRandom;
use rand::Rng;
use crate::algo::{Constraint, Instance, Job, pairs_of};

verus! {

/// `Rng::random_range` on the thread's generator (`rand::rng`), for a range
/// from `low` up to `high`, `high` left out: some value of the range. The
/// call panics on an empty range, which is left out.
#[verifier::external_body]
fn random_between(low: i32, high: i32) -> (value: i32)
    requires
        low < high,
    ensures
        low <= value < high,
{
    rand::rng().random_range(low..high)
}

/// `SliceRandom::shuffle` on the thread's generator: the values in some
/// order.
#[verifier::external_body]
fn shuffle(values: &mut Vec<usize>)
    ensures
        final(values)@.to_multiset() == old(values)@.to_multiset(),
{
    values.shuffle(&mut rand::rng())
}

/// The processing time on `allotment` processors of a job that takes `time`
/// on one and gains from no more than `cutoff` processors.
pub open spec fn concave_time(time: int, cutoff: int, allotment: int) -> int {
    if allotment <= cutoff {
        time / allotment
    } else {
        time / cutoff
    }
}

/// The processing times on 1 to `m` processors of a job that takes `time` on
/// one processor and gains from no more than `cutoff` processors: the time
/// over the processors used.
pub fn concave_times(time: i32, cutoff: i32, m: usize) -> (times: Vec<i32>)
    requires
        time >= 0,
        cutoff >= 1,
    ensures
        times.len() == m,
        forall|a: int| 1 <= a <= m ==> #[trigger] times[a - 1] == concave_time(time as int, cutoff as int, a),
{
    let mut times: Vec<i32> = Vec::new();
    let mut a: usize = 0;
    while a < m
        invariant
            a <= m,
            time >= 0,
            cutoff >= 1,
            times.len() == a,
            forall|b: int|
                1 <= b <= a ==> #[trigger] times[b - 1] == concave_time(time as int, cutoff as int, b),
        decreases m - a,
    {
        let allotment = a + 1;
        let used: i32 = if allotment <= cutoff as usize {
            allotment as i32
        } else {
            cutoff
        };
        times.push(time / used);
        a += 1;
    }
    times
}

/// Jobs whose processing times fall as one over the processors used, up to
/// a cutoff: each job takes a random time from `min_p` up to `max_p`, `max_p`
/// left out, on one processor, and has a random cutoff from 1 to `m`.
pub fn jobs_concave(n: usize, m: usize, min_p: i32, max_p: i32) -> (jobs: Vec<Job>)
    requires
        0 <= min_p < max_p,
        1 <= m < i32::MAX,
    ensures
        jobs.len() == n,
        forall|j: int|
            0 <= j < n ==> (#[trigger] jobs[j]).index == j && jobs[j].processing_times.len() == m,
        forall|j: int|
            0 <= j < n ==> some_concave(
                (#[trigger] jobs[j]).processing_times@,
                min_p as int,
                max_p as int,
                m as int,
            ),
{
    let mut jobs: Vec<Job> = Vec::new();
    let mut index: usize = 0;
    while index < n
        invariant
            index <= n,
            0 <= min_p < max_p,
            1 <= m < i32::MAX,
            jobs.len() == index,
            forall|j: int|
                0 <= j < index ==> (#[trigger] jobs[j]).index == j && jobs[j].processing_times.len()
                    == m,
            forall|j: int|
                0 <= j < index ==> some_concave(
                    (#[trigger] jobs[j]).processing_times@,
                    min_p as int,
                    max_p as int,
                    m as int,
                ),
        decreases n - index,
    {
        let time = random_between(min_p, max_p);
        let cutoff = random_between(1, m as i32 + 1);
        let processing_times = concave_times(time, cutoff, m);
        assert(is_concave(processing_times@, time as int, cutoff as int));
        assert(some_concave(processing_times@, min_p as int, max_p as int, m as int));
        let ghost before = jobs@;
        jobs.push(Job { index, processing_times });
        assert(forall|j: int| 0 <= j < index ==> jobs[j] == before[j]);
        index += 1;
    }
    jobs
}

/// The times are those of a job that takes `time` on one processor and
/// gains from no more than `cutoff` processors.
pub open spec fn is_concave(times: Seq<i32>, time: int, cutoff: int) -> bool {
    forall|a: int| 1 <= a <= times.len() ==> #[trigger] times[a - 1] == concave_time(time, cutoff, a)
}

/// The times are those of a job that takes some time from `min_p` up to
/// `max_p`, `max_p` left out, on one processor and gains from no more than
/// some cutoff from 1 to `m`.
pub open spec fn some_concave(times: Seq<i32>, min_p: int, max_p: int, m: int) -> bool {
    exists|time: int, cutoff: int|
        min_p <= time < max_p && 1 <= cutoff <= m && #[trigger] is_concave(times, time, cutoff)
}

/// Jobs with a random processing time from `min_p` up to `max_p`, `max_p`
/// left out, for each allotment.
pub fn jobs(n: usize, m: usize, min_p: i32, max_p: i32) -> (jobs: Vec<Job>)
    requires
        min_p < max_p,
    ensures
        jobs.len() == n,
        forall|j: int|
            0 <= j < n ==> (#[trigger] jobs[j]).index == j && jobs[j].processing_times.len() == m,
        forall|j: int, a: int|
            0 <= j < n && 0 <= a < m ==> min_p <= #[trigger] jobs[j].processing_times[a] < max_p,
{
    let mut jobs: Vec<Job> = Vec::new();
    let mut index: usize = 0;
    while index < n
        invariant
            index <= n,
            min_p < max_p,
            jobs.len() == index,
            forall|j: int|
                0 <= j < index ==> (#[trigger] jobs[j]).index == j && jobs[j].processing_times.len()
                    == m,
            forall|j: int, a: int|
                0 <= j < index && 0 <= a < m ==> min_p <= #[trigger] jobs[j].processing_times[a] < max_p,
        decreases n - index,
    {
        let mut processing_times: Vec<i32> = Vec::new();
        while processing_times.len() < m
            invariant
                processing_times.len() <= m,
                min_p < max_p,
                forall|a: int|
                    0 <= a < processing_times.len() ==> min_p <= #[trigger] processing_times[a] < max_p,
            decreases m - processing_times.len(),
        {
            processing_times.push(random_between(min_p, max_p));
        }
        jobs.push(Job { index, processing_times });
        index += 1;
    }
    jobs
}

/// The pairs of job `a` with each of the `count` jobs after it.
pub open spec fn pairs_with_next(a: int, count: int) -> Seq<(int, int)> {
    if count > 0 {
        Seq::new(count as nat, |k: int| (a, a + 1 + k))
    } else {
        Seq::empty()
    }
}

/// The pairs of job `a` with each later job below `end`.
pub open spec fn pairs_after(a: int, end: int) -> Seq<(int, int)> {
    pairs_with_next(a, end - a - 1)
}

/// The pairs of each job from `start` up to `upto`, `upto` left out, with
/// each later job below `end`.
pub open spec fn pairs_between(start: int, end: int, upto: int) -> Seq<(int, int)>
    decreases upto - start,
{
    if upto <= start {
        Seq::empty()
    } else {
        pairs_between(start, end, upto - 1) + pairs_after(upto - 1, end)
    }
}

/// Where chain `w` starts: at 0, or at the cut before it.
pub open spec fn chain_start(cuts: Seq<usize>, w: int) -> int {
    if w <= 0 {
        0
    } else {
        cuts[w - 1] as int
    }
}

/// Where chain `w` ends: at the cut after it, or at `n`.
pub open spec fn chain_end(n: int, cuts: Seq<usize>, w: int) -> int {
    if w >= cuts.len() {
        n
    } else {
        cuts[w] as int
    }
}

/// The pairs of the first `upto` chains: within each chain, each job with
/// each later one.
pub open spec fn chain_pairs(n: int, cuts: Seq<usize>, upto: int) -> Seq<(int, int)>
    decreases upto,
{
    if upto <= 0 {
        Seq::empty()
    } else {
        chain_pairs(n, cuts, upto - 1) + pairs_between(
            chain_start(cuts, upto - 1),
            chain_end(n, cuts, upto - 1),
            chain_end(n, cuts, upto - 1),
        )
    }
}

/// Adds the pairs of one chain: each job from `start` up to `end`, `end`
/// left out, with each later one.
fn push_chain(constraints: &mut Vec<Constraint>, start: usize, end: usize)
    ensures
        pairs_of(final(constraints)@) == pairs_of(old(constraints)@) + pairs_between(
            start as int,
            end as int,
            end as int,
        ),
{
    let ghost done = pairs_of(constraints@);
    let mut a: usize = start;
    assert(done + pairs_between(start as int, end as int, start as int) =~= done);
    while a < end
        invariant
            start <= a <= end || (end < start && a == start),
            pairs_of(constraints@) == done + pairs_between(start as int, end as int, a as int),
        decreases end - a,
    {
        let ghost so_far = pairs_of(constraints@);
        let mut b: usize = a + 1;
        assert(so_far + pairs_with_next(a as int, 0) =~= so_far);
        while b < end
            invariant
                a < b <= end,
                pairs_of(constraints@) == so_far + pairs_with_next(a as int, b - a - 1),
            decreases end - b,
        {
            let ghost before = pairs_of(constraints@);
            let ghost count = b - a - 1;
            constraints.push(Constraint(a, b));
            assert(pairs_of(constraints@) =~= before.push((a as int, b as int)));
            assert(pairs_with_next(a as int, count + 1) =~= pairs_with_next(a as int, count).push(
                (a as int, a + 1 + count),
            ));
            b += 1;
            assert(pairs_of(constraints@) =~= so_far + pairs_with_next(a as int, b - a - 1));
        }
        a += 1;
        assert(pairs_of(constraints@) =~= done + pairs_between(start as int, end as int, a as int));
    }
    if end < start {
        assert(pairs_between(start as int, end as int, end as int) =~= Seq::<(int, int)>::empty());
        assert(pairs_of(constraints@) =~= done);
    }
}

/// The constraints that make chains of the jobs `0..n`, cut at `cuts`: the
/// jobs before the first cut form a chain, those from each cut up to the
/// next one, and those from the last cut on; within a chain each job
/// precedes each later one.
pub fn chain_constraints(n: usize, cuts: &Vec<usize>) -> (constraints: Vec<Constraint>)
    ensures
        pairs_of(constraints@) == chain_pairs(n as int, cuts@, cuts.len() + 1),
{
    let mut constraints: Vec<Constraint> = Vec::new();
    let mut w: usize = 0;
    assert(pairs_of(constraints@) =~= chain_pairs(n as int, cuts@, 0));
    while w < cuts.len()
        invariant
            w <= cuts.len(),
            pairs_of(constraints@) == chain_pairs(n as int, cuts@, w as int),
        decreases cuts.len() - w,
    {
        let start = if w == 0 {
            0
        } else {
            cuts[w - 1]
        };
        push_chain(&mut constraints, start, cuts[w]);
        w += 1;
    }
    let start = if w == 0 {
        0
    } else {
        cuts[w - 1]
    };
    push_chain(&mut constraints, start, n);
    constraints
}


/// The values rise.
pub open spec fn rising(values: Seq<usize>) -> bool {
    forall|i: int, j: int| 0 <= i < j < values.len() ==> values[i] <= values[j]
}

/// `sorted` holds the values of `values`, each as often, in rising order.
pub open spec fn sorts(values: Seq<usize>, sorted: Seq<usize>) -> bool {
    rising(sorted) && sorted.to_multiset() == values.to_multiset()
}

/// The values in rising order.
pub open spec fn in_order(values: Seq<usize>) -> Seq<usize> {
    choose|sorted: Seq<usize>| sorts(values, sorted)
}

/// Every list of values has a rising order.
pub proof fn lemma_sortable(values: Seq<usize>)
    ensures
        sorts(values, in_order(values)),
    decreases values.len(),
{
    if values.len() == 0 {
        assert(sorts(values, values));
    } else {
        let rest = values.drop_last();
        let last = values.last();
        lemma_sortable(rest);
        let sorted = in_order(rest);
        let at = first_above(sorted, last, 0);
        lemma_first_above(sorted, last, 0);
        let longer = sorted.insert(at, last);
        vstd::seq_lib::to_multiset_insert(sorted, at, last);
        vstd::seq_lib::to_multiset_build(rest, last);
        assert(values =~= rest.push(last));
        assert forall|i: int, j: int| 0 <= i < j < longer.len() implies longer[i] <= longer[j] by {
            if j < at {
                assert(longer[i] == sorted[i] && longer[j] == sorted[j]);
            } else if j == at {
                assert(longer[i] == sorted[i]);
            } else if i < at {
                assert(longer[i] == sorted[i] && longer[j] == sorted[j - 1]);
            } else if i == at {
                assert(longer[j] == sorted[j - 1]);
            } else {
                assert(longer[i] == sorted[i - 1] && longer[j] == sorted[j - 1]);
            }
        }
        assert(sorts(values, longer));
    }
}

/// The first place from `from` on whose value is above `value`; the length
/// if there is none.
pub open spec fn first_above(sorted: Seq<usize>, value: usize, from: int) -> int
    decreases sorted.len() - from,
{
    if from >= sorted.len() || sorted[from] > value {
        from
    } else {
        first_above(sorted, value, from + 1)
    }
}

proof fn lemma_first_above(sorted: Seq<usize>, value: usize, from: int)
    requires
        0 <= from <= sorted.len(),
        rising(sorted),
        forall|i: int| 0 <= i < from ==> sorted[i] <= value,
    ensures
        from <= first_above(sorted, value, from) <= sorted.len(),
        forall|i: int| 0 <= i < first_above(sorted, value, from) ==> sorted[i] <= value,
        forall|i: int| first_above(sorted, value, from) <= i < sorted.len() ==> sorted[i] > value,
    decreases sorted.len() - from,
{
    if from >= sorted.len() || sorted[from] > value {
    } else {
        lemma_first_above(sorted, value, from + 1);
    }
}

/// The values have one rising order only.
pub proof fn lemma_in_order(values: Seq<usize>, sorted: Seq<usize>)
    requires
        sorts(values, sorted),
    ensures
        sorted == in_order(values),
{
    let other = in_order(values);
    let leq = |a: usize, b: usize| a <= b;
    assert(sorts(values, other));
    assert(vstd::relations::sorted_by(sorted, leq));
    assert(vstd::relations::sorted_by(other, leq));
    assert(vstd::relations::total_ordering(leq));
    vstd::seq_lib::lemma_sorted_unique(sorted, other, leq);
}

/// The values in rising order.
pub fn sort_rising(values: &Vec<usize>) -> (sorted: Vec<usize>)
    ensures
        rising(sorted@),
        sorted@.to_multiset() == values@.to_multiset(),
        sorted@ == in_order(values@),
{
    let mut sorted: Vec<usize> = Vec::new();
    let mut k: usize = 0;
    assert(values@.subrange(0, 0) =~= sorted@);
    while k < values.len()
        invariant
            k <= values.len(),
            rising(sorted@),
            sorted@.to_multiset() == values@.subrange(0, k as int).to_multiset(),
        decreases values.len() - k,
    {
        let value = values[k];
        let mut at: usize = 0;
        while at < sorted.len() && sorted[at] <= value
            invariant
                at <= sorted.len(),
                rising(sorted@),
                forall|i: int| 0 <= i < at ==> sorted[i] <= value,
            decreases sorted.len() - at,
        {
            at += 1;
        }
        let ghost before = sorted@;
        sorted.insert(at, value);
        proof {
            vstd::seq_lib::to_multiset_insert(before, at as int, value);
            vstd::seq_lib::to_multiset_build(values@.subrange(0, k as int), value);
            assert(values@.subrange(0, k + 1) =~= values@.subrange(0, k as int).push(value));
            assert forall|i: int, j: int| 0 <= i < j < sorted@.len() implies sorted@[i] <= sorted@[j] by {
                if j < at {
                    assert(sorted@[i] == before[i] && sorted@[j] == before[j]);
                } else if j == at {
                    assert(sorted@[i] == before[i]);
                } else if i < at {
                    assert(sorted@[i] == before[i] && sorted@[j] == before[j - 1]);
                    assert(before[i] <= value);
                    assert(value < before[at as int] || at == before.len());
                } else if i == at {
                    assert(sorted@[j] == before[j - 1]);
                } else {
                    assert(sorted@[i] == before[i - 1] && sorted@[j] == before[j - 1]);
                }
            }
        }
        k += 1;
    }
    assert(values@.subrange(0, values.len() as int) =~= values@);
    proof {
        lemma_in_order(values@, sorted@);
    }
    sorted
}

/// The largest distance allowed after the value at `i`: `max`, or `min` for
/// each value from `i` on if that is more.
pub open spec fn room(min: int, max: int, count: int, i: int) -> int {
    if max >= min * (count - i) {
        max
    } else {
        min * (count - i)
    }
}

/// The value at `i` once the values before it are spaced: moved up to `min`
/// after the spaced value before it, or down to the room after that one.
pub open spec fn spaced_at(given: Seq<usize>, min: int, max: int, i: int) -> int
    decreases i,
{
    if i <= 0 {
        given[0] as int
    } else {
        let before = spaced_at(given, min, max, i - 1);
        if given[i] - before < min {
            before + min
        } else if given[i] - before > room(min, max, given.len() as int, i - 1) {
            before + room(min, max, given.len() as int, i - 1)
        } else {
            given[i] as int
        }
    }
}

/// The spaced values fit the machine's integers, and the last two of them
/// are at least `min` and at most `max` apart.
pub open spec fn spaces_well(given: Seq<usize>, min: int, max: int) -> bool {
    let last = given.len() - 1;
    &&& forall|i: int| 0 <= i < given.len() ==> #[trigger] spaced_at(given, min, max, i) <= usize::MAX
    &&& min <= spaced_at(given, min, max, last) - spaced_at(given, min, max, last - 1) <= max
}

/// Spaces the values: from the second on, each is moved so that it lies at
/// least `min` after the one before it and no more than the room after that
/// one. Says whether that could be done so that the last two values are at
/// most `max` apart.
pub fn ensure_slice_size(values: &mut Vec<usize>, min: usize, max: usize) -> (done: bool)
    requires
        old(values).len() >= 2,
    ensures
        done == spaces_well(old(values)@, min as int, max as int),
        done ==> final(values).len() == old(values).len(),
        done ==> forall|i: int|
            0 <= i < old(values).len() ==> #[trigger] final(values)[i] == spaced_at(
                old(values)@,
                min as int,
                max as int,
                i,
            ),
{
    let ghost given = values@;
    let count = values.len();
    let mut i: usize = 0;
    while i < count - 1
        invariant
            i <= count - 1,
            count >= 2,
            count == given.len(),
            given == old(values)@,
            values.len() == count,
            forall|k: int| 0 <= k <= i ==> #[trigger] values[k] == spaced_at(given, min as int, max as int, k),
            forall|k: int| i < k < count ==> #[trigger] values[k] == given[k],
        decreases count - 1 - i,
    {
        let before = values[i];
        let here = values[i + 1];
        assert(min * (count - i) <= 0xffff_ffff_ffff_ffff * 0xffff_ffff_ffff_ffff && min * (count - i)
            >= 0) by (nonlinear_arith)
            requires
                0 <= min <= 0xffff_ffff_ffff_ffff,
                0 <= count - i <= 0xffff_ffff_ffff_ffff,
        ;
        let spread: u128 = min as u128 * (count - i) as u128;
        let most: u128 = if max as u128 >= spread {
            max as u128
        } else {
            spread
        };
        assert(most == room(min as int, max as int, count as int, i as int));
        let ghost target = spaced_at(given, min as int, max as int, i + 1);
        if (here as u128) < before as u128 + min as u128 {
            assert(target == before + min);
            if before as u128 + min as u128 > usize::MAX as u128 {
                assert(spaced_at(given, min as int, max as int, i + 1) > usize::MAX);
                return false;
            }
            values.set(i + 1, before + min);
        } else if most <= usize::MAX as u128 && here as u128 - before as u128 > most {
            assert(target == before + most);
            values.set(i + 1, before + most as usize);
        } else {
            assert(target == here);
        }
        i += 1;
    }
    let last = count - 1;
    let first = values[last - 1];
    let second = values[last];
    assert forall|k: int| 0 <= k < given.len() implies #[trigger] spaced_at(
        given,
        min as int,
        max as int,
        k,
    ) <= usize::MAX by {
        assert(values[k] == spaced_at(given, min as int, max as int, k));
    }
    assert(first == spaced_at(given, min as int, max as int, last - 1));
    assert(second == spaced_at(given, min as int, max as int, last as int));
    if second < first {
        assert(spaced_at(given, min as int, max as int, last as int) - spaced_at(
            given,
            min as int,
            max as int,
            last - 1,
        ) < 0);
        return false;
    }
    let gap = second - first;
    min <= gap && gap <= max
}

/// The pairs make `count` chains of the jobs `0..n`.
pub open spec fn makes_chains(pairs: Seq<(int, int)>, n: int, count: int) -> bool {
    exists|cuts: Seq<usize>| cuts.len() + 1 == count && pairs == #[trigger] chain_pairs(n, cuts, count)
}

/// The values once they are spaced.
pub open spec fn spaced(given: Seq<usize>, min: int, max: int) -> Seq<usize> {
    Seq::new(given.len(), |i: int| spaced_at(given, min, max, i) as usize)
}

/// The places of the cuts before they are shuffled: 1 up to `n`, `n` left
/// out.
pub open spec fn places(n: int) -> Seq<usize> {
    Seq::new((n - 1) as nat, |i: int| (i + 1) as usize)
}

/// `shuffled` holds the places of the cuts in some order.
pub open spec fn is_shuffle(shuffled: Seq<usize>, n: int) -> bool {
    shuffled.to_multiset() == places(n).to_multiset()
}

/// The pairs that shuffled places give: the first `omega - 1` places are
/// the cuts, in rising order and spaced; the pairs make the chains between
/// them. `None` if the cuts cannot be spaced.
pub open spec fn pairs_from(n: int, omega: int, min: int, max: int, shuffled: Seq<usize>) -> Option<
    Seq<(int, int)>,
> {
    let cuts = in_order(shuffled.subrange(0, omega - 1));
    if spaces_well(cuts, min, max) {
        Some(chain_pairs(n, spaced(cuts, min, max), omega))
    } else {
        None
    }
}

/// The pairs of the constraints made, if any were made.
pub open spec fn pairs_made(made: Option<Vec<Constraint>>) -> Option<Seq<(int, int)>> {
    match made {
        Some(constraints) => Some(pairs_of(constraints@)),
        None => None,
    }
}

/// The constraints that shuffled places give: the first `omega - 1` places
/// are taken as cuts, put in rising order and spaced by `min_chain` and
/// `max_chain`, and the constraints make the chains between them. `None` if
/// the cuts cannot be spaced.
pub fn constraints_from(
    n: usize,
    omega: usize,
    min_chain: usize,
    max_chain: usize,
    shuffled: &Vec<usize>,
) -> (made: Option<Vec<Constraint>>)
    requires
        3 <= omega,
        omega - 1 <= shuffled.len(),
    ensures
        pairs_made(made) == pairs_from(n as int, omega as int, min_chain as int, max_chain as int, shuffled@),
{
    let mut chosen: Vec<usize> = Vec::new();
    let mut k: usize = 0;
    while k < omega - 1
        invariant
            k <= omega - 1,
            omega - 1 <= shuffled.len(),
            chosen@ == shuffled@.subrange(0, k as int),
        decreases omega - 1 - k,
    {
        chosen.push(shuffled[k]);
        k += 1;
        assert(chosen@ =~= shuffled@.subrange(0, k as int));
    }
    let mut cuts = sort_rising(&chosen);
    let ghost rising_cuts = cuts@;
    proof {
        vstd::seq_lib::to_multiset_len(chosen@);
        vstd::seq_lib::to_multiset_len(cuts@);
    }
    if !ensure_slice_size(&mut cuts, min_chain, max_chain) {
        return None;
    }
    assert(cuts@ =~= spaced(rising_cuts, min_chain as int, max_chain as int));
    Some(chain_constraints(n, &cuts))
}

/// The constraints are those that some shuffle of the places gives.
pub open spec fn drawn_from(made: Option<Vec<Constraint>>, n: int, omega: int, min: int, max: int) -> bool {
    exists|shuffled: Seq<usize>|
        #[trigger] is_shuffle(shuffled, n) && pairs_made(made) == pairs_from(n, omega, min, max, shuffled)
}

/// Constraints that make `omega` chains of the jobs `0..n`: the chains are
/// cut at random places, which are then spaced by `min_chain` and
/// `max_chain`. `None` if the random places cannot be spaced.
pub fn constraints(n: usize, omega: usize, min_chain: usize, max_chain: usize) -> (made: Option<
    Vec<Constraint>,
>)
    requires
        3 <= omega <= n,
    ensures
        drawn_from(made, n as int, omega as int, min_chain as int, max_chain as int),
        made matches Some(constraints) ==> makes_chains(pairs_of(constraints@), n as int, omega as int),
{
    let mut indices: Vec<usize> = Vec::new();
    let mut index: usize = 1;
    while index < n
        invariant
            1 <= index <= n,
            indices@ == places(index as int),
        decreases n - index,
    {
        indices.push(index);
        index += 1;
        assert(indices@ =~= places(index as int));
    }
    shuffle(&mut indices);
    proof {
        vstd::seq_lib::to_multiset_len(places(n as int));
        vstd::seq_lib::to_multiset_len(indices@);
        assert(is_shuffle(indices@, n as int));
    }
    let made = constraints_from(n, omega, min_chain, max_chain, &indices);
    proof {
        if made is Some {
            let cuts = spaced(
                in_order(indices@.subrange(0, omega - 1)),
                min_chain as int,
                max_chain as int,
            );
            assert(cuts.len() + 1 == omega) by {
                let chosen = indices@.subrange(0, omega - 1);
                assert(sorts(chosen, in_order(chosen))) by {
                    lemma_sortable(chosen);
                }
                vstd::seq_lib::to_multiset_len(chosen);
                vstd::seq_lib::to_multiset_len(in_order(chosen));
            }
            assert(pairs_of(made.unwrap()@) == chain_pairs(n as int, cuts, omega as int));
        }
    }
    made
}

/// The jobs are such as are drawn: `n` of them, each at its index with a
/// processing time for each of `m` allotments; concave with a time from
/// `min_p` up to `max_p`, or with every time in that range.
pub open spec fn jobs_drawn(jobs: Seq<Job>, n: int, m: int, min_p: int, max_p: int, concave: bool) -> bool {
    &&& jobs.len() == n
    &&& forall|j: int| 0 <= j < n ==> (#[trigger] jobs[j]).index == j && jobs[j].processing_times.len() == m
    &&& concave ==> forall|j: int|
        0 <= j < n ==> some_concave((#[trigger] jobs[j]).processing_times@, min_p, max_p, m)
    &&& !concave ==> forall|j: int, a: int|
        0 <= j < n && 0 <= a < m ==> min_p <= #[trigger] jobs[j].processing_times[a] < max_p
}

/// The instance of `m` processors with the jobs, the pairs as constraints
/// and the time bound.
pub open spec fn assembled(m: int, jobs: Seq<Job>, pairs: Seq<(int, int)>, max_time: int) -> crate::algo::InstanceView {
    crate::algo::InstanceView {
        processors: m,
        jobs: Seq::new(jobs.len(), |j: int| jobs[j]@),
        constraints: pairs,
        max_time,
    }
}

/// The instance of `m` processors with the jobs, the constraints and the
/// time bound, if it is well formed.
pub fn assemble(m: usize, jobs: Vec<Job>, constraints: Vec<Constraint>, max_time: i32) -> (made: Option<
    Instance,
>)
    ensures
        made is Some == assembled(m as int, jobs@, pairs_of(constraints@), max_time as int).wf(),
        made matches Some(instance) ==> {
            &&& instance@ == assembled(m as int, jobs@, pairs_of(constraints@), max_time as int)
            &&& instance.processor_count == m
            &&& instance.jobs@ == jobs@
            &&& instance.constraints@ == constraints@
            &&& instance.max_time == max_time
        },
{
    let instance = Instance { processor_count: m, jobs, constraints, max_time };
    assert(instance@ =~= assembled(m as int, jobs@, pairs_of(constraints@), max_time as int));
    if instance.validate().is_err() {
        return None;
    }
    Some(instance)
}

/// What is made comes from the jobs and the shuffled places: nothing if the
/// places give no constraints or the instance assembled from the jobs and
/// the constraints is not well formed, else that instance.
pub open spec fn made_from(
    made: Option<Instance>,
    n: int,
    m: int,
    min_p: int,
    max_p: int,
    omega: int,
    min_chain: int,
    max_chain: int,
    concave: bool,
    jobs: Seq<Job>,
    shuffled: Seq<usize>,
) -> bool {
    &&& jobs_drawn(jobs, n, m, min_p, max_p, concave)
    &&& is_shuffle(shuffled, n)
    &&& match pairs_from(n, omega, min_chain, max_chain, shuffled) {
        None => made is None,
        Some(pairs) => {
            &&& made is Some == assembled(m, jobs, pairs, n * max_p).wf()
            &&& made matches Some(instance) ==> instance@ == assembled(m, jobs, pairs, n * max_p)
        },
    }
}

/// Generates a randomized instance of the scheduling problem with `n` jobs and `m` processors.
/// The processing times of the jobs are randomly generated within the range of `min_p` to `max_p`.
/// `omega` many chains are created, with each chain having a length between `min_chain` and `max_chain`.
/// If `concave` is true, the processing times follow the concave 1/n function, otherwise they are randomly distributed.
/// `None` if the random values do not make a well-formed instance.
pub fn instance(
    n: usize,
    m: usize,
    min_p: i32,
    max_p: i32,
    omega: usize,
    min_chain: usize,
    max_chain: usize,
    concave: bool,
) -> (made: Option<Instance>)
    requires
        1 <= m < i32::MAX,
        0 <= min_p < max_p,
        3 <= omega <= n,
        n * max_p <= i32::MAX,
    ensures
        exists|jobs: Seq<Job>, shuffled: Seq<usize>| #[trigger]
            made_from(
                made,
                n as int,
                m as int,
                min_p as int,
                max_p as int,
                omega as int,
                min_chain as int,
                max_chain as int,
                concave,
                jobs,
                shuffled,
            ),
        made matches Some(instance) ==> {
            &&& instance@.wf()
            &&& instance.processor_count == m
            &&& instance.jobs.len() == n
            &&& instance.max_time == n * max_p
            &&& makes_chains(instance@.constraints, n as int, omega as int)
            &&& jobs_drawn(instance.jobs@, n as int, m as int, min_p as int, max_p as int, concave)
        },
{
    let jobs = if concave {
        jobs_concave(n, m, min_p, max_p)
    } else {
        jobs(n, m, min_p, max_p)
    };
    let ghost drawn = jobs@;
    assert(jobs_drawn(drawn, n as int, m as int, min_p as int, max_p as int, concave));
    let found = constraints(n, omega, min_chain, max_chain);
    let ghost shuffled = choose|shuffled: Seq<usize>|
        #[trigger] is_shuffle(shuffled, n as int) && pairs_made(found) == pairs_from(
            n as int,
            omega as int,
            min_chain as int,
            max_chain as int,
            shuffled,
        );
    let constraints = match found {
        Some(constraints) => constraints,
        None => {
            assert(made_from(
                None,
                n as int,
                m as int,
                min_p as int,
                max_p as int,
                omega as int,
                min_chain as int,
                max_chain as int,
                concave,
                drawn,
                shuffled,
            ));
            return None;
        },
    };
    assert(n * max_p >= 0 && n <= n * max_p) by (nonlinear_arith)
        requires
            n >= 0,
            max_p >= 1,
    ;
    let max_time = (n as i64 * max_p as i64) as i32;
    let made = assemble(m, jobs, constraints, max_time);
    assert(made_from(
        made,
        n as int,
        m as int,
        min_p as int,
        max_p as int,
        omega as int,
        min_chain as int,
        max_chain as int,
        concave,
        drawn,
        shuffled,
    ));
    made
}

} // verus!
