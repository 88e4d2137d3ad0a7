//! Instances whose jobs form a single path: each job but the last directly
//! precedes the next one.

use vstd::prelude::*;
use crate::algo::{InstanceView, ScheduleView, ScheduledJobView, ranks, precedes};
use crate::list::{ListInput, ListState, lemma_fit_upto, lemma_block_free, lemma_block_free_below};
use crate::order::{lemma_precedes_ranked, lemma_relation_witness};

verus! {

/// Job `j` stands in the order.
pub open spec fn listed(order: Seq<int>, j: int) -> bool {
    exists|k: int| 0 <= k < order.len() && #[trigger] order[k] == j
}

/// The order lists every job of the instance once, and each job but the
/// last directly precedes the next.
pub open spec fn is_single_path(instance: InstanceView, order: Seq<int>) -> bool {
    &&& order.len() == instance.jobs.len()
    &&& forall|k: int| 0 <= k < order.len() ==> 0 <= #[trigger] order[k] < instance.jobs.len()
    &&& forall|j: int| 0 <= j < instance.jobs.len() ==> #[trigger] listed(order, j)
    &&& forall|k: int|
        0 <= k < order.len() - 1 ==> instance.precedes(#[trigger] order[k], order[k + 1])
}

/// The order lists each of `count` jobs once.
pub open spec fn lists_once(count: int, order: Seq<int>) -> bool {
    &&& order.len() == count
    &&& forall|k: int| 0 <= k < order.len() ==> 0 <= #[trigger] order[k] < count
    &&& forall|j: int| 0 <= j < count ==> #[trigger] listed(order, j)
    &&& forall|k: int, l: int| 0 <= k < l < order.len() ==> order[k] != order[l]
}

/// The processing times of the first `upto` jobs of the order on their
/// allotments, added up.
pub open spec fn elapsed(input: ListInput, order: Seq<int>, upto: int) -> int
    decreases upto,
{
    if upto <= 0 {
        0
    } else {
        elapsed(input, order, upto - 1) + input.duration(order[upto - 1])
    }
}

proof fn lemma_elapsed_rises(input: ListInput, order: Seq<int>, fewer: int, more: int)
    requires
        input.wf(),
        is_single_path(input.instance, order),
        0 <= fewer <= more <= order.len(),
    ensures
        0 <= elapsed(input, order, fewer) <= elapsed(input, order, more),
    decreases more,
{
    if more > 0 {
        if fewer < more {
            lemma_elapsed_rises(input, order, fewer, more - 1);
        } else {
            lemma_elapsed_rises(input, order, fewer - 1, more - 1);
        }
        assert(input.instance.time(order[more - 1], input.allotment[order[more - 1]]) >= 1);
    }
}

/// Along the path the ranks rise.
proof fn lemma_path_ranks(instance: InstanceView, order: Seq<int>, rank: Seq<int>, k: int, l: int)
    requires
        ranks(rank, instance.jobs.len() as int, instance.constraints),
        is_single_path(instance, order),
        0 <= k < l < order.len(),
    ensures
        rank[order[k]] < rank[order[l]],
        order[k] != order[l],
    decreases l - k,
{
    assert(instance.precedes(order[l - 1], order[l - 1 + 1]));
    lemma_precedes_ranked(
        rank,
        instance.jobs.len() as int,
        instance.constraints,
        order[l - 1],
        order[l],
    );
    if k < l - 1 {
        lemma_path_ranks(instance, order, rank, k, l - 1);
    }
}

impl ListInput {
    /// What holds after `picks` picks on a single path without targets: the
    /// jobs are placed in the path's order, one after the other, and no
    /// position is held beyond the last of them.
    pub open spec fn in_sequence(self, order: Seq<int>, st: ListState, picks: int) -> bool {
        self.consistent(st, picks) && self.lined_up(order, st, picks)
    }

    /// The jobs are placed in the path's order, one after the other, and no
    /// position is held beyond the last of them.
    pub open spec fn lined_up(self, order: Seq<int>, st: ListState, picks: int) -> bool {
        &&& forall|i: int|
            0 <= i < picks ==> (#[trigger] st.placed[i]).job.index == order[i] && st.placed[i].start
                == elapsed(self, order, i)
        &&& forall|i: int|
            0 <= i < picks ==> st.finish[#[trigger] order[i]] == Some(elapsed(self, order, i + 1))
        &&& forall|l: int| picks <= l < order.len() ==> st.finish[#[trigger] order[l]] is None
        &&& forall|q: int| 0 <= q < st.free.len() ==> #[trigger] st.free[q] <= elapsed(self, order, picks)
    }

    /// In sequence, the job picked next is the next job of the path.
    proof fn lemma_sequence_pick(self, order: Seq<int>, st: ListState, picks: int)
        requires
            self.wf(),
            is_single_path(self.instance, order),
            0 <= picks < self.jobs(),
            self.in_sequence(order, st, picks),
        ensures
            self.pick(st) == Some(order[picks]),
            self.ready(st, order[picks]),
    {
        let n = self.jobs();
        let rank = choose|rank: Seq<int>| #[trigger] ranks(rank, n, self.instance.constraints);
        self.lemma_step(st, picks);
        self.lemma_pick(st, n);
        let j = self.pick(st).unwrap();
        assert(listed(order, j));
        let l = choose|l: int| 0 <= l < order.len() && #[trigger] order[l] == j;
        if l < picks {
            assert(st.finish[order[l]] is Some);
        }
        if l > picks {
            assert(self.instance.precedes(order[l - 1], order[l - 1 + 1]));
            lemma_path_ranks(self.instance, order, rank, l - 1, l);
            assert(self.feeds(order[l - 1], j));
            assert(st.finish[order[l - 1]] is None);
        }
    }

    /// In sequence, the next job of the path starts when the jobs before it
    /// have run.
    proof fn lemma_sequence_start(self, order: Seq<int>, st: ListState, picks: int)
        requires
            self.wf(),
            self.compress,
            is_single_path(self.instance, order),
            0 <= picks < self.jobs(),
            self.in_sequence(order, st, picks),
            self.ready(st, order[picks]),
        ensures
            self.earliest(st, order[picks]) == elapsed(self, order, picks),
    {
        let n = self.jobs();
        let rank = choose|rank: Seq<int>| #[trigger] ranks(rank, n, self.instance.constraints);
        let soon = elapsed(self, order, picks);
        let j = order[picks];
        self.lemma_placement(st, picks, j);
        lemma_elapsed_rises(self, order, picks, picks);
        assert forall|i: int| 0 <= i < st.finish.len() && (#[trigger] st.finish[i]) is Some implies st.finish[i].unwrap()
            <= soon by {
            assert(listed(order, i));
            let at = choose|at: int| 0 <= at < order.len() && #[trigger] order[at] == i;
            if at >= picks {
                assert(st.finish[order[at]] is None);
            }
            assert(st.finish[order[at]] == Some(elapsed(self, order, at + 1)));
            lemma_elapsed_rises(self, order, at + 1, picks);
        }
        self.lemma_release(st, j, n, soon);
        if picks > 0 {
            assert(self.instance.precedes(order[picks - 1], order[picks - 1 + 1]));
            lemma_path_ranks(self.instance, order, rank, picks - 1, picks);
            assert(self.feeds(order[picks - 1], j));
            assert(st.finish[order[picks - 1]] == Some(elapsed(self, order, picks - 1 + 1)));
        }
        let a = self.allotment[j];
        let at = lemma_fit_upto(st.free, a, self.instance.processors - a);
        lemma_block_free(st.free, at, a);
        lemma_block_free_below(st.free, at, a, soon);
    }

    /// Placing the next job of the path right after the jobs before it keeps
    /// the jobs lined up.
    proof fn lemma_lined_up_step(
        self,
        order: Seq<int>,
        st: ListState,
        next: ListState,
        placed: ScheduledJobView,
        picks: int,
    )
        requires
            0 <= picks < order.len(),
            self.lined_up(order, st, picks),
            st.placed.len() == picks,
            forall|k: int, l: int| 0 <= k < l < order.len() ==> order[k] != order[l],
            forall|k: int| 0 <= k < order.len() ==> 0 <= #[trigger] order[k] < st.finish.len(),
            next.placed == st.placed.push(placed),
            next.finish == st.finish.update(order[picks], Some(placed.completion())),
            next.free.len() == st.free.len(),
            forall|q: int|
                0 <= q < st.free.len() ==> #[trigger] next.free[q] == st.free[q] || next.free[q]
                    == placed.completion(),
            placed.job.index == order[picks],
            placed.start == elapsed(self, order, picks),
            placed.completion() == elapsed(self, order, picks + 1),
            elapsed(self, order, picks) <= elapsed(self, order, picks + 1),
        ensures
            self.lined_up(order, next, picks + 1),
    {
        assert forall|i: int| 0 <= i < picks + 1 implies (#[trigger] next.placed[i]).job.index
            == order[i] && next.placed[i].start == elapsed(self, order, i) by {
            if i < picks {
                assert(next.placed[i] == st.placed[i]);
            }
        }
        assert forall|i: int| 0 <= i < picks + 1 implies next.finish[#[trigger] order[i]] == Some(
            elapsed(self, order, i + 1),
        ) by {
            if i < picks {
                assert(order[i] != order[picks]);
                assert(st.finish[order[i]] == Some(elapsed(self, order, i + 1)));
            }
        }
        assert forall|l: int| picks + 1 <= l < order.len() implies next.finish[#[trigger] order[l]] is None by {
            assert(order[picks] != order[l]);
            assert(st.finish[order[l]] is None);
        }
        assert forall|q: int| 0 <= q < next.free.len() implies #[trigger] next.free[q] <= elapsed(
            self,
            order,
            picks + 1,
        ) by {
            assert(st.free[q] <= elapsed(self, order, picks));
        }
    }

    proof fn lemma_sequence_step(self, order: Seq<int>, st: ListState, picks: int)
        requires
            self.wf(),
            self.compress,
            is_single_path(self.instance, order),
            0 <= picks < self.jobs(),
            self.in_sequence(order, st, picks),
        ensures
            self.in_sequence(order, self.step(st), picks + 1),
    {
        let n = self.jobs();
        let rank = choose|rank: Seq<int>| #[trigger] ranks(rank, n, self.instance.constraints);
        let j = order[picks];
        self.lemma_step(st, picks);
        self.lemma_sequence_pick(order, st, picks);
        self.lemma_sequence_start(order, st, picks);
        lemma_elapsed_rises(self, order, picks, picks + 1);
        let next = self.step(st);
        let placed = self.placement(st, j);
        assert(self.instance.jobs[j].index == j);
        assert forall|k: int, l: int| 0 <= k < l < order.len() implies order[k] != order[l] by {
            lemma_path_ranks(self.instance, order, rank, k, l);
        }
        self.lemma_lined_up_step(order, st, next, placed, picks);
    }

    proof fn lemma_sequence(self, order: Seq<int>, picks: nat)
        requires
            self.wf(),
            self.compress,
            is_single_path(self.instance, order),
            picks <= self.jobs(),
        ensures
            self.in_sequence(order, self.run(picks), picks as int),
        decreases picks,
    {
        if picks == 0 {
            self.lemma_run(0);
        } else {
            self.lemma_sequence(order, (picks - 1) as nat);
            self.lemma_sequence_step(order, self.run((picks - 1) as nat), picks - 1);
        }
    }
}

/// The latest completion time is no earlier than any job's.
pub proof fn lemma_makespan_covers(schedule: ScheduleView, k: int)
    requires
        0 <= k < schedule.jobs.len(),
    ensures
        schedule.makespan() >= schedule.jobs[k].completion(),
    decreases schedule.jobs.len(),
{
    let rest = ScheduleView { processors: schedule.processors, jobs: schedule.jobs.drop_last() };
    if k < schedule.jobs.len() - 1 {
        lemma_makespan_covers(rest, k);
        assert(rest.jobs[k] == schedule.jobs[k]);
    }
}

/// The latest completion time is no later than a bound on every job's.
pub proof fn lemma_makespan_bounded(schedule: ScheduleView, bound: int)
    requires
        bound >= 0,
        forall|k: int| 0 <= k < schedule.jobs.len() ==> (#[trigger] schedule.jobs[k]).completion() <= bound,
    ensures
        schedule.makespan() <= bound,
    decreases schedule.jobs.len(),
{
    if schedule.jobs.len() > 0 {
        let rest = ScheduleView { processors: schedule.processors, jobs: schedule.jobs.drop_last() };
        assert forall|k: int| 0 <= k < rest.jobs.len() implies (#[trigger] rest.jobs[k]).completion()
            <= bound by {
            assert(rest.jobs[k] == schedule.jobs[k]);
        }
        lemma_makespan_bounded(rest, bound);
    }
}

/// On a single path, packed as early as possible, the list scheduler runs
/// the jobs in the path's order, one right after the other: the makespan is
/// the sum of their processing times on their allotments.
pub proof fn lemma_single_path_makespan(input: ListInput, order: Seq<int>)
    requires
        input.wf(),
        input.compress,
        is_single_path(input.instance, order),
    ensures
        input.schedule().makespan() == elapsed(input, order, input.jobs()),
        forall|k: int|
            0 <= k < input.jobs() ==> (#[trigger] input.schedule().jobs[k]).job.index == order[k]
                && input.schedule().jobs[k].start == elapsed(input, order, k),
{
    let n = input.jobs();
    let st = input.run(n as nat);
    let schedule = input.schedule();
    input.lemma_sequence(order, n as nat);
    lemma_elapsed_rises(input, order, 0, n);
    assert forall|k: int| 0 <= k < schedule.jobs.len() implies (#[trigger] schedule.jobs[k]).completion()
        <= elapsed(input, order, n) by {
        assert(input.placed_well(st, k, n));
        assert(st.placed[k].job.index == order[k]);
        assert(st.finish[order[k]] == Some(elapsed(input, order, k + 1)));
        lemma_elapsed_rises(input, order, k + 1, n);
    }
    lemma_makespan_bounded(schedule, elapsed(input, order, n));
    assert(input.placed_well(st, n - 1, n));
    assert(st.placed[n - 1].job.index == order[n - 1]);
    assert(st.finish[order[n - 1]] == Some(elapsed(input, order, n - 1 + 1)));
    lemma_makespan_covers(schedule, n - 1);
}

/// On a single path, whatever the targets, no job of the path is done
/// before the jobs up to it have run one after the other.
proof fn lemma_path_lower_bound(input: ListInput, order: Seq<int>, upto: int) -> (k: int)
    requires
        input.wf(),
        is_single_path(input.instance, order),
        1 <= upto <= input.jobs(),
    ensures
        0 <= k < input.schedule().jobs.len(),
        input.schedule().jobs[k].job.index == order[upto - 1],
        input.schedule().jobs[k].completion() >= elapsed(input, order, upto),
    decreases upto,
{
    let n = input.jobs();
    let schedule = input.schedule();
    let st = input.run(n as nat);
    input.lemma_schedule_feasible();
    input.lemma_run(n as nat);
    let j = order[upto - 1];
    assert(schedule.holds(j));
    let k = choose|k: int| 0 <= k < schedule.jobs.len() && (#[trigger] schedule.jobs[k]).job.index == j;
    assert(input.placed_well(st, k, n));
    assert(schedule.jobs[k].completion() == schedule.jobs[k].start + input.duration(j));
    assert(elapsed(input, order, upto) == elapsed(input, order, upto - 1) + input.duration(j));
    if upto > 1 {
        let before = lemma_path_lower_bound(input, order, upto - 1);
        assert(input.instance.precedes(order[upto - 2], order[upto - 2 + 1]));
        let c = lemma_relation_witness(input.instance.constraints, order[upto - 2], j);
        assert(input.instance.constraints[c] == (order[upto - 2], j));
        assert(schedule.keeps_order(input.instance));
        assert(schedule.jobs[before].job.index == input.instance.constraints[c].0);
        assert(schedule.jobs[k].job.index == input.instance.constraints[c].1);
        assert(schedule.jobs[before].completion() <= schedule.jobs[k].start);
    } else {
        assert(elapsed(input, order, 0) == 0);
        assert(schedule.jobs[k].start >= 0);
    }
    k
}

/// On a single path, packing the jobs as early as possible never yields a
/// larger makespan than scheduling them towards their targets, on the same
/// allotments.
pub proof fn lemma_single_path_compress(packed: ListInput, aimed: ListInput, order: Seq<int>)
    requires
        packed.wf(),
        packed.compress,
        !aimed.compress,
        aimed.instance == packed.instance,
        aimed.allotment == packed.allotment,
        aimed.target == packed.target,
        is_single_path(packed.instance, order),
    ensures
        packed.schedule().makespan() <= aimed.schedule().makespan(),
{
    let n = packed.jobs();
    lemma_single_path_makespan(packed, order);
    let k = lemma_path_lower_bound(aimed, order, n);
    lemma_makespan_covers(aimed.schedule(), k);
    lemma_same_elapsed(packed, aimed, order, n);
}

proof fn lemma_same_elapsed(left: ListInput, right: ListInput, order: Seq<int>, upto: int)
    requires
        left.instance == right.instance,
        left.allotment == right.allotment,
    ensures
        elapsed(left, order, upto) == elapsed(right, order, upto),
    decreases upto,
{
    if upto > 0 {
        lemma_same_elapsed(left, right, order, upto - 1);
    }
}


/// The processing times of the jobs before `upto` on their allotments,
/// added up.
pub open spec fn total_upto(input: ListInput, upto: int) -> int
    decreases upto,
{
    if upto <= 0 {
        0
    } else {
        total_upto(input, upto - 1) + input.duration(upto - 1)
    }
}

/// The processing times of those of the first `places` jobs of the order
/// that are jobs below `below`, added up.
spec fn partial(input: ListInput, order: Seq<int>, places: int, below: int) -> int
    decreases places,
{
    if places <= 0 {
        0
    } else if order[places - 1] < below {
        partial(input, order, places - 1, below) + input.duration(order[places - 1])
    } else {
        partial(input, order, places - 1, below)
    }
}

/// Taking one more job into account adds its processing time if it stands
/// among the places, once.
proof fn lemma_partial_next(input: ListInput, order: Seq<int>, places: int, below: int)
    requires
        0 <= places <= order.len(),
        forall|k: int, l: int| 0 <= k < l < order.len() ==> order[k] != order[l],
    ensures
        partial(input, order, places, below + 1) == partial(input, order, places, below) + if exists|
            k: int,
        |
            0 <= k < places && #[trigger] order[k] == below {
            input.duration(below)
        } else {
            0
        },
    decreases places,
{
    if places > 0 {
        lemma_partial_next(input, order, places - 1, below);
        if order[places - 1] == below {
            if exists|k: int| 0 <= k < places - 1 && #[trigger] order[k] == below {
                let k = choose|k: int| 0 <= k < places - 1 && #[trigger] order[k] == below;
                assert(order[k] != order[places - 1]);
            }
        } else if exists|k: int| 0 <= k < places && #[trigger] order[k] == below {
            let k = choose|k: int| 0 <= k < places && #[trigger] order[k] == below;
            assert(k < places - 1);
        }
    }
}

proof fn lemma_partial_all(input: ListInput, order: Seq<int>, places: int, below: int)
    requires
        0 <= places <= order.len(),
        forall|k: int| 0 <= k < order.len() ==> #[trigger] order[k] < below,
    ensures
        partial(input, order, places, below) == elapsed(input, order, places),
    decreases places,
{
    if places > 0 {
        lemma_partial_all(input, order, places - 1, below);
    }
}

proof fn lemma_partial_none(input: ListInput, order: Seq<int>, places: int)
    requires
        0 <= places <= order.len(),
        forall|k: int| 0 <= k < order.len() ==> 0 <= #[trigger] order[k],
    ensures
        partial(input, order, places, 0) == 0,
    decreases places,
{
    if places > 0 {
        lemma_partial_none(input, order, places - 1);
    }
}

proof fn lemma_partial_total(input: ListInput, order: Seq<int>, below: int)
    requires
        lists_once(input.jobs(), order),
        0 <= below <= input.jobs(),
    ensures
        partial(input, order, order.len() as int, below) == total_upto(input, below),
    decreases below,
{
    if below == 0 {
        lemma_partial_none(input, order, order.len() as int);
    } else {
        lemma_partial_total(input, order, below - 1);
        lemma_partial_next(input, order, order.len() as int, below - 1);
        assert(listed(order, below - 1));
    }
}

/// An order that lists every job once adds up the processing times of all
/// jobs.
pub proof fn lemma_order_total(input: ListInput, order: Seq<int>)
    requires
        lists_once(input.jobs(), order),
    ensures
        elapsed(input, order, input.jobs()) == total_upto(input, input.jobs()),
{
    let n = input.jobs();
    lemma_partial_total(input, order, n);
    lemma_partial_all(input, order, n, n);
}

/// Along a single path the processing times add up to those of all jobs.
pub proof fn lemma_path_total(input: ListInput, order: Seq<int>)
    requires
        input.instance.wf(),
        is_single_path(input.instance, order),
    ensures
        elapsed(input, order, input.jobs()) == total_upto(input, input.jobs()),
{
    let n = input.jobs();
    let rank = choose|rank: Seq<int>| #[trigger] ranks(rank, n, input.instance.constraints);
    assert forall|k: int, l: int| 0 <= k < l < order.len() implies order[k] != order[l] by {
        lemma_path_ranks(input.instance, order, rank, k, l);
    }
    lemma_order_total(input, order);
}

/// On a single path, with one processor for each job and packed as early as
/// possible, the makespan is the sum of the single-processor times.
pub proof fn lemma_single_path_one_processor(input: ListInput, order: Seq<int>)
    requires
        input.wf(),
        input.compress,
        is_single_path(input.instance, order),
        forall|j: int| 0 <= j < input.jobs() ==> #[trigger] input.allotment[j] == 1,
    ensures
        input.schedule().makespan() == crate::algo::single_upto(input.instance, input.jobs()),
{
    lemma_single_path_makespan(input, order);
    lemma_path_total(input, order);
    lemma_total_single(input, input.jobs());
}

proof fn lemma_total_single(input: ListInput, upto: int)
    requires
        0 <= upto <= input.jobs(),
        forall|j: int| 0 <= j < input.jobs() ==> #[trigger] input.allotment[j] == 1,
    ensures
        total_upto(input, upto) == crate::algo::single_upto(input.instance, upto),
    decreases upto,
{
    if upto > 0 {
        lemma_total_single(input, upto - 1);
    }
}

} // verus!
