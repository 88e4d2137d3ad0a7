//! Jobs that run one at a time: instances on which no two jobs can run
//! side by side, because one directly precedes the other or because their
//! allotments together exceed the processors. There the list scheduler
//! never gains from a target: packing the jobs as early as possible gives
//! no larger a makespan.

use vstd::prelude::*;
use crate::algo::{ScheduleView, ScheduledJobView, usage};
use crate::list::{ListInput, ListState, larger, lemma_block_free_below, lemma_fit_upto};
use crate::path::{elapsed, lemma_makespan_bounded, lemma_makespan_covers, lemma_order_total, lists_once, total_upto};

verus! {

/// The processing times of the scheduled jobs, added up.
pub open spec fn spent(jobs: Seq<ScheduledJobView>) -> int
    decreases jobs.len(),
{
    if jobs.len() == 0 {
        0
    } else {
        spent(jobs.drop_last()) + jobs.last().duration()
    }
}

/// No two of the scheduled jobs run at the same instant.
pub open spec fn one_at_a_time(jobs: Seq<ScheduledJobView>) -> bool {
    forall|k: int, l: int|
        0 <= k < l < jobs.len() ==> (#[trigger] jobs[k]).completion() <= (#[trigger] jobs[l]).start
            || jobs[l].completion() <= jobs[k].start
}

/// No two jobs can run side by side: of any two, one directly precedes the
/// other, or their allotments together exceed the processors.
pub open spec fn serial(input: ListInput) -> bool {
    forall|i: int, j: int|
        0 <= i < j < input.jobs() ==> #[trigger] input.feeds(i, j) || input.feeds(j, i)
            || input.allotment[i] + input.allotment[j] > input.instance.processors
}

/// The job index of each scheduled job.
pub open spec fn indices(jobs: Seq<ScheduledJobView>) -> Seq<int> {
    Seq::new(jobs.len(), |k: int| jobs[k].job.index)
}

/// No position is held, and no job done, later than the processing times
/// of the scheduled jobs add up to.
pub open spec fn capped(st: ListState) -> bool {
    &&& forall|q: int| 0 <= q < st.free.len() ==> #[trigger] st.free[q] <= spent(st.placed)
    &&& forall|j: int|
        0 <= j < st.finish.len() && (#[trigger] st.finish[j]) is Some ==> st.finish[j].unwrap()
            <= spent(st.placed)
}

proof fn lemma_spent_remove(jobs: Seq<ScheduledJobView>, k: int)
    requires
        0 <= k < jobs.len(),
    ensures
        spent(jobs.remove(k)) == spent(jobs) - jobs[k].duration(),
    decreases jobs.len(),
{
    if k == jobs.len() - 1 {
        assert(jobs.remove(k) =~= jobs.drop_last());
    } else {
        lemma_spent_remove(jobs.drop_last(), k);
        assert(jobs.remove(k).drop_last() =~= jobs.drop_last().remove(k));
        assert(jobs.remove(k).last() == jobs.last());
    }
}

/// Some job is done at the makespan.
proof fn lemma_makespan_attained(schedule: ScheduleView) -> (k: int)
    requires
        schedule.jobs.len() >= 1,
        forall|p: int| 0 <= p < schedule.jobs.len() ==> (#[trigger] schedule.jobs[p]).completion() >= 0,
    ensures
        0 <= k < schedule.jobs.len(),
        schedule.jobs[k].completion() == schedule.makespan(),
    decreases schedule.jobs.len(),
{
    let rest = ScheduleView { processors: schedule.processors, jobs: schedule.jobs.drop_last() };
    if schedule.jobs.last().completion() >= rest.makespan() {
        schedule.jobs.len() - 1
    } else {
        assert(rest.jobs.len() >= 1);
        assert forall|p: int| 0 <= p < rest.jobs.len() implies (#[trigger] rest.jobs[p]).completion()
            >= 0 by {
            assert(rest.jobs[p] == schedule.jobs[p]);
        }
        let k = lemma_makespan_attained(rest);
        assert(rest.jobs[k] == schedule.jobs[k]);
        k
    }
}

/// Jobs that run one at a time take as long together as their processing
/// times add up to, or longer.
pub proof fn lemma_one_at_a_time_fills(schedule: ScheduleView)
    requires
        one_at_a_time(schedule.jobs),
        forall|p: int|
            0 <= p < schedule.jobs.len() ==> (#[trigger] schedule.jobs[p]).start >= 0
                && schedule.jobs[p].duration() >= 1,
    ensures
        spent(schedule.jobs) <= schedule.makespan(),
    decreases schedule.jobs.len(),
{
    let jobs = schedule.jobs;
    if jobs.len() > 0 {
        let k = lemma_makespan_attained(schedule);
        let last = jobs[k];
        let rest = ScheduleView { processors: schedule.processors, jobs: jobs.remove(k) };
        assert forall|p: int| 0 <= p < rest.jobs.len() implies (#[trigger] rest.jobs[p]).start >= 0
            && rest.jobs[p].duration() >= 1 && rest.jobs[p].completion() <= last.start by {
            let q = if p < k {
                p
            } else {
                p + 1
            };
            assert(rest.jobs[p] == jobs[q]);
            lemma_makespan_covers(schedule, q);
            if q < k {
                assert(jobs[q].completion() <= jobs[k].start || jobs[k].completion() <= jobs[q].start);
            } else {
                assert(jobs[k].completion() <= jobs[q].start || jobs[q].completion() <= jobs[k].start);
            }
        }
        assert forall|p: int, r: int| 0 <= p < r < rest.jobs.len() implies (
        #[trigger] rest.jobs[p]).completion() <= (#[trigger] rest.jobs[r]).start
            || rest.jobs[r].completion() <= rest.jobs[p].start by {
            let q = if p < k {
                p
            } else {
                p + 1
            };
            let u = if r < k {
                r
            } else {
                r + 1
            };
            assert(rest.jobs[p] == jobs[q]);
            assert(rest.jobs[r] == jobs[u]);
            assert(jobs[q].completion() <= jobs[u].start || jobs[u].completion() <= jobs[q].start);
        }
        lemma_one_at_a_time_fills(rest);
        lemma_makespan_bounded(rest, last.start);
        lemma_spent_remove(jobs, k);
    }
}

proof fn lemma_usage_running(jobs: Seq<ScheduledJobView>, t: int, k: int)
    requires
        forall|p: int| 0 <= p < jobs.len() ==> (#[trigger] jobs[p]).allotment >= 0,
        0 <= k < jobs.len() ==> jobs[k].runs_at(t),
    ensures
        usage(jobs, t) >= 0,
        0 <= k < jobs.len() ==> usage(jobs, t) >= jobs[k].allotment,
    decreases jobs.len(),
{
    if jobs.len() > 0 {
        let rest = jobs.drop_last();
        assert forall|p: int| 0 <= p < rest.len() implies (#[trigger] rest[p]).allotment >= 0 by {
            assert(rest[p] == jobs[p]);
        }
        if 0 <= k < rest.len() {
            assert(rest[k] == jobs[k]);
        }
        lemma_usage_running(rest, t, k);
    }
}

/// Two jobs that run at an instant hold their allotments together.
proof fn lemma_usage_pair(jobs: Seq<ScheduledJobView>, t: int, k: int, l: int)
    requires
        forall|p: int| 0 <= p < jobs.len() ==> (#[trigger] jobs[p]).allotment >= 0,
        0 <= k < l < jobs.len(),
        jobs[k].runs_at(t),
        jobs[l].runs_at(t),
    ensures
        usage(jobs, t) >= jobs[k].allotment + jobs[l].allotment,
    decreases jobs.len(),
{
    let rest = jobs.drop_last();
    assert forall|p: int| 0 <= p < rest.len() implies (#[trigger] rest[p]).allotment >= 0 by {
        assert(rest[p] == jobs[p]);
    }
    assert(rest[k] == jobs[k]);
    if l == jobs.len() - 1 {
        lemma_usage_running(rest, t, k);
    } else {
        assert(rest[l] == jobs[l]);
        lemma_usage_pair(rest, t, k, l);
    }
}

/// Where no two jobs can run side by side, the jobs of the schedule run one
/// at a time.
pub proof fn lemma_serial_one_at_a_time(input: ListInput)
    requires
        input.wf(),
        serial(input),
    ensures
        one_at_a_time(input.schedule().jobs),
{
    let n = input.jobs();
    let m = input.instance.processors;
    let st = input.run(n as nat);
    let jobs = st.placed;
    input.lemma_run(n as nat);
    input.lemma_schedule_feasible();
    assert forall|p: int| 0 <= p < jobs.len() implies (#[trigger] jobs[p]).allotment >= 0 by {
        assert(input.placed_well(st, p, n));
    }
    assert forall|k: int, l: int| 0 <= k < l < jobs.len() implies (#[trigger] jobs[k]).completion() <= (
    #[trigger] jobs[l]).start || jobs[l].completion() <= jobs[k].start by {
        assert(input.placed_well(st, k, n));
        assert(input.placed_well(st, l, n));
        let i = jobs[k].job.index;
        let j = jobs[l].job.index;
        assert(i != j);
        assert(input.instance.time(i, input.allotment[i]) >= 1);
        assert(input.instance.time(j, input.allotment[j]) >= 1);
        if input.feeds(i, j) {
            assert(input.done_before(st, i, l));
        } else if input.feeds(j, i) {
            assert(input.done_before(st, j, k));
        } else {
            if i < j {
                assert(input.feeds(i, j) || input.feeds(j, i) || input.allotment[i] + input.allotment[j]
                    > m);
            } else {
                assert(input.feeds(j, i) || input.feeds(i, j) || input.allotment[j] + input.allotment[i]
                    > m);
            }
            if !(jobs[k].completion() <= jobs[l].start || jobs[l].completion() <= jobs[k].start) {
                let t = larger(jobs[k].start, jobs[l].start);
                lemma_usage_pair(jobs, t, k, l);
                assert(usage(input.schedule().jobs, t) <= m);
            }
        }
    }
}

/// Packed as early as possible, no position is held and no job done later
/// than the processing times of the jobs scheduled so far add up to.
proof fn lemma_capped_run(input: ListInput, picks: nat)
    requires
        input.wf(),
        input.compress,
        picks <= input.jobs(),
    ensures
        capped(input.run(picks)),
        spent(input.run(picks).placed) >= 0,
    decreases picks,
{
    if picks > 0 {
        let n = input.jobs();
        let st = input.run((picks - 1) as nat);
        lemma_capped_run(input, (picks - 1) as nat);
        input.lemma_run((picks - 1) as nat);
        input.lemma_step(st, picks - 1);
        input.lemma_pick(st, n);
        let j = input.pick(st).unwrap();
        let d = spent(st.placed);
        let a = input.allotment[j];
        input.lemma_release(st, j, n, d);
        lemma_block_free_below(st.free, 0, a, d);
        lemma_fit_upto(st.free, a, st.free.len() - a);
        let e = input.placement(st, j);
        let next = input.place(st, j);
        assert(next == input.run(picks));
        assert(e.start <= d);
        assert(e.duration() == input.instance.time(j, a));
        assert(input.instance.time(j, a) >= 1);
        assert(next.placed.drop_last() =~= st.placed);
        assert(spent(next.placed) == d + e.duration());
    }
}

/// Packed as early as possible, the jobs take no longer together than their
/// processing times add up to.
pub proof fn lemma_packed_within_spent(input: ListInput)
    requires
        input.wf(),
        input.compress,
    ensures
        input.schedule().makespan() <= spent(input.schedule().jobs),
{
    let n = input.jobs();
    let st = input.run(n as nat);
    lemma_capped_run(input, n as nat);
    input.lemma_run(n as nat);
    assert forall|k: int| 0 <= k < st.placed.len() implies (#[trigger] st.placed[k]).completion()
        <= spent(st.placed) by {
        assert(input.placed_well(st, k, n));
    }
    lemma_makespan_bounded(input.schedule(), spent(st.placed));
}

proof fn lemma_spent_elapsed(input: ListInput, jobs: Seq<ScheduledJobView>, upto: int)
    requires
        0 <= upto <= jobs.len(),
        forall|k: int|
            0 <= k < jobs.len() ==> (#[trigger] jobs[k]).duration() == input.duration(jobs[k].job.index),
    ensures
        spent(jobs.subrange(0, upto)) == elapsed(input, indices(jobs), upto),
    decreases upto,
{
    if upto > 0 {
        lemma_spent_elapsed(input, jobs, upto - 1);
        assert(jobs.subrange(0, upto).drop_last() =~= jobs.subrange(0, upto - 1));
        assert(jobs.subrange(0, upto).last() == jobs[upto - 1]);
    }
}

/// The processing times of the jobs of the schedule add up to those of all
/// jobs on their allotments.
pub proof fn lemma_spent_total(input: ListInput)
    requires
        input.wf(),
    ensures
        spent(input.schedule().jobs) == total_upto(input, input.jobs()),
{
    let n = input.jobs();
    let st = input.run(n as nat);
    let jobs = input.schedule().jobs;
    let order = indices(jobs);
    input.lemma_run(n as nat);
    input.lemma_schedule_feasible();
    assert forall|k: int| 0 <= k < jobs.len() implies (#[trigger] jobs[k]).duration() == input.duration(
        jobs[k].job.index,
    ) by {
        assert(input.placed_well(st, k, n));
    }
    assert(lists_once(n, order)) by {
        assert forall|k: int| 0 <= k < order.len() implies 0 <= #[trigger] order[k] < n by {
            assert(input.placed_well(st, k, n));
        }
        assert forall|j: int| 0 <= j < n implies #[trigger] crate::path::listed(order, j) by {
            assert(input.schedule().holds(j));
            let k = choose|k: int| 0 <= k < jobs.len() && (#[trigger] jobs[k]).job.index == j;
            assert(order[k] == j);
        }
    }
    lemma_spent_elapsed(input, jobs, n);
    assert(jobs.subrange(0, n) =~= jobs);
    lemma_order_total(input, order);
}

/// Packed as early as possible, the jobs take no longer together than the
/// processing times of all jobs on their allotments add up to.
pub proof fn lemma_packed_within_total(input: ListInput)
    requires
        input.wf(),
        input.compress,
    ensures
        input.schedule().makespan() <= total_upto(input, input.jobs()),
{
    lemma_packed_within_spent(input);
    lemma_spent_total(input);
}

/// Where the jobs scheduled towards their targets run one at a time,
/// packing them as early as possible yields no larger a makespan, on the
/// same allotments.
pub proof fn lemma_compress_one_at_a_time(packed: ListInput, aimed: ListInput)
    requires
        packed.wf(),
        packed.compress,
        !aimed.compress,
        aimed.instance == packed.instance,
        aimed.allotment == packed.allotment,
        aimed.target == packed.target,
        one_at_a_time(aimed.schedule().jobs),
    ensures
        packed.schedule().makespan() <= aimed.schedule().makespan(),
{
    let n = packed.jobs();
    lemma_packed_within_total(packed);
    lemma_spent_total(aimed);
    let st = aimed.run(n as nat);
    aimed.lemma_run(n as nat);
    assert forall|p: int| 0 <= p < aimed.schedule().jobs.len() implies (
    #[trigger] aimed.schedule().jobs[p]).start >= 0 && aimed.schedule().jobs[p].duration() >= 1 by {
        assert(aimed.placed_well(st, p, n));
        let j = st.placed[p].job.index;
        assert(aimed.instance.time(j, aimed.allotment[j]) >= 1);
    }
    lemma_one_at_a_time_fills(aimed.schedule());
    lemma_same_total(packed, aimed, n);
}

/// Where no two jobs can run side by side, packing the jobs as early as
/// possible never yields a larger makespan than scheduling them towards
/// their targets, on the same allotments.
pub proof fn lemma_serial_compress(packed: ListInput, aimed: ListInput)
    requires
        packed.wf(),
        packed.compress,
        !aimed.compress,
        aimed.instance == packed.instance,
        aimed.allotment == packed.allotment,
        aimed.target == packed.target,
        serial(packed),
    ensures
        packed.schedule().makespan() <= aimed.schedule().makespan(),
{
    assert(serial(aimed)) by {
        assert forall|i: int, j: int| 0 <= i < j < aimed.jobs() implies #[trigger] aimed.feeds(i, j)
            || aimed.feeds(j, i) || aimed.allotment[i] + aimed.allotment[j]
            > aimed.instance.processors by {
            assert(packed.feeds(i, j) || packed.feeds(j, i) || packed.allotment[i] + packed.allotment[j]
                > packed.instance.processors);
        }
    }
    lemma_serial_one_at_a_time(aimed);
    lemma_compress_one_at_a_time(packed, aimed);
}

proof fn lemma_same_total(left: ListInput, right: ListInput, upto: int)
    requires
        left.instance == right.instance,
        left.allotment == right.allotment,
    ensures
        total_upto(left, upto) == total_upto(right, upto),
    decreases upto,
{
    if upto > 0 {
        lemma_same_total(left, right, upto - 1);
    }
}

} // verus!
