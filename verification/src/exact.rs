//! The exhaustive search is exact: whatever feasible schedule ends within
//! the time bound, its jobs can be committed in the order of their starts,
//! so that the search finds a schedule that ends no later.

use vstd::prelude::*;
use crate::algo::{InstanceView, ScheduleView, ScheduledJobView, usage};
use crate::chains::{lemma_decomposition_partitions, ordered};
use crate::dp::{DpInput, StateView, Step, lemma_committed_zero};
use crate::order::lemma_relation_witness;
use crate::path::{lemma_makespan_bounded, lemma_makespan_covers};

verus! {

/// The place of job `j` in the schedule.
pub open spec fn place_of(schedule: ScheduleView, j: int) -> int {
    choose|k: int| 0 <= k < schedule.jobs.len() && (#[trigger] schedule.jobs[k]).job.index == j
}

/// Job `j` as the schedule has it.
pub open spec fn entry(schedule: ScheduleView, j: int) -> ScheduledJobView {
    schedule.jobs[place_of(schedule, j)]
}

/// Each of the jobs is scheduled as the schedule has it.
pub open spec fn mirrors(placed: Seq<ScheduledJobView>, schedule: ScheduleView) -> bool {
    forall|k: int| 0 <= k < placed.len() ==> #[trigger] placed[k] == entry(schedule, placed[k].job.index)
}

/// A job of the instance stands in a schedule that covers it, as the
/// instance has it.
pub proof fn lemma_entry(instance: InstanceView, schedule: ScheduleView, j: int)
    requires
        instance.wf(),
        schedule.covers(instance),
        0 <= j < instance.jobs.len(),
    ensures
        0 <= place_of(schedule, j) < schedule.jobs.len(),
        entry(schedule, j).job.index == j,
        entry(schedule, j).job == instance.jobs[j],
        1 <= entry(schedule, j).allotment <= instance.processors,
        entry(schedule, j).start >= 0,
        entry(schedule, j).duration() == instance.time(j, entry(schedule, j).allotment),
        entry(schedule, j).duration() >= 1,
{
    assert(schedule.holds(j));
    let e = entry(schedule, j);
    assert(instance.time(j, e.allotment) >= 1);
}

/// In a feasible schedule a job is done when a job that it directly
/// precedes starts.
pub proof fn lemma_before(instance: InstanceView, schedule: ScheduleView, u: int, v: int)
    requires
        instance.wf(),
        schedule.feasible(instance),
        0 <= u < instance.jobs.len(),
        0 <= v < instance.jobs.len(),
        instance.precedes(u, v),
    ensures
        entry(schedule, u).completion() <= entry(schedule, v).start,
        entry(schedule, u).start < entry(schedule, v).start,
{
    let c = lemma_relation_witness(instance.constraints, u, v);
    lemma_entry(instance, schedule, u);
    lemma_entry(instance, schedule, v);
    let k = place_of(schedule, u);
    let l = place_of(schedule, v);
    assert(instance.constraints[c] == (u, v));
    assert(schedule.jobs[k].job.index == instance.constraints[c].0);
    assert(schedule.jobs[l].job.index == instance.constraints[c].1);
}

/// The scheduled job stands among the jobs.
pub open spec fn among(jobs: Seq<ScheduledJobView>, e: ScheduledJobView) -> bool {
    exists|l: int| 0 <= l < jobs.len() && #[trigger] jobs[l] == e
}

proof fn lemma_usage_remove(jobs: Seq<ScheduledJobView>, t: int, k: int)
    requires
        0 <= k < jobs.len(),
    ensures
        usage(jobs.remove(k), t) == usage(jobs, t) - if jobs[k].runs_at(t) {
            jobs[k].allotment
        } else {
            0
        },
    decreases jobs.len(),
{
    if k == jobs.len() - 1 {
        assert(jobs.remove(k) =~= jobs.drop_last());
    } else {
        lemma_usage_remove(jobs.drop_last(), t, k);
        assert(jobs.remove(k).drop_last() =~= jobs.drop_last().remove(k));
        assert(jobs.remove(k).last() == jobs.last());
    }
}

/// Some of the jobs of a schedule, each taken once, hold no more processors
/// than all of them.
proof fn lemma_usage_within(part: Seq<ScheduledJobView>, whole: Seq<ScheduledJobView>, t: int)
    requires
        forall|k: int, l: int|
            0 <= k < l < part.len() ==> (#[trigger] part[k]).job.index != (#[trigger] part[l]).job.index,
        forall|k: int| 0 <= k < part.len() ==> among(whole, #[trigger] part[k]),
        forall|l: int| 0 <= l < whole.len() ==> (#[trigger] whole[l]).allotment >= 0,
    ensures
        0 <= usage(part, t) <= usage(whole, t),
    decreases part.len(),
{
    if part.len() == 0 {
        lemma_usage_floor(whole, t);
    } else {
        let last = part.last();
        assert(among(whole, part[part.len() - 1]));
        let at = choose|l: int| 0 <= l < whole.len() && #[trigger] whole[l] == part[part.len() - 1];
        let rest = part.drop_last();
        let others = whole.remove(at);
        assert forall|k: int| 0 <= k < rest.len() implies among(others, #[trigger] rest[k]) by {
            assert(rest[k] == part[k]);
            assert(among(whole, part[k]));
            let l = choose|l: int| 0 <= l < whole.len() && #[trigger] whole[l] == part[k];
            assert(part[k].job.index != part[part.len() - 1].job.index);
            if l < at {
                assert(others[l] == rest[k]);
            } else {
                assert(others[l - 1] == rest[k]);
            }
        }
        assert forall|k: int, l: int| 0 <= k < l < rest.len() implies (#[trigger] rest[k]).job.index != (
        #[trigger] rest[l]).job.index by {
            assert(rest[k] == part[k]);
            assert(rest[l] == part[l]);
        }
        assert forall|l: int| 0 <= l < others.len() implies (#[trigger] others[l]).allotment >= 0 by {
            if l < at {
                assert(others[l] == whole[l]);
            } else {
                assert(others[l] == whole[l + 1]);
            }
        }
        lemma_usage_within(rest, others, t);
        lemma_usage_remove(whole, t, at);
    }
}

proof fn lemma_usage_floor(jobs: Seq<ScheduledJobView>, t: int)
    requires
        forall|l: int| 0 <= l < jobs.len() ==> (#[trigger] jobs[l]).allotment >= 0,
    ensures
        usage(jobs, t) >= 0,
    decreases jobs.len(),
{
    if jobs.len() > 0 {
        let rest = jobs.drop_last();
        assert forall|l: int| 0 <= l < rest.len() implies (#[trigger] rest[l]).allotment >= 0 by {
            assert(rest[l] == jobs[l]);
        }
        lemma_usage_floor(rest, t);
    }
}

impl DpInput {
    /// Chain `c` has a job that is not committed.
    pub open spec fn open_chain(self, s: StateView, c: int) -> bool {
        0 <= c < self.chains.len() && s.ideal[c] < self.chains[c].len()
    }

    /// The start, in the schedule, of the next job of chain `c`.
    pub open spec fn head_start(self, schedule: ScheduleView, s: StateView, c: int) -> int {
        entry(schedule, self.chains[c][s.ideal[c]]).start
    }

    /// The step that commits the next job of chain `c` as the schedule has
    /// it.
    pub open spec fn next_step(self, schedule: ScheduleView, s: StateView, c: int) -> Step {
        let e = entry(schedule, self.chains[c][s.ideal[c]]);
        Step { chain: c, allotment: e.allotment, completion: e.completion() }
    }

    /// The state follows the schedule: each front job runs as the schedule
    /// has it, no committed job starts later in the schedule than a job
    /// that is not committed, and the front jobs never hold more processors
    /// than there are.
    pub open spec fn tracks(self, schedule: ScheduleView, s: StateView) -> bool {
        &&& self.state_wf(s)
        &&& forall|c: int|
            0 <= c < self.chains.len() && #[trigger] s.ideal[c] > 0 ==> s.allotment[c] == entry(
                schedule,
                self.front(s, c),
            ).allotment && s.completion[c] == entry(schedule, self.front(s, c)).completion()
        &&& forall|c: int, x: int, d: int, y: int|
            0 <= c < self.chains.len() && 0 <= x < s.ideal[c] && 0 <= d < self.chains.len()
                && s.ideal[d] <= y < self.chains[d].len() ==> entry(
                schedule,
                #[trigger] self.chains[c][x],
            ).start <= entry(schedule, #[trigger] self.chains[d][y]).start
        &&& forall|t: int| #[trigger] self.load(s, t) <= self.instance.processors
    }

    /// Among the chains before `upto` that have a job left, one whose next
    /// job starts first in the schedule; -1 if none has a job left.
    proof fn lemma_next_chain(self, schedule: ScheduleView, s: StateView, upto: int) -> (c: int)
        requires
            0 <= upto <= self.chains.len(),
        ensures
            c == -1 ==> forall|d: int| 0 <= d < upto ==> !#[trigger] self.open_chain(s, d),
            c != -1 ==> 0 <= c < upto && self.open_chain(s, c) && forall|d: int|
                0 <= d < upto && #[trigger] self.open_chain(s, d) ==> self.head_start(schedule, s, c)
                    <= self.head_start(schedule, s, d),
        decreases upto,
    {
        if upto == 0 {
            -1
        } else {
            let best = self.lemma_next_chain(schedule, s, upto - 1);
            let d = upto - 1;
            if self.open_chain(s, d) && (best == -1 || self.head_start(schedule, s, d)
                < self.head_start(schedule, s, best)) {
                d
            } else {
                best
            }
        }
    }

    /// The next job of a chain whose next job starts first starts no later
    /// than any job that is not committed.
    proof fn lemma_first_pending(self, schedule: ScheduleView, s: StateView, c: int, d: int, y: int)
        requires
            self.wf(),
            schedule.feasible(self.instance),
            self.state_wf(s),
            self.open_chain(s, c),
            forall|d: int|
                #[trigger] self.open_chain(s, d) ==> self.head_start(schedule, s, c) <= self.head_start(
                    schedule,
                    s,
                    d,
                ),
            0 <= d < self.chains.len(),
            s.ideal[d] <= y < self.chains[d].len(),
        ensures
            self.head_start(schedule, s, c) <= entry(schedule, self.chains[d][y]).start,
            (d == c && y > s.ideal[c]) ==> self.head_start(schedule, s, c) < entry(
                schedule,
                self.chains[d][y],
            ).start,
    {
        self.lemma_chain_jobs();
        assert(self.open_chain(s, d));
        if y > s.ideal[d] {
            assert(ordered(self.instance.constraints, self.chains[d]));
            let h = self.chains[d][s.ideal[d]];
            let w = self.chains[d][y];
            assert(self.instance.precedes(h, w));
            lemma_before(self.instance, schedule, h, w);
        }
    }

    /// The job whose start comes first among those not committed can be
    /// committed as the schedule has it.
    proof fn lemma_follow_admits(
        self,
        schedule: ScheduleView,
        s: StateView,
        placed: Seq<ScheduledJobView>,
        c: int,
    )
        requires
            self.wf(),
            schedule.feasible(self.instance),
            schedule.done_by(self.instance.max_time),
            self.tracks(schedule, s),
            self.records(s, placed),
            mirrors(placed, schedule),
            self.open_chain(s, c),
            forall|d: int|
                #[trigger] self.open_chain(s, d) ==> self.head_start(schedule, s, c) <= self.head_start(
                    schedule,
                    s,
                    d,
                ),
        ensures
            self.admits(s, self.next_step(schedule, s, c)),
            self.placement(s, self.next_step(schedule, s, c)) == entry(
                schedule,
                self.chains[c][s.ideal[c]],
            ),
    {
        let x = self.next_step(schedule, s, c);
        let v = self.chains[c][s.ideal[c]];
        let e = entry(schedule, v);
        let m = self.instance.processors;
        let width = self.chains.len() as int;
        let after = self.advance(s, x);
        self.lemma_chain_jobs();
        lemma_decomposition_partitions(self.instance, self.chains);
        lemma_entry(self.instance, schedule, v);
        assert(self.job(s, x) == v);
        assert(self.start(s, x) == e.start);
        assert(x.completion <= self.instance.max_time) by {
            assert(schedule.jobs[place_of(schedule, v)].completion() <= self.instance.max_time);
        }
        assert(!self.leads(s, v)) by {
            if self.leads(s, v) {
                let (d, k) = choose|d: int, k: int|
                    0 <= d < self.chains.len() && 0 <= k < s.ideal[d] && self.instance.precedes(
                        v,
                        #[trigger] self.chains[d][k],
                    );
                let w = self.chains[d][k];
                lemma_before(self.instance, schedule, v, w);
                assert(entry(schedule, self.chains[d][k]).start <= entry(
                    schedule,
                    self.chains[c][s.ideal[c]],
                ).start);
            }
        }
        assert forall|d: int| 0 <= d < self.chains.len() && #[trigger] s.ideal[d] > 0 implies {
            &&& self.instance.precedes(self.front(s, d), self.job(s, x)) ==> self.start(s, x)
                >= s.completion[d]
            &&& self.start(s, x) >= self.front_start(s, d)
        } by {
            let f = self.chains[d][s.ideal[d] - 1];
            assert(self.front(s, d) == f);
            lemma_entry(self.instance, schedule, f);
            assert(self.front_start(s, d) == entry(schedule, f).start);
            assert(entry(schedule, self.chains[d][s.ideal[d] - 1]).start <= entry(
                schedule,
                self.chains[c][s.ideal[c]],
            ).start);
            if self.instance.precedes(f, v) {
                lemma_before(self.instance, schedule, f, v);
            }
        }
        assert forall|t: int| #[trigger] self.load(after, t) <= m by {
            self.lemma_load_advance(s, x, t, width);
            assert(self.load(s, t) <= m);
            assert(after.ideal[c] > 0);
            assert(self.front(after, c) == v);
            assert(self.front_start(after, c) == e.start);
            if self.runs(after, c, t) {
                assert forall|d: int| 0 <= d < width && #[trigger] s.ideal[d] > 0 implies self.front_start(
                    s,
                    d,
                ) <= t by {}
                assert(self.after_starts(s, t));
                assert(usage(placed, t) == self.load(s, t));
                if s.ideal[c] > 0 {
                    let f = self.chains[c][s.ideal[c] - 1];
                    assert(ordered(self.instance.constraints, self.chains[c]));
                    assert(self.instance.precedes(f, v));
                    lemma_before(self.instance, schedule, f, v);
                    assert(!self.runs(s, c, t));
                }
                let next = placed.push(e);
                assert(next.drop_last() =~= placed);
                assert(next.last() == e);
                assert(usage(next, t) == usage(placed, t) + e.allotment);
                assert forall|k: int, l: int| 0 <= k < l < next.len() implies (
                #[trigger] next[k]).job.index != (#[trigger] next[l]).job.index by {
                    assert(next[k] == placed[k]);
                    if l < placed.len() {
                        assert(next[l] == placed[l]);
                    } else {
                        assert(self.recorded(s, placed, k));
                        let d = choose|d: int| #[trigger] self.covered(s, d, placed[k]);
                        let y = choose|y: int|
                            0 <= y < s.ideal[d] && #[trigger] self.chains[d][y] == placed[k].job.index;
                        assert(self.chains[d][y] != self.chains[c][s.ideal[c]]);
                    }
                }
                assert forall|k: int| 0 <= k < next.len() implies among(
                    schedule.jobs,
                    #[trigger] next[k],
                ) by {
                    if k < placed.len() {
                        assert(next[k] == placed[k]);
                        assert(self.recorded(s, placed, k));
                        lemma_entry(self.instance, schedule, placed[k].job.index);
                        assert(schedule.jobs[place_of(schedule, placed[k].job.index)] == next[k]);
                    } else {
                        assert(schedule.jobs[place_of(schedule, v)] == next[k]);
                    }
                }
                lemma_usage_within(next, schedule.jobs, t);
                assert(usage(schedule.jobs, t) <= m);
            } else {
                if self.runs(s, c, t) {
                    assert(s.allotment[c] >= 1);
                }
            }
        }
        assert(self.admits(s, x));
    }

    /// After that job is committed the state follows the schedule still.
    proof fn lemma_follow_tracks(self, schedule: ScheduleView, s: StateView, c: int)
        requires
            self.wf(),
            schedule.feasible(self.instance),
            self.tracks(schedule, s),
            self.open_chain(s, c),
            forall|d: int|
                #[trigger] self.open_chain(s, d) ==> self.head_start(schedule, s, c) <= self.head_start(
                    schedule,
                    s,
                    d,
                ),
            self.admits(s, self.next_step(schedule, s, c)),
        ensures
            self.tracks(schedule, self.advance(s, self.next_step(schedule, s, c))),
    {
        let x = self.next_step(schedule, s, c);
        let v = self.chains[c][s.ideal[c]];
        let after = self.advance(s, x);
        self.lemma_chain_jobs();
        self.lemma_advance(s, x);
        assert forall|d: int| 0 <= d < self.chains.len() && #[trigger] after.ideal[d] > 0 implies after.allotment[d]
            == entry(schedule, self.front(after, d)).allotment && after.completion[d] == entry(
            schedule,
            self.front(after, d),
        ).completion() by {
            if d != c {
                assert(s.ideal[d] > 0);
                assert(self.front(after, d) == self.front(s, d));
            }
        }
        assert forall|a: int, x: int, d: int, y: int|
            0 <= a < self.chains.len() && 0 <= x < after.ideal[a] && 0 <= d < self.chains.len()
                && after.ideal[d] <= y < self.chains[d].len() implies entry(
            schedule,
            #[trigger] self.chains[a][x],
        ).start <= entry(schedule, #[trigger] self.chains[d][y]).start by {
            if a == c && x == s.ideal[c] {
                self.lemma_first_pending(schedule, s, c, d, y);
            } else {
                assert(0 <= x < s.ideal[a]);
                assert(s.ideal[d] <= y);
            }
        }
    }

    /// From a state that follows a feasible schedule the jobs left can be
    /// committed as the schedule has them, none done later than the
    /// schedule's makespan.
    proof fn lemma_follow(self, schedule: ScheduleView, s: StateView, placed: Seq<ScheduledJobView>) -> (path:
        Seq<Step>)
        requires
            self.wf(),
            schedule.feasible(self.instance),
            schedule.done_by(self.instance.max_time),
            self.tracks(schedule, s),
            self.records(s, placed),
            mirrors(placed, schedule),
        ensures
            self.completes(s, path),
            Self::ends_by(path, schedule.makespan()),
        decreases self.remaining(s),
    {
        let width = self.chains.len() as int;
        let c = self.lemma_next_chain(schedule, s, width);
        if c == -1 {
            assert forall|d: int| 0 <= d < width implies #[trigger] s.ideal[d] == self.chains[d].len() by {
                assert(!self.open_chain(s, d));
            }
            self.lemma_all_committed(s, width);
            self.lemma_length();
            Seq::empty()
        } else {
            assert forall|d: int| #[trigger] self.open_chain(s, d) implies self.head_start(
                schedule,
                s,
                c,
            ) <= self.head_start(schedule, s, d) by {}
            let x = self.next_step(schedule, s, c);
            let v = self.chains[c][s.ideal[c]];
            self.lemma_chain_jobs();
            self.lemma_follow_admits(schedule, s, placed, c);
            self.lemma_follow_tracks(schedule, s, c);
            self.lemma_advance(s, x);
            self.lemma_records_step(s, placed, x);
            let after = self.advance(s, x);
            let next = placed.push(self.placement(s, x));
            assert(mirrors(next, schedule)) by {
                lemma_entry(self.instance, schedule, v);
                assert forall|k: int| 0 <= k < next.len() implies #[trigger] next[k] == entry(
                    schedule,
                    next[k].job.index,
                ) by {
                    if k < placed.len() {
                        assert(next[k] == placed[k]);
                    }
                }
            }
            let rest = self.lemma_follow(schedule, after, next);
            let path = seq![x] + rest;
            assert(path[0] == x);
            assert(path.drop_first() =~= rest);
            lemma_entry(self.instance, schedule, v);
            lemma_makespan_covers(schedule, place_of(schedule, v));
            path
        }
    }

    /// Where every chain is committed to its end, every job is committed.
    proof fn lemma_all_committed(self, s: StateView, upto: int)
        requires
            0 <= upto <= self.chains.len(),
            forall|d: int| 0 <= d < upto ==> #[trigger] s.ideal[d] == self.chains[d].len(),
        ensures
            crate::dp::committed_upto(s.ideal, upto) == crate::dp::length_upto(self.chains, upto),
        decreases upto,
    {
        if upto > 0 {
            self.lemma_all_committed(s, upto - 1);
        }
    }

    /// The jobs that steps commit are done when the steps say.
    proof fn lemma_outcome_ends(self, s: StateView, path: Seq<Step>, bound: int)
        requires
            Self::ends_by(path, bound),
        ensures
            forall|k: int|
                0 <= k < self.placements(s, path).len() ==> (#[trigger] self.placements(
                    s,
                    path,
                )[k]).completion() <= bound,
        decreases path.len(),
    {
        if path.len() > 0 {
            let all = self.placements(s, path);
            let after = self.advance(s, path[0]);
            let rest = self.placements(after, path.drop_first());
            self.lemma_outcome_ends(after, path.drop_first(), bound);
            assert(all =~= seq![self.placement(s, path[0])] + rest);
            assert forall|k: int| 0 <= k < all.len() implies (#[trigger] all[k]).completion() <= bound by {
                if k > 0 {
                    assert(all[k] == rest[k - 1]);
                }
            }
        }
    }

    /// Whatever feasible schedule ends within the time bound, some steps
    /// commit every job and give a schedule that ends no later.
    pub proof fn lemma_complete(self, schedule: ScheduleView) -> (path: Seq<Step>)
        requires
            self.wf(),
            schedule.feasible(self.instance),
            schedule.done_by(self.instance.max_time),
        ensures
            self.completes(self.initial(), path),
            self.outcome(path).makespan() <= schedule.makespan(),
    {
        let start = self.initial();
        let none = Seq::<ScheduledJobView>::empty();
        let width = self.chains.len() as int;
        lemma_committed_zero(start.ideal, width);
        assert forall|t: int| #[trigger] self.load(start, t) == 0 by {
            self.lemma_load_idle(start, t, width);
        }
        assert(self.records(start, none));
        assert(self.tracks(schedule, start));
        let path = self.lemma_follow(schedule, start, none);
        self.lemma_outcome_ends(start, path, schedule.makespan());
        lemma_entry(self.instance, schedule, 0);
        lemma_makespan_covers(schedule, place_of(schedule, 0));
        lemma_makespan_bounded(self.outcome(path), schedule.makespan());
        path
    }
}

/// No feasible schedule that ends within `bound` ends before `span`.
pub open spec fn shortest(instance: InstanceView, bound: int, span: int) -> bool {
    forall|other: ScheduleView| #[trigger]
        other.feasible(instance) && other.done_by(bound) ==> span <= other.makespan()
}

/// There is a feasible schedule that ends within `bound`.
pub open spec fn schedulable(instance: InstanceView, bound: int) -> bool {
    exists|other: ScheduleView| #[trigger] other.feasible(instance) && other.done_by(bound)
}

/// A schedule of least makespan ends no later than the schedule that
/// another solver gives, where that one is feasible and ends within the
/// time bound.
pub proof fn lemma_no_later(instance: InstanceView, least: ScheduleView, other: ScheduleView)
    requires
        shortest(instance, instance.max_time, least.makespan()),
        other.feasible(instance),
        other.done_by(instance.max_time),
    ensures
        least.makespan() <= other.makespan(),
{
}

} // verus!
