//! The list scheduler: from an allotment per job to a feasible schedule.
//!
//! The processors stand side by side at positions `0..m`, and a job holds a
//! block of adjacent positions. `free[q]` is the instant from which position
//! `q` is free. A block of `a` positions fits at instant `t` when each of its
//! positions is free by `t`; the scheduler takes the first such block.

use vstd::prelude::*;
use crate::algo::{Instance, InstanceView, Job, PartialRelation, Schedule, ScheduleView, ScheduledJob, ScheduledJobView, usage, ranks};
use crate::error::SchedulingError;
use crate::order::{lemma_lowest_pending, lemma_pair_precedes, lemma_pending_all, lemma_pending_none, lemma_pending_update, lemma_precedes_ranked, pending_upto};

verus! {

/// The larger of two numbers.
pub open spec fn larger(x: int, y: int) -> int {
    if x >= y {
        x
    } else {
        y
    }
}

/// The smaller of two numbers.
pub open spec fn smaller(x: int, y: int) -> int {
    if x <= y {
        x
    } else {
        y
    }
}

/// The instant from which the `a` positions from `w` on are all free.
pub open spec fn block_free(free: Seq<int>, w: int, a: int) -> int
    decreases a,
{
    if a <= 0 {
        0
    } else {
        larger(block_free(free, w, a - 1), free[w + a - 1])
    }
}

/// The earliest instant from which some block of `a` positions that starts
/// at `w` or before it is free.
pub open spec fn fit_upto(free: Seq<int>, a: int, w: int) -> int
    decreases w,
{
    if w <= 0 {
        block_free(free, 0, a)
    } else {
        smaller(fit_upto(free, a, w - 1), block_free(free, w, a))
    }
}

/// The earliest instant from which some block of `a` positions is free.
pub open spec fn fit(free: Seq<int>, a: int) -> int {
    fit_upto(free, a, free.len() - a)
}

/// The first block of `a` positions, from `w` on, that is free by `t`; the
/// last block if there is none.
pub open spec fn first_block(free: Seq<int>, a: int, t: int, w: int) -> int
    decreases free.len() - a - w,
{
    if w >= free.len() - a || block_free(free, w, a) <= t {
        w
    } else {
        first_block(free, a, t, w + 1)
    }
}

/// The positions from `w` on, `a` of them, are held until `until`.
pub open spec fn occupy(free: Seq<int>, w: int, a: int, until: int) -> Seq<int> {
    Seq::new(
        free.len(),
        |q: int|
            if w <= q < w + a {
                until
            } else {
                free[q]
            },
    )
}

/// The positions before `upto` that are held beyond instant `t`.
pub open spec fn held_upto(free: Seq<int>, t: int, upto: int) -> int
    decreases upto,
{
    if upto <= 0 {
        0
    } else {
        held_upto(free, t, upto - 1) + if free[upto - 1] > t {
            1int
        } else {
            0int
        }
    }
}

/// Position `x` lies in the block of the job at `k`.
pub open spec fn in_block(jobs: Seq<ScheduledJobView>, blocks: Seq<int>, k: int, x: int) -> bool {
    blocks[k] <= x < blocks[k] + jobs[k].allotment
}

/// Every job has a block of as many positions as it has processors, among
/// the `m` positions, and two jobs whose blocks share a position do not run
/// at the same time: the one scheduled first is done when the other starts.
pub open spec fn blocks_apart(jobs: Seq<ScheduledJobView>, blocks: Seq<int>, m: int) -> bool {
    &&& blocks.len() == jobs.len()
    &&& forall|k: int| 0 <= k < jobs.len() ==> 0 <= #[trigger] blocks[k] && blocks[k] + jobs[k].allotment <= m
    &&& forall|k: int, l: int, x: int|
        0 <= k < l < jobs.len() && #[trigger] in_block(jobs, blocks, k, x) && #[trigger] in_block(
            jobs,
            blocks,
            l,
            x,
        ) ==> jobs[k].completion() <= jobs[l].start
}

/// What the scheduler is given.
pub struct ListInput {
    pub instance: InstanceView,
    /// The processors allotted to each job.
    pub allotment: Seq<int>,
    /// The completion time suggested for each job.
    pub target: Seq<int>,
    /// Pack the jobs as early as possible, whatever is suggested.
    pub compress: bool,
}

/// The scheduler between two picks.
pub struct ListState {
    /// The jobs scheduled so far, in the order in which they were picked.
    pub placed: Seq<ScheduledJobView>,
    /// For each job its completion time, once it is scheduled.
    pub finish: Seq<Option<int>>,
    /// For each position the instant from which it is free.
    pub free: Seq<int>,
    /// For each job scheduled so far, the first position of its block.
    pub blocks: Seq<int>,
}

impl ListInput {
    /// The number of jobs.
    pub open spec fn jobs(self) -> int {
        self.instance.jobs.len() as int
    }

    /// The instance is well formed, and each job has an allotment between 1
    /// and the number of processors, and a target.
    pub open spec fn wf(self) -> bool {
        &&& self.instance.wf()
        &&& self.allotment.len() == self.jobs()
        &&& self.target.len() == self.jobs()
        &&& forall|j: int|
            0 <= j < self.jobs() ==> 1 <= #[trigger] self.allotment[j] <= self.instance.processors
    }

    /// The processing time of job `j` on its allotment.
    pub open spec fn duration(self, j: int) -> int {
        self.instance.time(j, self.allotment[j])
    }

    /// The start suggested for job `j`.
    pub open spec fn suggested(self, j: int) -> int {
        if self.compress {
            0
        } else {
            self.target[j] - self.duration(j)
        }
    }

    /// Nothing is scheduled and every position is free.
    pub open spec fn initial(self) -> ListState {
        ListState {
            placed: Seq::empty(),
            finish: Seq::new(self.jobs() as nat, |j: int| None),
            free: Seq::new(self.instance.processors as nat, |q: int| 0int),
            blocks: Seq::empty(),
        }
    }

    /// Job `i` is another job than `j` and directly precedes it.
    pub open spec fn feeds(self, i: int, j: int) -> bool {
        i != j && self.instance.precedes(i, j)
    }

    /// Job `j` is not scheduled, and every job that directly precedes it is.
    pub open spec fn ready(self, st: ListState, j: int) -> bool {
        &&& st.finish[j] is None
        &&& forall|i: int| 0 <= i < self.jobs() && #[trigger] self.feeds(i, j) ==> st.finish[i] is Some
    }

    /// The latest completion time among the scheduled jobs before `upto` that
    /// directly precede `j`, 0 for none.
    pub open spec fn release_upto(self, st: ListState, j: int, upto: int) -> int
        decreases upto,
    {
        if upto <= 0 {
            0
        } else if self.feeds(upto - 1, j) && st.finish[upto - 1] is Some {
            larger(self.release_upto(st, j, upto - 1), st.finish[upto - 1].unwrap())
        } else {
            self.release_upto(st, j, upto - 1)
        }
    }

    /// The earliest start of job `j`: not before the suggested start, not
    /// before a job that directly precedes it is done, and not before a block
    /// of its allotment is free.
    pub open spec fn earliest(self, st: ListState, j: int) -> int {
        larger(
            larger(self.suggested(j), self.release_upto(st, j, self.jobs())),
            fit(st.free, self.allotment[j]),
        )
    }

    /// Among the ready jobs before `upto`, the first of those with the
    /// smallest earliest start.
    pub open spec fn pick_upto(self, st: ListState, upto: int) -> Option<int>
        decreases upto,
    {
        if upto <= 0 {
            None
        } else {
            let best = self.pick_upto(st, upto - 1);
            if self.ready(st, upto - 1) && (best is None || self.earliest(st, upto - 1)
                < self.earliest(st, best.unwrap())) {
                Some(upto - 1)
            } else {
                best
            }
        }
    }

    /// The job to schedule next.
    pub open spec fn pick(self, st: ListState) -> Option<int> {
        self.pick_upto(st, self.jobs())
    }

    /// Job `j` as it is scheduled in state `st`.
    pub open spec fn placement(self, st: ListState, j: int) -> ScheduledJobView {
        ScheduledJobView {
            job: self.instance.jobs[j],
            allotment: self.allotment[j],
            start: self.earliest(st, j),
        }
    }

    /// The state after job `j` is scheduled at its earliest start, on the
    /// first block that is free by then.
    pub open spec fn place(self, st: ListState, j: int) -> ListState {
        let placed = self.placement(st, j);
        let block = first_block(st.free, placed.allotment, placed.start, 0);
        ListState {
            placed: st.placed.push(placed),
            finish: st.finish.update(j, Some(placed.completion())),
            free: occupy(st.free, block, placed.allotment, placed.completion()),
            blocks: st.blocks.push(block),
        }
    }

    /// One pick: the state after the next job is scheduled, if one is ready.
    pub open spec fn step(self, st: ListState) -> ListState {
        match self.pick(st) {
            Some(j) => self.place(st, j),
            None => st,
        }
    }

    /// The state after `picks` picks.
    pub open spec fn run(self, picks: nat) -> ListState
        decreases picks,
    {
        if picks == 0 {
            self.initial()
        } else {
            self.step(self.run((picks - 1) as nat))
        }
    }

    /// The schedule: what is placed after one pick per job.
    pub open spec fn schedule(self) -> ScheduleView {
        ScheduleView {
            processors: self.instance.processors,
            jobs: self.run(self.jobs() as nat).placed,
        }
    }

    /// The first position of the block of each job of the schedule.
    pub open spec fn blocks(self) -> Seq<int> {
        self.run(self.jobs() as nat).blocks
    }

    /// The largest target, 0 if none is positive or the targets are not used.
    pub open spec fn latest_target_upto(self, upto: int) -> int
        decreases upto,
    {
        if upto <= 0 || self.compress {
            0
        } else {
            larger(self.latest_target_upto(upto - 1), self.target[upto - 1])
        }
    }

    /// The largest processing time of a job on its allotment.
    pub open spec fn longest_upto(self, upto: int) -> int
        decreases upto,
    {
        if upto <= 0 {
            0
        } else {
            larger(self.longest_upto(upto - 1), self.duration(upto - 1))
        }
    }

    /// A bound on every time of the schedule after `picks` picks: the largest
    /// target, and after it each job picked, taken as long as the longest.
    pub open spec fn bound(self, picks: int) -> int {
        self.latest_target_upto(self.jobs()) + picks * self.longest_upto(self.jobs())
    }

    /// A bound on every time of the schedule.
    pub open spec fn horizon(self) -> int {
        self.bound(self.jobs())
    }

    /// The job placed at `p` is a job of the instance on its allotment, does
    /// not start before 0, and is recorded as done when it completes.
    pub open spec fn placed_well(self, st: ListState, p: int, picks: int) -> bool {
        let x = st.placed[p];
        &&& 0 <= x.job.index < self.jobs()
        &&& x.job == self.instance.jobs[x.job.index]
        &&& x.allotment == self.allotment[x.job.index]
        &&& x.start >= 0
        &&& st.finish[x.job.index] == Some(x.completion())
        &&& x.completion() <= self.bound(picks)
    }

    /// Job `j` is placed.
    pub open spec fn placed_somewhere(self, st: ListState, j: int) -> bool {
        exists|p: int| 0 <= p < st.placed.len() && (#[trigger] st.placed[p]).job.index == j
    }

    /// Job `i` is done when the job placed at `p` starts.
    pub open spec fn done_before(self, st: ListState, i: int, p: int) -> bool {
        st.finish[i] is Some && st.finish[i].unwrap() <= st.placed[p].start
    }

    /// What holds of the scheduler's state after `picks` picks.
    pub open spec fn consistent(self, st: ListState, picks: int) -> bool {
        &&& st.placed.len() == picks
        &&& blocks_apart(st.placed, st.blocks, self.instance.processors)
        &&& forall|p: int, x: int|
            0 <= p < picks && #[trigger] in_block(st.placed, st.blocks, p, x) ==> st.placed[p].completion()
                <= st.free[x]
        &&& st.finish.len() == self.jobs()
        &&& st.free.len() == self.instance.processors
        &&& pending_upto(st.finish, self.jobs()) == self.jobs() - picks
        &&& forall|p: int| 0 <= p < picks ==> #[trigger] self.placed_well(st, p, picks)
        &&& forall|p: int, q: int|
            0 <= p < q < picks ==> (#[trigger] st.placed[p]).job.index != (
            #[trigger] st.placed[q]).job.index
        &&& forall|j: int|
            0 <= j < self.jobs() && (#[trigger] st.finish[j]) is Some ==> self.placed_somewhere(
                st,
                j,
            )
        &&& forall|p: int, i: int|
            0 <= p < picks && 0 <= i < self.jobs() && self.feeds(i, st.placed[p].job.index)
                ==> #[trigger] self.done_before(st, i, p)
        &&& forall|q: int|
            0 <= q < st.free.len() ==> 0 <= #[trigger] st.free[q] <= self.bound(picks)
        &&& forall|t: int| #[trigger] usage(st.placed, t) <= held_upto(st.free, t, st.free.len() as int)
    }
}


/// How many of the positions before `upto` lie in the block of `a` positions
/// from `w` on.
pub open spec fn overlap(upto: int, w: int, a: int) -> int {
    if upto <= w {
        0
    } else if upto >= w + a {
        a
    } else {
        upto - w
    }
}

/// A block is free no earlier than 0 and no earlier than each of its
/// positions.
pub proof fn lemma_block_free(free: Seq<int>, w: int, a: int)
    requires
        0 <= w,
        0 <= a,
        w + a <= free.len(),
    ensures
        block_free(free, w, a) >= 0,
        forall|q: int| w <= q < w + a ==> #[trigger] free[q] <= block_free(free, w, a),
    decreases a,
{
    if a > 0 {
        lemma_block_free(free, w, a - 1);
    }
}

/// A block whose positions are all free by `bound` is free by `bound`.
pub proof fn lemma_block_free_below(free: Seq<int>, w: int, a: int, bound: int)
    requires
        0 <= w,
        0 <= a,
        w + a <= free.len(),
        bound >= 0,
        forall|q: int| w <= q < w + a ==> #[trigger] free[q] <= bound,
    ensures
        block_free(free, w, a) <= bound,
    decreases a,
{
    if a > 0 {
        lemma_block_free_below(free, w, a - 1, bound);
        assert(free[w + a - 1] <= bound);
    }
}

/// The earliest instant from which a block up to `w` is free is the
/// instant of one of these blocks, and no later than that of any of them.
pub proof fn lemma_fit_upto(free: Seq<int>, a: int, w: int) -> (at: int)
    requires
        0 <= w,
    ensures
        0 <= at <= w,
        block_free(free, at, a) == fit_upto(free, a, w),
        forall|v: int| 0 <= v <= w ==> fit_upto(free, a, w) <= #[trigger] block_free(free, v, a),
    decreases w,
{
    if w == 0 {
        0
    } else {
        let at = lemma_fit_upto(free, a, w - 1);
        if fit_upto(free, a, w - 1) <= block_free(free, w, a) {
            at
        } else {
            w
        }
    }
}

/// If the block at `at` is free by `t`, the first block from `w` on that is
/// free by `t` stands at `at` or before it, and no block before it is free
/// by `t`.
pub proof fn lemma_first_block(free: Seq<int>, a: int, t: int, w: int, at: int)
    requires
        0 <= w <= at <= free.len() - a,
        block_free(free, at, a) <= t,
    ensures
        w <= first_block(free, a, t, w) <= at,
        block_free(free, first_block(free, a, t, w), a) <= t,
        forall|v: int| w <= v < first_block(free, a, t, w) ==> #[trigger] block_free(free, v, a) > t,
    decreases at - w,
{
    if w >= free.len() - a || block_free(free, w, a) <= t {
    } else {
        lemma_first_block(free, a, t, w + 1, at);
    }
}

proof fn lemma_held_bounds(free: Seq<int>, t: int, upto: int)
    requires
        0 <= upto,
    ensures
        0 <= held_upto(free, t, upto) <= upto,
    decreases upto,
{
    if upto > 0 {
        lemma_held_bounds(free, t, upto - 1);
    }
}

/// What holding a block that is free by `from` until `until` does to the
/// number of positions held beyond `t`.
proof fn lemma_held_occupy(free: Seq<int>, w: int, a: int, from: int, until: int, t: int, upto: int)
    requires
        0 <= w,
        0 <= a,
        w + a <= free.len(),
        0 <= upto <= free.len(),
        from <= until,
        forall|q: int| w <= q < w + a ==> #[trigger] free[q] <= from,
    ensures
        from <= t < until ==> held_upto(occupy(free, w, a, until), t, upto) == held_upto(
            free,
            t,
            upto,
        ) + overlap(upto, w, a),
        t < from ==> held_upto(occupy(free, w, a, until), t, upto) >= held_upto(free, t, upto),
        t >= until ==> held_upto(occupy(free, w, a, until), t, upto) == held_upto(free, t, upto),
    decreases upto,
{
    if upto > 0 {
        lemma_held_occupy(free, w, a, from, until, t, upto - 1);
        let q = upto - 1;
        assert(occupy(free, w, a, until)[q] == if w <= q < w + a {
            until
        } else {
            free[q]
        });
        if w <= q < w + a {
            assert(free[q] <= from);
        }
    }
}

impl ListInput {
    /// The largest target is not negative and at least every target that
    /// is used.
    pub proof fn lemma_target(self, upto: int)
        requires
            0 <= upto,
        ensures
            self.latest_target_upto(upto) >= 0,
            forall|i: int|
                0 <= i < upto && !self.compress ==> #[trigger] self.target[i]
                    <= self.latest_target_upto(upto),
        decreases upto,
    {
        if upto > 0 {
            self.lemma_target(upto - 1);
        }
    }

    /// The longest processing time is at least that of every job.
    pub proof fn lemma_longest(self, upto: int)
        requires
            0 <= upto,
        ensures
            self.longest_upto(upto) >= 0,
            forall|i: int| 0 <= i < upto ==> #[trigger] self.duration(i) <= self.longest_upto(upto),
        decreases upto,
    {
        if upto > 0 {
            self.lemma_longest(upto - 1);
        }
    }

    /// A job is released no earlier than 0, no earlier than a scheduled job
    /// that directly precedes it is done, and no later than `bound` if every
    /// scheduled job is done by then.
    pub proof fn lemma_release(self, st: ListState, j: int, upto: int, bound: int)
        requires
            0 <= upto <= st.finish.len(),
            bound >= 0,
            forall|i: int|
                0 <= i < upto && (#[trigger] st.finish[i]) is Some ==> st.finish[i].unwrap() <= bound,
        ensures
            0 <= self.release_upto(st, j, upto) <= bound,
            forall|i: int|
                0 <= i < upto && #[trigger] self.feeds(i, j) && st.finish[i] is Some
                    ==> st.finish[i].unwrap() <= self.release_upto(st, j, upto),
        decreases upto,
    {
        if upto > 0 {
            self.lemma_release(st, j, upto - 1, bound);
            if st.finish[upto - 1] is Some {
                assert(st.finish[upto - 1].unwrap() <= bound);
            }
        }
    }

    /// The job picked is ready, starts no later than any other ready job, and
    /// earlier than every ready job before it; none is picked only if none is
    /// ready.
    pub proof fn lemma_pick(self, st: ListState, upto: int)
        requires
            0 <= upto,
        ensures
            self.pick_upto(st, upto) matches Some(j) ==> {
                &&& 0 <= j < upto
                &&& self.ready(st, j)
                &&& forall|i: int|
                    0 <= i < upto && #[trigger] self.ready(st, i) ==> self.earliest(st, j)
                        <= self.earliest(st, i)
                &&& forall|i: int|
                    0 <= i < j && #[trigger] self.ready(st, i) ==> self.earliest(st, j)
                        < self.earliest(st, i)
            },
            self.pick_upto(st, upto) is None ==> forall|i: int|
                0 <= i < upto ==> !#[trigger] self.ready(st, i),
        decreases upto,
    {
        if upto > 0 {
            self.lemma_pick(st, upto - 1);
        }
    }

    /// While a job is pending, one is ready.
    proof fn lemma_ready_exists(self, st: ListState, picks: int) -> (j: int)
        requires
            self.wf(),
            self.consistent(st, picks),
            0 <= picks < self.jobs(),
        ensures
            0 <= j < self.jobs(),
            self.ready(st, j),
    {
        let n = self.jobs();
        let rank = choose|rank: Seq<int>| #[trigger] ranks(rank, n, self.instance.constraints);
        let j = lemma_lowest_pending(rank, st.finish, n);
        assert forall|i: int| 0 <= i < n && #[trigger] self.feeds(i, j) implies st.finish[i] is Some by {
            lemma_precedes_ranked(rank, n, self.instance.constraints, i, j);
        }
        j
    }
}


impl ListInput {
    /// What holds of a ready job's earliest start and of the block it takes.
    pub proof fn lemma_placement(self, st: ListState, picks: int, j: int)
        requires
            self.wf(),
            self.consistent(st, picks),
            0 <= picks < self.jobs(),
            0 <= j < self.jobs(),
            self.ready(st, j),
        ensures
            1 <= self.allotment[j] <= self.instance.processors,
            1 <= self.duration(j) <= self.longest_upto(self.jobs()),
            0 <= self.earliest(st, j) <= self.bound(picks),
            self.earliest(st, j) + self.duration(j) <= self.bound(picks + 1),
            self.bound(picks) <= self.bound(picks + 1),
            0 <= first_block(st.free, self.allotment[j], self.earliest(st, j), 0)
                <= self.instance.processors - self.allotment[j],
            forall|q: int|
                first_block(st.free, self.allotment[j], self.earliest(st, j), 0) <= q < first_block(
                    st.free,
                    self.allotment[j],
                    self.earliest(st, j),
                    0,
                ) + self.allotment[j] ==> #[trigger] st.free[q] <= self.earliest(st, j),
            forall|i: int|
                0 <= i < self.jobs() && #[trigger] self.feeds(i, j) ==> st.finish[i] is Some
                    && st.finish[i].unwrap() <= self.earliest(st, j),
    {
        let n = self.jobs();
        let m = self.instance.processors;
        let a = self.allotment[j];
        let s = self.earliest(st, j);
        let limit = self.bound(picks);
        self.lemma_target(n);
        self.lemma_longest(n);
        assert(self.instance.time(j, a) >= 1);
        assert(self.duration(j) <= self.longest_upto(n));
        assert(limit >= 0 && self.bound(picks + 1) == limit + self.longest_upto(n)) by (nonlinear_arith)
            requires
                limit == self.latest_target_upto(n) + picks * self.longest_upto(n),
                self.bound(picks + 1) == self.latest_target_upto(n) + (picks + 1)
                    * self.longest_upto(n),
                self.latest_target_upto(n) >= 0,
                self.longest_upto(n) >= 0,
                picks >= 0,
        ;
        assert forall|i: int| 0 <= i < n && (#[trigger] st.finish[i]) is Some implies st.finish[i].unwrap()
            <= limit by {
            assert(self.placed_somewhere(st, i));
            let p = choose|p: int| 0 <= p < st.placed.len() && (#[trigger] st.placed[p]).job.index == i;
            assert(self.placed_well(st, p, picks));
        }
        self.lemma_release(st, j, n, limit);
        let at = lemma_fit_upto(st.free, a, m - a);
        lemma_block_free(st.free, at, a);
        lemma_block_free_below(st.free, at, a, limit);
        if !self.compress {
            assert(self.target[j] <= self.latest_target_upto(n));
        }
        lemma_first_block(st.free, a, s, 0, at);
        let w = first_block(st.free, a, s, 0);
        lemma_block_free(st.free, w, a);
    }

    /// Scheduling a ready job keeps the state consistent.
    pub proof fn lemma_place(self, st: ListState, picks: int, j: int)
        requires
            self.wf(),
            self.consistent(st, picks),
            0 <= picks < self.jobs(),
            0 <= j < self.jobs(),
            self.ready(st, j),
        ensures
            self.consistent(self.place(st, j), picks + 1),
    {
        let n = self.jobs();
        let m = self.instance.processors;
        let x = self.placement(st, j);
        let a = x.allotment;
        let s = x.start;
        let c = x.completion();
        let w = first_block(st.free, a, s, 0);
        let next = self.place(st, j);
        self.lemma_placement(st, picks, j);
        assert(self.instance.jobs[j].index == j);
        assert(c == s + self.duration(j));
        lemma_pending_update(st.finish, j, c, n);
        assert forall|p: int| 0 <= p < picks + 1 implies #[trigger] self.placed_well(
            next,
            p,
            picks + 1,
        ) by {
            if p < picks {
                assert(self.placed_well(st, p, picks));
                assert(next.placed[p] == st.placed[p]);
            } else {
                assert(next.placed[p] == x);
            }
        }
        assert forall|p: int, q: int| 0 <= p < q < picks + 1 implies (
        #[trigger] next.placed[p]).job.index != (#[trigger] next.placed[q]).job.index by {
            assert(self.placed_well(st, p, picks));
            assert(next.placed[p] == st.placed[p]);
            if q < picks {
                assert(next.placed[q] == st.placed[q]);
            } else {
                assert(next.placed[q] == x);
            }
        }
        assert forall|i: int| 0 <= i < n && (#[trigger] next.finish[i]) is Some implies self.placed_somewhere(
            next,
            i,
        ) by {
            if i == j {
                assert(next.placed[picks].job.index == j);
            } else {
                assert(st.finish[i] is Some);
                assert(self.placed_somewhere(st, i));
                let p = choose|p: int| 0 <= p < st.placed.len() && (#[trigger] st.placed[p]).job.index == i;
                assert(next.placed[p].job.index == i);
            }
        }
        assert forall|p: int, i: int|
            0 <= p < picks + 1 && 0 <= i < n && self.feeds(
                i,
                next.placed[p].job.index,
            ) implies #[trigger] self.done_before(next, i, p) by {
            if p < picks {
                assert(next.placed[p] == st.placed[p]);
                assert(self.done_before(st, i, p));
            } else {
                assert(next.placed[p] == x);
                assert(self.feeds(i, j));
            }
        }
        assert forall|q: int| 0 <= q < next.free.len() implies 0 <= #[trigger] next.free[q]
            <= self.bound(picks + 1) by {
            assert(0 <= st.free[q] <= self.bound(picks));
        }
        assert forall|t: int| #[trigger] usage(next.placed, t) <= held_upto(
            next.free,
            t,
            next.free.len() as int,
        ) by {
            assert(next.placed.drop_last() == st.placed);
            assert(usage(st.placed, t) <= held_upto(st.free, t, m));
            lemma_held_occupy(st.free, w, a, s, c, t, m);
        }
        self.lemma_place_blocks(st, picks, j);
    }

    /// Scheduling a ready job keeps the blocks apart.
    proof fn lemma_place_blocks(self, st: ListState, picks: int, j: int)
        requires
            self.wf(),
            self.consistent(st, picks),
            0 <= picks < self.jobs(),
            0 <= j < self.jobs(),
            self.ready(st, j),
        ensures
            blocks_apart(self.place(st, j).placed, self.place(st, j).blocks, self.instance.processors),
            forall|p: int, x: int|
                0 <= p < picks + 1 && #[trigger] in_block(
                    self.place(st, j).placed,
                    self.place(st, j).blocks,
                    p,
                    x,
                ) ==> self.place(st, j).placed[p].completion() <= self.place(st, j).free[x],
    {
        let x = self.placement(st, j);
        let a = x.allotment;
        let s = x.start;
        let c = x.completion();
        let w = first_block(st.free, a, s, 0);
        let next = self.place(st, j);
        self.lemma_placement(st, picks, j);
        assert(c == s + self.duration(j));
        assert forall|k: int| 0 <= k < next.placed.len() implies 0 <= #[trigger] next.blocks[k]
            && next.blocks[k] + next.placed[k].allotment <= self.instance.processors by {
            if k < picks {
                assert(next.blocks[k] == st.blocks[k]);
                assert(next.placed[k] == st.placed[k]);
            }
        }
        assert forall|p: int, q: int| 0 <= p < picks + 1 && #[trigger] in_block(
            next.placed,
            next.blocks,
            p,
            q,
        ) implies next.placed[p].completion() <= next.free[q] by {
            if p < picks {
                assert(next.blocks[p] == st.blocks[p]);
                assert(next.placed[p] == st.placed[p]);
                assert(in_block(st.placed, st.blocks, p, q));
                assert(st.placed[p].completion() <= st.free[q]);
                if w <= q < w + a {
                    assert(st.free[q] <= s);
                }
            }
        }
        assert forall|k: int, l: int, q: int|
            0 <= k < l < next.placed.len() && #[trigger] in_block(next.placed, next.blocks, k, q)
                && #[trigger] in_block(next.placed, next.blocks, l, q) implies next.placed[k].completion()
            <= next.placed[l].start by {
            assert(next.blocks[k] == st.blocks[k]);
            assert(next.placed[k] == st.placed[k]);
            assert(in_block(st.placed, st.blocks, k, q));
            if l < picks {
                assert(next.blocks[l] == st.blocks[l]);
                assert(next.placed[l] == st.placed[l]);
                assert(in_block(st.placed, st.blocks, l, q));
            } else {
                assert(st.placed[k].completion() <= st.free[q]);
                assert(st.free[q] <= s);
            }
        }
    }

    /// While a job is pending, a pick schedules one and keeps the state
    /// consistent.
    pub proof fn lemma_step(self, st: ListState, picks: int)
        requires
            self.wf(),
            self.consistent(st, picks),
            0 <= picks < self.jobs(),
        ensures
            self.pick(st) is Some,
            self.consistent(self.step(st), picks + 1),
    {
        self.lemma_ready_exists(st, picks);
        self.lemma_pick(st, self.jobs());
        self.lemma_place(st, picks, self.pick(st).unwrap());
    }

    /// The state is consistent after each pick.
    pub proof fn lemma_run(self, picks: nat)
        requires
            self.wf(),
            picks <= self.jobs(),
        ensures
            self.consistent(self.run(picks), picks as int),
        decreases picks,
    {
        if picks == 0 {
            let st = self.initial();
            self.lemma_target(self.jobs());
            self.lemma_longest(self.jobs());
            lemma_pending_all(st.finish, self.jobs());
            assert forall|t: int| #[trigger] usage(st.placed, t) <= held_upto(
                st.free,
                t,
                st.free.len() as int,
            ) by {
                lemma_held_bounds(st.free, t, st.free.len() as int);
            }
        } else {
            self.lemma_run((picks - 1) as nat);
            self.lemma_step(self.run((picks - 1) as nat), picks - 1);
        }
    }
}

impl ListInput {
    /// The schedule is feasible: it holds every job once, keeps every
    /// constraint, and never holds more processors than there are.
    pub proof fn lemma_schedule_feasible(self)
        requires
            self.wf(),
        ensures
            self.schedule().feasible(self.instance),
            self.schedule().done_by(self.horizon()),
            blocks_apart(self.schedule().jobs, self.blocks(), self.instance.processors),
    {
        let n = self.jobs();
        let st = self.run(n as nat);
        let schedule = self.schedule();
        self.lemma_run(n as nat);
        lemma_pending_none(st.finish, n);
        assert forall|k: int| 0 <= k < schedule.jobs.len() implies {
            &&& 0 <= (#[trigger] schedule.jobs[k]).job.index < self.instance.jobs.len()
            &&& schedule.jobs[k].job == self.instance.jobs[schedule.jobs[k].job.index]
            &&& 1 <= schedule.jobs[k].allotment <= self.instance.processors
            &&& schedule.jobs[k].start >= 0
            &&& schedule.jobs[k].completion() <= self.horizon()
        } by {
            assert(self.placed_well(st, k, n));
        }
        assert forall|j: int| 0 <= j < n implies #[trigger] schedule.holds(j) by {
            assert(st.finish[j] is Some);
            assert(self.placed_somewhere(st, j));
            let p = choose|p: int| 0 <= p < st.placed.len() && (#[trigger] st.placed[p]).job.index == j;
            assert(schedule.jobs[p].job.index == j);
        }
        let rank = choose|rank: Seq<int>| #[trigger] ranks(rank, n, self.instance.constraints);
        assert forall|c: int, k: int, l: int|
            0 <= c < self.instance.constraints.len() && 0 <= k < schedule.jobs.len() && 0 <= l
                < schedule.jobs.len() && (#[trigger] schedule.jobs[k]).job.index == (
            #[trigger] self.instance.constraints[c]).0 && (#[trigger] schedule.jobs[l]).job.index
                == self.instance.constraints[c].1 implies schedule.jobs[k].completion()
            <= schedule.jobs[l].start by {
            lemma_pair_precedes(rank, n, self.instance.constraints, c);
            assert(self.placed_well(st, k, n));
            assert(self.feeds(schedule.jobs[k].job.index, st.placed[l].job.index));
            assert(self.done_before(st, schedule.jobs[k].job.index, l));
        }
        assert forall|t: int| #[trigger] usage(schedule.jobs, t) <= schedule.processors by {
            lemma_held_bounds(st.free, t, st.free.len() as int);
        }
    }
}

/// The scheduler's input as the executable arguments give it.
pub open spec fn list_input(
    instance: Instance,
    allotments: Seq<usize>,
    targets: Seq<i32>,
    compress: bool,
) -> ListInput {
    ListInput {
        instance: instance@,
        allotment: Seq::new(allotments.len(), |j: int| allotments[j] as int),
        target: Seq::new(targets.len(), |j: int| targets[j] as int),
        compress,
    }
}

/// The executable state holds what `st` holds.
spec fn mirrors(
    placed: Seq<ScheduledJob>,
    finish: Seq<Option<i32>>,
    free: Seq<i32>,
    st: ListState,
) -> bool {
    &&& st.placed.len() == placed.len()
    &&& forall|k: int| 0 <= k < placed.len() ==> st.placed[k] == (#[trigger] placed[k])@
    &&& st.finish.len() == finish.len()
    &&& forall|j: int|
        0 <= j < finish.len() ==> st.finish[j] == match #[trigger] finish[j] {
            Some(c) => Some(c as int),
            None => None::<int>,
        }
    &&& mirrors_free(free, st.free)
}

spec fn mirrors_free(free: Seq<i32>, model: Seq<int>) -> bool {
    &&& model.len() == free.len()
    &&& forall|q: int| 0 <= q < free.len() ==> model[q] == #[trigger] free[q] as int
}

fn block_free_time(free: &Vec<i32>, w: usize, a: usize, Ghost(model): Ghost<Seq<int>>) -> (t: i32)
    requires
        mirrors_free(free@, model),
        w + a <= free.len(),
    ensures
        t == block_free(model, w as int, a as int),
{
    let mut t: i32 = 0;
    let mut k: usize = 0;
    while k < a
        invariant
            k <= a,
            w + a <= free.len(),
            mirrors_free(free@, model),
            t == block_free(model, w as int, k as int),
        decreases a - k,
    {
        if free[w + k] > t {
            t = free[w + k];
        }
        k += 1;
    }
    t
}

fn fit_time(free: &Vec<i32>, a: usize, Ghost(model): Ghost<Seq<int>>) -> (t: i32)
    requires
        mirrors_free(free@, model),
        a <= free.len(),
    ensures
        t == fit(model, a as int),
{
    let last = free.len() - a;
    let mut t = block_free_time(free, 0, a, Ghost(model));
    let mut w: usize = 0;
    while w < last
        invariant
            w <= last,
            last == free.len() - a,
            mirrors_free(free@, model),
            t == fit_upto(model, a as int, w as int),
        decreases last - w,
    {
        w += 1;
        let here = block_free_time(free, w, a, Ghost(model));
        if here < t {
            t = here;
        }
    }
    t
}

fn first_free_block(free: &Vec<i32>, a: usize, t: i32, Ghost(model): Ghost<Seq<int>>) -> (w: usize)
    requires
        mirrors_free(free@, model),
        a <= free.len(),
    ensures
        w == first_block(model, a as int, t as int, 0),
{
    let last = free.len() - a;
    let mut w: usize = 0;
    while w < last
        invariant
            w <= last,
            last == free.len() - a,
            mirrors_free(free@, model),
            first_block(model, a as int, t as int, 0) == first_block(
                model,
                a as int,
                t as int,
                w as int,
            ),
        decreases last - w,
    {
        if block_free_time(free, w, a, Ghost(model)) <= t {
            return w;
        }
        w += 1;
    }
    w
}

/// Whether every job that directly precedes `j` is scheduled, and the latest
/// completion time among those that are.
fn release_time(
    instance: &Instance,
    finish: &Vec<Option<i32>>,
    j: usize,
    Ghost(input): Ghost<ListInput>,
    Ghost(st): Ghost<ListState>,
) -> (found: (bool, i32))
    requires
        input.instance == instance@,
        instance@.wf(),
        j < instance.jobs.len(),
        finish.len() == instance.jobs.len(),
        st.finish.len() == finish.len(),
        forall|i: int|
            0 <= i < finish.len() ==> st.finish[i] == match #[trigger] finish[i] {
                Some(c) => Some(c as int),
                None => None::<int>,
            },
        forall|i: int| 0 <= i < finish.len() && (#[trigger] st.finish[i]) is Some ==> st.finish[i].unwrap() >= 0,
    ensures
        found.0 == (forall|i: int|
            0 <= i < input.jobs() && #[trigger] input.feeds(i, j as int) ==> st.finish[i] is Some),
        found.1 == input.release_upto(st, j as int, input.jobs()),
        found.1 >= 0,
{
    let n = instance.jobs.len();
    let mut all_done = true;
    let mut release: i32 = 0;
    let mut i: usize = 0;
    while i < n
        invariant
            i <= n,
            n == instance.jobs.len(),
            n == input.jobs(),
            j < n,
            input.instance == instance@,
            instance@.wf(),
            finish.len() == n,
            st.finish.len() == n,
            forall|i: int|
                0 <= i < finish.len() ==> st.finish[i] == match #[trigger] finish[i] {
                    Some(c) => Some(c as int),
                    None => None::<int>,
                },
            forall|i: int|
                0 <= i < finish.len() && (#[trigger] st.finish[i]) is Some ==> st.finish[i].unwrap()
                    >= 0,
            all_done == (forall|k: int|
                0 <= k < i && #[trigger] input.feeds(k, j as int) ==> st.finish[k] is Some),
            release == input.release_upto(st, j as int, i as int),
            release >= 0,
        decreases n - i,
    {
        assert(instance@.jobs[i as int].index == i);
        assert(instance@.jobs[j as int].index == j);
        let feeds = i != j && instance.jobs[i].less_than(
            instance.constraints.as_slice(),
            &instance.jobs[j],
        );
        assert(feeds == input.feeds(i as int, j as int));
        if feeds {
            match finish[i] {
                Some(c) => {
                    assert(st.finish[i as int] == Some(c as int));
                    if c > release {
                        release = c;
                    }
                },
                None => {
                    assert(st.finish[i as int] is None);
                    all_done = false;
                },
            }
        }
        i += 1;
    }
    (all_done, release)
}


impl ListInput {
    proof fn lemma_finish_bounds(self, st: ListState, picks: int)
        requires
            self.wf(),
            self.consistent(st, picks),
        ensures
            forall|i: int|
                0 <= i < self.jobs() && (#[trigger] st.finish[i]) is Some ==> 0
                    <= st.finish[i].unwrap() <= self.bound(picks),
    {
        assert forall|i: int| 0 <= i < self.jobs() && (#[trigger] st.finish[i]) is Some implies 0
            <= st.finish[i].unwrap() <= self.bound(picks) by {
            assert(self.placed_somewhere(st, i));
            let p = choose|p: int| 0 <= p < st.placed.len() && (#[trigger] st.placed[p]).job.index == i;
            assert(self.placed_well(st, p, picks));
            assert(self.instance.time(i, self.allotment[i]) >= 1);
        }
    }

    proof fn lemma_bound_rises(self, fewer: int, more: int)
        requires
            0 <= fewer <= more,
        ensures
            self.bound(fewer) <= self.bound(more),
    {
        self.lemma_longest(self.jobs());
        assert(fewer * self.longest_upto(self.jobs()) <= more * self.longest_upto(self.jobs()))
            by (nonlinear_arith)
            requires
                0 <= fewer <= more,
                self.longest_upto(self.jobs()) >= 0,
        ;
    }
}

/// The next job to schedule and its earliest start, if a job is ready.
fn pick_next(
    instance: &Instance,
    allotments: &Vec<usize>,
    targets: &Vec<i32>,
    compress: bool,
    finish: &Vec<Option<i32>>,
    free: &Vec<i32>,
    Ghost(st): Ghost<ListState>,
    Ghost(picks): Ghost<int>,
) -> (best: Option<(usize, i32)>)
    requires
        list_input(*instance, allotments@, targets@, compress).wf(),
        list_input(*instance, allotments@, targets@, compress).consistent(st, picks),
        0 <= picks < instance.jobs.len(),
        finish.len() == instance.jobs.len(),
        forall|i: int|
            0 <= i < finish.len() ==> st.finish[i] == match #[trigger] finish[i] {
                Some(c) => Some(c as int),
                None => None::<int>,
            },
        mirrors_free(free@, st.free),
    ensures
        match best {
            Some((j, start)) => list_input(*instance, allotments@, targets@, compress).pick(st)
                == Some(j as int) && start == list_input(
                *instance,
                allotments@,
                targets@,
                compress,
            ).earliest(st, j as int),
            None => list_input(*instance, allotments@, targets@, compress).pick(st) is None,
        },
{
    let ghost input = list_input(*instance, allotments@, targets@, compress);
    let n = instance.jobs.len();
    let mut best: Option<(usize, i32)> = None;
    let mut j: usize = 0;
    proof {
        input.lemma_finish_bounds(st, picks);
    }
    while j < n
        invariant
            j <= n,
            n == instance.jobs.len(),
            input == list_input(*instance, allotments@, targets@, compress),
            input.wf(),
            input.consistent(st, picks),
            0 <= picks < n,
            finish.len() == n,
            forall|i: int|
                0 <= i < finish.len() ==> st.finish[i] == match #[trigger] finish[i] {
                    Some(c) => Some(c as int),
                    None => None::<int>,
                },
            forall|i: int|
                0 <= i < n && (#[trigger] st.finish[i]) is Some ==> 0 <= st.finish[i].unwrap(),
            mirrors_free(free@, st.free),
            match best {
                Some((b, start)) => input.pick_upto(st, j as int) == Some(b as int) && start
                    == input.earliest(st, b as int),
                None => input.pick_upto(st, j as int) is None,
            },
        decreases n - j,
    {
        assert(st.finish[j as int] is None <==> finish[j as int] is None);
        if finish[j].is_none() {
            let found = release_time(instance, finish, j, Ghost(input), Ghost(st));
            if found.0 {
                assert(input.ready(st, j as int));
                proof {
                    input.lemma_placement(st, picks, j as int);
                }
                let a = allotments[j];
                assert(a == input.allotment[j as int]);
                assert(instance@.jobs[j as int].times.len() == instance@.processors);
                let d = instance.jobs[j].processing_time(a);
                assert(d == input.duration(j as int));
                let fits = fit_time(free, a, Ghost(st.free));
                let mut start: i32 = if found.1 >= fits {
                    found.1
                } else {
                    fits
                };
                if !compress {
                    assert(targets[j as int] == input.target[j as int]);
                    let suggested: i64 = targets[j] as i64 - d as i64;
                    if suggested > start as i64 {
                        start = suggested as i32;
                    }
                }
                assert(start == input.earliest(st, j as int));
                let better = match best {
                    Some((_, least)) => start < least,
                    None => true,
                };
                if better {
                    best = Some((j, start));
                }
            } else {
                assert(!input.ready(st, j as int));
            }
        } else {
            assert(!input.ready(st, j as int));
        }
        j += 1;
    }
    best
}

/// Holds the `a` positions from `w` on until `until`.
fn occupy_block(free: &mut Vec<i32>, w: usize, a: usize, until: i32, Ghost(model): Ghost<Seq<int>>)
    requires
        mirrors_free(old(free)@, model),
        w + a <= old(free).len(),
    ensures
        mirrors_free(final(free)@, occupy(model, w as int, a as int, until as int)),
{
    let mut k: usize = 0;
    while k < a
        invariant
            k <= a,
            w + a <= free.len(),
            free.len() == model.len(),
            mirrors_free(free@, occupy(model, w as int, k as int, until as int)),
        decreases a - k,
    {
        free.set(w + k, until);
        k += 1;
    }
}

/// Schedules every job on its allotment: one job after the other, each time
/// the ready job that can start first (the first of them by index), at its
/// earliest start and on the first block of adjacent processors that is
/// free by then. A job is ready once every job that directly precedes it is
/// scheduled; it starts no earlier than they are done, no earlier than a
/// block of its allotment is free and, unless `compress` is set, no earlier
/// than its target completion less its processing time.
pub fn list_schedule(
    instance: &Instance,
    allotments: &Vec<usize>,
    targets: &Vec<i32>,
    compress: bool,
) -> (schedule: Schedule)
    requires
        list_input(*instance, allotments@, targets@, compress).wf(),
        list_input(*instance, allotments@, targets@, compress).horizon() <= i32::MAX,
    ensures
        schedule@ == list_input(*instance, allotments@, targets@, compress).schedule(),
        schedule@.feasible(instance@),
        schedule@.done_by(list_input(*instance, allotments@, targets@, compress).horizon()),
{
    list_schedule_blocks(instance, allotments, targets, compress).0
}

/// The positions as mathematical integers.
pub open spec fn positions_of(blocks: Seq<usize>) -> Seq<int> {
    Seq::new(blocks.len(), |k: int| blocks[k] as int)
}

/// Schedules as `list_schedule` does, and tells for each job of the
/// schedule the first of the adjacent processors that it runs on: jobs that
/// share a processor do not run at the same time.
pub fn list_schedule_blocks(
    instance: &Instance,
    allotments: &Vec<usize>,
    targets: &Vec<i32>,
    compress: bool,
) -> (made: (Schedule, Vec<usize>))
    requires
        list_input(*instance, allotments@, targets@, compress).wf(),
        list_input(*instance, allotments@, targets@, compress).horizon() <= i32::MAX,
    ensures
        made.0@ == list_input(*instance, allotments@, targets@, compress).schedule(),
        positions_of(made.1@) == list_input(*instance, allotments@, targets@, compress).blocks(),
        made.0@.feasible(instance@),
        made.0@.done_by(list_input(*instance, allotments@, targets@, compress).horizon()),
        blocks_apart(made.0@.jobs, positions_of(made.1@), instance@.processors),
{
    let ghost input = list_input(*instance, allotments@, targets@, compress);
    let n = instance.jobs.len();
    let m = instance.processor_count;
    let mut placed: Vec<ScheduledJob> = Vec::new();
    let mut finish: Vec<Option<i32>> = Vec::new();
    let mut free: Vec<i32> = Vec::new();
    while finish.len() < n
        invariant
            finish.len() <= n,
            forall|i: int| 0 <= i < finish.len() ==> (#[trigger] finish[i]) is None,
        decreases n - finish.len(),
    {
        finish.push(None);
    }
    while free.len() < m
        invariant
            free.len() <= m,
            forall|q: int| 0 <= q < free.len() ==> #[trigger] free[q] == 0,
        decreases m - free.len(),
    {
        free.push(0);
    }
    let ghost mut st = input.initial();
    let mut blocks: Vec<usize> = Vec::new();
    let mut picks: usize = 0;
    proof {
        input.lemma_run(0);
    }
    while picks < n
        invariant
            picks <= n,
            n == instance.jobs.len(),
            m == instance.processor_count,
            input == list_input(*instance, allotments@, targets@, compress),
            input.wf(),
            input.horizon() <= i32::MAX,
            st == input.run(picks as nat),
            input.consistent(st, picks as int),
            mirrors(placed@, finish@, free@, st),
            blocks.len() == picks,
            forall|k: int| 0 <= k < picks ==> #[trigger] blocks[k] == st.blocks[k],
        decreases n - picks,
    {
        proof {
            input.lemma_step(st, picks as int);
        }
        let best = pick_next(
            instance,
            allotments,
            targets,
            compress,
            &finish,
            &free,
            Ghost(st),
            Ghost(picks as int),
        );
        let (job, start) = best.unwrap();
        proof {
            input.lemma_pick(st, n as int);
            input.lemma_placement(st, picks as int, job as int);
            input.lemma_bound_rises(picks + 1, n as int);
        }
        let a = allotments[job];
        assert(a == input.allotment[job as int]);
        assert(instance@.jobs[job as int].times.len() == instance@.processors);
        let d = instance.jobs[job].processing_time(a);
        let until = start + d;
        let w = first_free_block(&free, a, start, Ghost(st.free));
        occupy_block(&mut free, w, a, until, Ghost(st.free));
        blocks.push(w);
        finish.set(job, Some(until));
        placed.push(ScheduledJob { job: instance.jobs[job].clone(), allotment: a, start_time: start });
        proof {
            let next = input.place(st, job as int);
            assert(placed@[picks as int]@ == input.placement(st, job as int));
            assert(mirrors(placed@, finish@, free@, next));
            st = next;
        }
        picks += 1;
    }
    let schedule = Schedule { processor_count: m, jobs: placed };
    proof {
        assert(schedule@.jobs =~= st.placed);
        assert(positions_of(blocks@) =~= st.blocks);
        input.lemma_schedule_feasible();
    }
    (schedule, blocks)
}


/// Whether every time of the schedule fits the machine's integers: the
/// largest target, and after it every job in turn, each taken as long as
/// the longest.
pub fn horizon_fits(
    instance: &Instance,
    allotments: &Vec<usize>,
    targets: &Vec<i32>,
    compress: bool,
) -> (fits: bool)
    requires
        list_input(*instance, allotments@, targets@, compress).wf(),
    ensures
        fits == (list_input(*instance, allotments@, targets@, compress).horizon() <= i32::MAX),
{
    let ghost input = list_input(*instance, allotments@, targets@, compress);
    let n = instance.jobs.len();
    let mut latest: i32 = 0;
    let mut longest: i32 = 0;
    let mut j: usize = 0;
    while j < n
        invariant
            j <= n,
            n == instance.jobs.len(),
            input == list_input(*instance, allotments@, targets@, compress),
            input.wf(),
            latest == input.latest_target_upto(j as int),
            longest == input.longest_upto(j as int),
        decreases n - j,
    {
        assert(allotments[j as int] == input.allotment[j as int]);
        assert(targets[j as int] == input.target[j as int]);
        assert(instance@.jobs[j as int].times.len() == instance@.processors);
        let duration = instance.jobs[j].processing_time(allotments[j]);
        if duration > longest {
            longest = duration;
        }
        if !compress && targets[j] > latest {
            latest = targets[j];
        }
        j += 1;
    }
    proof {
        input.lemma_longest(n as int);
        input.lemma_target(n as int);
        assert(0 <= n * longest <= usize::MAX * i32::MAX) by (nonlinear_arith)
            requires
                0 <= n <= usize::MAX,
                0 <= longest <= i32::MAX,
        ;
    }
    latest as u128 + n as u128 * longest as u128 <= i32::MAX as u128
}

/// Checks what `list_schedule` asks of its arguments, and schedules if they
/// meet it.
pub fn list_schedule_checked(
    instance: &Instance,
    allotments: &Vec<usize>,
    targets: &Vec<i32>,
    compress: bool,
) -> (result: Result<Schedule, SchedulingError>)
    ensures
        match result {
            Ok(schedule) => {
                let input = list_input(*instance, allotments@, targets@, compress);
                &&& input.wf()
                &&& input.horizon() <= i32::MAX
                &&& schedule@ == input.schedule()
                &&& schedule@.feasible(instance@)
                &&& schedule@.done_by(input.horizon())
            },
            Err(error) => {
                let input = list_input(*instance, allotments@, targets@, compress);
                &&& error == SchedulingError::InvalidInstance || error == SchedulingError::TooLong
                &&& error == SchedulingError::InvalidInstance <==> !input.wf()
                &&& error == SchedulingError::TooLong <==> input.wf() && input.horizon() > i32::MAX
            },
        },
{
    let ghost input = list_input(*instance, allotments@, targets@, compress);
    if instance.validate().is_err() {
        return Err(SchedulingError::InvalidInstance);
    }
    let n = instance.jobs.len();
    if allotments.len() != n || targets.len() != n {
        return Err(SchedulingError::InvalidInstance);
    }
    let mut j: usize = 0;
    while j < n
        invariant
            j <= n,
            n == instance.jobs.len(),
            allotments.len() == n,
            input == list_input(*instance, allotments@, targets@, compress),
            forall|i: int| 0 <= i < j ==> 1 <= #[trigger] input.allotment[i] <= input.instance.processors,
        decreases n - j,
    {
        if allotments[j] < 1 || allotments[j] > instance.processor_count {
            assert(!(1 <= input.allotment[j as int] <= input.instance.processors));
            return Err(SchedulingError::InvalidInstance);
        }
        j += 1;
    }
    if !horizon_fits(instance, allotments, targets, compress) {
        return Err(SchedulingError::TooLong);
    }
    Ok(list_schedule(instance, allotments, targets, compress))
}

} // verus!
