//! The exhaustive search: the jobs are committed chain by chain, and a state
//! records how far each chain has advanced and how its front job runs. The
//! search is run under lower and lower time bounds until it finds nothing,
//! so that the schedule returned is one of least makespan. The states that
//! are known are kept in a vector and compared in full.

use vstd::prelude::*;
use crate::algo::{Instance, InstanceView, Job, PartialRelation, Schedule, ScheduleView, ScheduledJob, ScheduledJobView, precedes, usage, ranks};
use crate::chains::{chains_of, decomposes, grouped, lemma_decomposition_partitions, located, ordered, preprocess, same_jobs};
use crate::error::SchedulingError;
use crate::exact::{schedulable, shortest};

verus! {

/// The mathematical content of a state.
pub struct StateView {
    /// For each chain, how many of its jobs are committed.
    pub ideal: Seq<int>,
    /// For each chain, the allotment of its front job, the last one committed.
    pub allotment: Seq<int>,
    /// For each chain, the completion time of its front job.
    pub completion: Seq<int>,
}

/// A state in our dynamic program
#[derive(Debug)]
pub struct State {
    /// For each chain, how far have we advanced this chain
    pub ideal: Vec<usize>,
    /// For each chain, how many machines do we use for the front task, i.e. the job indicated by `ideal`
    pub allotment: Vec<usize>,
    /// For each chain, when the front task is done
    pub completion_times: Vec<i32>,
}

impl View for State {
    type V = StateView;

    open spec fn view(&self) -> StateView {
        StateView {
            ideal: Seq::new(self.ideal@.len(), |c: int| self.ideal@[c] as int),
            allotment: Seq::new(self.allotment@.len(), |c: int| self.allotment@[c] as int),
            completion: Seq::new(
                self.completion_times@.len(),
                |c: int| self.completion_times@[c] as int,
            ),
        }
    }
}

/// One commitment: the next job of a chain, on an allotment, done at a
/// completion time.
pub struct Step {
    pub chain: int,
    pub allotment: int,
    pub completion: int,
}

/// `x` is tried before `y`: by chain, then by allotment, then by completion
/// time.
pub open spec fn earlier(x: Step, y: Step) -> bool {
    x.chain < y.chain || (x.chain == y.chain && (x.allotment < y.allotment || (x.allotment
        == y.allotment && x.completion < y.completion)))
}

/// The jobs committed in the chains before `upto`.
pub open spec fn committed_upto(ideal: Seq<int>, upto: int) -> int
    decreases upto,
{
    if upto <= 0 {
        0
    } else {
        committed_upto(ideal, upto - 1) + ideal[upto - 1]
    }
}

/// The jobs of the chains before `upto`.
pub open spec fn length_upto(chains: Seq<Seq<int>>, upto: int) -> int
    decreases upto,
{
    if upto <= 0 {
        0
    } else {
        length_upto(chains, upto - 1) + chains[upto - 1].len()
    }
}

/// What the search is given: an instance and its chains.
pub struct DpInput {
    pub instance: InstanceView,
    pub chains: Seq<Seq<int>>,
}

impl DpInput {
    /// The instance is well formed and the chains decompose it.
    pub open spec fn wf(self) -> bool {
        &&& self.instance.wf()
        &&& decomposes(self.instance, self.chains)
    }

    /// The state has one entry per chain, no chain is advanced beyond its
    /// end, and each front job has an allotment between 1 and the number of
    /// processors.
    pub open spec fn state_wf(self, s: StateView) -> bool {
        &&& s.ideal.len() == self.chains.len()
        &&& s.allotment.len() == self.chains.len()
        &&& s.completion.len() == self.chains.len()
        &&& forall|c: int|
            0 <= c < self.chains.len() ==> 0 <= #[trigger] s.ideal[c] <= self.chains[c].len()
        &&& forall|c: int|
            0 <= c < self.chains.len() && #[trigger] s.ideal[c] > 0 ==> 1 <= s.allotment[c]
                <= self.instance.processors
    }

    /// No job is committed.
    pub open spec fn initial(self) -> StateView {
        StateView {
            ideal: Seq::new(self.chains.len(), |c: int| 0int),
            allotment: Seq::new(self.chains.len(), |c: int| 0int),
            completion: Seq::new(self.chains.len(), |c: int| 0int),
        }
    }

    /// The front job of chain `c`.
    pub open spec fn front(self, s: StateView, c: int) -> int {
        self.chains[c][s.ideal[c] - 1]
    }

    /// The start of the front job of chain `c`.
    pub open spec fn front_start(self, s: StateView, c: int) -> int {
        s.completion[c] - self.instance.time(self.front(s, c), s.allotment[c])
    }

    /// The front job of chain `c` runs at instant `t`.
    pub open spec fn runs(self, s: StateView, c: int, t: int) -> bool {
        s.ideal[c] > 0 && self.front_start(s, c) <= t < s.completion[c]
    }

    /// The processors that the front jobs of the chains before `upto` hold at
    /// instant `t`.
    pub open spec fn load_upto(self, s: StateView, t: int, upto: int) -> int
        decreases upto,
    {
        if upto <= 0 {
            0
        } else {
            self.load_upto(s, t, upto - 1) + if self.runs(s, upto - 1, t) {
                s.allotment[upto - 1]
            } else {
                0
            }
        }
    }

    /// The processors that the front jobs hold at instant `t`.
    pub open spec fn load(self, s: StateView, t: int) -> int {
        self.load_upto(s, t, self.chains.len() as int)
    }

    /// The job that the step commits.
    pub open spec fn job(self, s: StateView, x: Step) -> int {
        self.chains[x.chain][s.ideal[x.chain]]
    }

    /// The start of the job that the step commits.
    pub open spec fn start(self, s: StateView, x: Step) -> int {
        x.completion - self.instance.time(self.job(s, x), x.allotment)
    }

    /// The state after the step.
    pub open spec fn advance(self, s: StateView, x: Step) -> StateView {
        StateView {
            ideal: s.ideal.update(x.chain, s.ideal[x.chain] + 1),
            allotment: s.allotment.update(x.chain, x.allotment),
            completion: s.completion.update(x.chain, x.completion),
        }
    }

    /// Job `j` directly precedes a job that is committed.
    pub open spec fn leads(self, s: StateView, j: int) -> bool {
        exists|c: int, k: int|
            0 <= c < self.chains.len() && 0 <= k < s.ideal[c] && self.instance.precedes(
                j,
                #[trigger] self.chains[c][k],
            )
    }

    /// The step can be taken: it commits the next job of a chain that has
    /// one, on 1 to `m` processors, done within the time bound and not
    /// started before 0; the job directly precedes no job that is committed,
    /// since it starts no earlier than any of them and so cannot be done
    /// when they start; it starts no earlier than a front job that directly
    /// precedes it is done and no earlier than any front job starts; and at
    /// no instant do the front jobs, this job among them in the place of its
    /// chain's, hold more processors than there are.
    pub open spec fn admits(self, s: StateView, x: Step) -> bool {
        &&& 0 <= x.chain < self.chains.len()
        &&& s.ideal[x.chain] < self.chains[x.chain].len()
        &&& 1 <= x.allotment <= self.instance.processors
        &&& 0 <= x.completion <= self.instance.max_time
        &&& self.start(s, x) >= 0
        &&& !self.leads(s, self.job(s, x))
        &&& forall|c: int|
            0 <= c < self.chains.len() && #[trigger] s.ideal[c] > 0 ==> {
                &&& self.instance.precedes(self.front(s, c), self.job(s, x)) ==> self.start(s, x)
                    >= s.completion[c]
                &&& self.start(s, x) >= self.front_start(s, c)
            }
        &&& forall|t: int| #[trigger] self.load(self.advance(s, x), t) <= self.instance.processors
    }

    /// Every job is committed.
    pub open spec fn terminal(self, s: StateView) -> bool {
        committed_upto(s.ideal, self.chains.len() as int) == self.instance.jobs.len()
    }

    /// The steps can be taken one after the other, and then every job is
    /// committed.
    pub open spec fn completes(self, s: StateView, path: Seq<Step>) -> bool
        decreases path.len(),
    {
        if path.len() == 0 {
            self.terminal(s)
        } else {
            self.admits(s, path[0]) && self.completes(self.advance(s, path[0]), path.drop_first())
        }
    }

    /// No sequence of steps commits every job.
    pub open spec fn dead(self, s: StateView) -> bool {
        forall|path: Seq<Step>| !#[trigger] self.completes(s, path)
    }

    /// The step leads nowhere: it cannot be taken, or nothing completes the
    /// state after it.
    pub open spec fn barren(self, s: StateView, x: Step) -> bool {
        !self.admits(s, x) || self.dead(self.advance(s, x))
    }

    /// The path is the one that the search finds: it completes the state,
    /// and at each state every step that is tried before the path's leads
    /// nowhere.
    pub open spec fn is_first(self, s: StateView, path: Seq<Step>) -> bool
        decreases path.len(),
    {
        if path.len() == 0 {
            self.terminal(s)
        } else {
            &&& !self.terminal(s)
            &&& self.admits(s, path[0])
            &&& self.is_first(self.advance(s, path[0]), path.drop_first())
            &&& forall|x: Step| earlier(x, path[0]) ==> #[trigger] self.barren(s, x)
        }
    }

    /// The job that the step commits, as it is scheduled.
    pub open spec fn placement(self, s: StateView, x: Step) -> ScheduledJobView {
        ScheduledJobView {
            job: self.instance.jobs[self.job(s, x)],
            allotment: x.allotment,
            start: self.start(s, x),
        }
    }

    /// The jobs that the steps commit, as they are scheduled.
    pub open spec fn placements(self, s: StateView, path: Seq<Step>) -> Seq<ScheduledJobView>
        decreases path.len(),
    {
        if path.len() == 0 {
            Seq::empty()
        } else {
            seq![self.placement(s, path[0])] + self.placements(
                self.advance(s, path[0]),
                path.drop_first(),
            )
        }
    }

    /// The jobs that are not committed yet.
    pub open spec fn remaining(self, s: StateView) -> int {
        length_upto(self.chains, self.chains.len() as int) - committed_upto(
            s.ideal,
            self.chains.len() as int,
        )
    }
}


proof fn lemma_committed_update(ideal: Seq<int>, c: int, value: int, upto: int)
    requires
        0 <= c < ideal.len(),
        0 <= upto <= ideal.len(),
    ensures
        committed_upto(ideal.update(c, value), upto) == committed_upto(ideal, upto) + if c < upto {
            value - ideal[c]
        } else {
            0
        },
    decreases upto,
{
    if upto > 0 {
        lemma_committed_update(ideal, c, value, upto - 1);
    }
}

proof fn lemma_committed_bounds(chains: Seq<Seq<int>>, ideal: Seq<int>, upto: int)
    requires
        0 <= upto <= chains.len(),
        ideal.len() == chains.len(),
        forall|c: int| 0 <= c < chains.len() ==> 0 <= #[trigger] ideal[c] <= chains[c].len(),
    ensures
        0 <= committed_upto(ideal, upto) <= length_upto(chains, upto),
        committed_upto(ideal, upto) == length_upto(chains, upto) ==> forall|c: int|
            0 <= c < upto ==> #[trigger] ideal[c] == chains[c].len(),
    decreases upto,
{
    if upto > 0 {
        lemma_committed_bounds(chains, ideal, upto - 1);
    }
}

proof fn lemma_same_lengths(left: Seq<Seq<int>>, right: Seq<Seq<int>>, upto: int)
    requires
        0 <= upto <= left.len(),
        left.len() == right.len(),
        forall|c: int| 0 <= c < left.len() ==> (#[trigger] left[c]).len() == right[c].len(),
    ensures
        length_upto(left, upto) == length_upto(right, upto),
    decreases upto,
{
    if upto > 0 {
        lemma_same_lengths(left, right, upto - 1);
    }
}

proof fn lemma_length_update(chains: Seq<Seq<int>>, c: int, chain: Seq<int>, upto: int)
    requires
        0 <= c < chains.len(),
        0 <= upto <= chains.len(),
    ensures
        length_upto(chains.update(c, chain), upto) == length_upto(chains, upto) + if c < upto {
            chain.len() - chains[c].len()
        } else {
            0
        },
    decreases upto,
{
    if upto > 0 {
        lemma_length_update(chains, c, chain, upto - 1);
    }
}

proof fn lemma_length_prefix(chains: Seq<Seq<int>>, longer: Seq<Seq<int>>, upto: int)
    requires
        0 <= upto <= chains.len() <= longer.len(),
        forall|c: int| 0 <= c < chains.len() ==> #[trigger] longer[c] == chains[c],
    ensures
        length_upto(longer, upto) == length_upto(chains, upto),
    decreases upto,
{
    if upto > 0 {
        lemma_length_prefix(chains, longer, upto - 1);
    }
}

/// The chains into which the first `count` jobs fall hold `count` jobs.
proof fn lemma_grouped_length(pairs: Seq<(int, int)>, count: int)
    requires
        0 <= count,
    ensures
        length_upto(grouped(pairs, count), grouped(pairs, count).len() as int) == count,
    decreases count,
{
    if count > 0 {
        lemma_grouped_length(pairs, count - 1);
        let before = grouped(pairs, count - 1);
        let after = grouped(pairs, count);
        let c = crate::chains::first_fit(pairs, before, count - 1, 0);
        crate::chains::lemma_first_fit_range(pairs, before, count - 1, 0);
        if c < before.len() {
            lemma_length_update(before, c, before[c].push(count - 1), before.len() as int);
        } else {
            lemma_length_prefix(before, after, before.len() as int);
        }
    }
}

impl DpInput {
    /// The chains hold as many jobs as the instance has.
    pub proof fn lemma_length(self)
        requires
            self.wf(),
        ensures
            length_upto(self.chains, self.chains.len() as int) == self.instance.jobs.len(),
    {
        let n = self.instance.jobs.len() as int;
        let groups = grouped(self.instance.constraints, n);
        lemma_grouped_length(self.instance.constraints, n);
        assert forall|c: int| 0 <= c < self.chains.len() implies (#[trigger] self.chains[c]).len()
            == groups[c].len() by {
            assert(same_jobs(self.chains[c], groups[c]));
        }
        lemma_same_lengths(self.chains, groups, self.chains.len() as int);
    }

    /// A step that can be taken leaves one job less and the state well
    /// formed.
    pub proof fn lemma_advance(self, s: StateView, x: Step)
        requires
            self.wf(),
            self.state_wf(s),
            self.admits(s, x),
        ensures
            self.state_wf(self.advance(s, x)),
            self.remaining(self.advance(s, x)) == self.remaining(s) - 1,
            self.remaining(s) >= 1,
            !self.terminal(s),
    {
        let after = self.advance(s, x);
        lemma_committed_update(s.ideal, x.chain, s.ideal[x.chain] + 1, self.chains.len() as int);
        lemma_committed_bounds(self.chains, after.ideal, self.chains.len() as int);
        self.lemma_length();
    }

    /// In a state that is not terminal, if every step leads nowhere, nothing
    /// completes the state.
    proof fn lemma_dead(self, s: StateView)
        requires
            !self.terminal(s),
            forall|x: Step| #[trigger] self.barren(s, x),
        ensures
            self.dead(s),
    {
        assert forall|path: Seq<Step>| !#[trigger] self.completes(s, path) by {
            if path.len() > 0 {
                assert(self.barren(s, path[0]));
                if self.admits(s, path[0]) {
                    assert(!self.completes(self.advance(s, path[0]), path.drop_first()));
                }
            }
        }
    }

    proof fn lemma_load_rises(self, s: StateView, t: int, upto: int)
        requires
            0 <= upto <= self.chains.len(),
            self.state_wf(s),
        ensures
            0 <= self.load_upto(s, t, upto),
            upto < self.chains.len() ==> self.load_upto(s, t, upto) <= self.load_upto(s, t, upto + 1),
        decreases upto,
    {
        if upto > 0 {
            self.lemma_load_rises(s, t, upto - 1);
        }
    }

    proof fn lemma_load_grows(self, s: StateView, t: int, fewer: int, more: int)
        requires
            0 <= fewer <= more <= self.chains.len(),
            self.state_wf(s),
        ensures
            self.load_upto(s, t, fewer) <= self.load_upto(s, t, more),
        decreases more - fewer,
    {
        if fewer < more {
            self.lemma_load_grows(s, t, fewer, more - 1);
            self.lemma_load_rises(s, t, more - 1);
        }
    }

    proof fn lemma_load_compare(self, s: StateView, t: int, at: int, upto: int)
        requires
            0 <= upto <= self.chains.len(),
            self.state_wf(s),
            forall|c: int| 0 <= c < upto && #[trigger] self.runs(s, c, t) ==> self.runs(s, c, at),
        ensures
            self.load_upto(s, t, upto) <= self.load_upto(s, at, upto),
        decreases upto,
    {
        if upto > 0 {
            self.lemma_load_compare(s, t, at, upto - 1);
            if self.runs(s, upto - 1, t) {
                assert(self.runs(s, upto - 1, at));
            }
        }
    }

    pub proof fn lemma_load_idle(self, s: StateView, t: int, upto: int)
        requires
            0 <= upto,
            forall|c: int| 0 <= c < upto ==> !#[trigger] self.runs(s, c, t),
        ensures
            self.load_upto(s, t, upto) == 0,
        decreases upto,
    {
        if upto > 0 {
            self.lemma_load_idle(s, t, upto - 1);
        }
    }

    /// Among the front jobs before `upto` that run at `t`, one that starts
    /// last.
    proof fn lemma_latest_running(self, s: StateView, t: int, upto: int, some: int) -> (c: int)
        requires
            0 <= some < upto,
            self.runs(s, some, t),
        ensures
            0 <= c < upto,
            self.runs(s, c, t),
            forall|d: int|
                0 <= d < upto && #[trigger] self.runs(s, d, t) ==> self.front_start(s, d)
                    <= self.front_start(s, c),
        decreases upto,
    {
        if some == upto - 1 {
            if exists|d: int| 0 <= d < upto - 1 && self.runs(s, d, t) {
                let d = choose|d: int| 0 <= d < upto - 1 && self.runs(s, d, t);
                let c = self.lemma_latest_running(s, t, upto - 1, d);
                if self.front_start(s, c) >= self.front_start(s, some) {
                    c
                } else {
                    some
                }
            } else {
                some
            }
        } else {
            let c = self.lemma_latest_running(s, t, upto - 1, some);
            if self.runs(s, upto - 1, t) && self.front_start(s, upto - 1) > self.front_start(s, c) {
                upto - 1
            } else {
                c
            }
        }
    }

    /// If the front jobs hold no more processors than there are at each
    /// instant at which one of them starts, they never do.
    proof fn lemma_load_checked(self, s: StateView)
        requires
            self.state_wf(s),
            self.instance.processors >= 0,
            forall|c: int|
                0 <= c < self.chains.len() && #[trigger] s.ideal[c] > 0 ==> self.load(
                    s,
                    self.front_start(s, c),
                ) <= self.instance.processors,
        ensures
            forall|t: int| #[trigger] self.load(s, t) <= self.instance.processors,
    {
        let width = self.chains.len() as int;
        assert forall|t: int| #[trigger] self.load(s, t) <= self.instance.processors by {
            if exists|d: int| 0 <= d < width && self.runs(s, d, t) {
                let d = choose|d: int| 0 <= d < width && self.runs(s, d, t);
                let c = self.lemma_latest_running(s, t, width, d);
                assert(s.ideal[c] > 0);
                self.lemma_load_compare(s, t, self.front_start(s, c), width);
            } else {
                self.lemma_load_idle(s, t, width);
            }
        }
    }
}


/// What the search is given, as the executable arguments give it.
pub open spec fn dp_input(instance: Instance, chains: Seq<Vec<usize>>) -> DpInput {
    DpInput { instance: instance@, chains: chains_of(chains) }
}

/// The scheduled jobs as mathematical values.
pub open spec fn jobs_of(jobs: Seq<ScheduledJob>) -> Seq<ScheduledJobView> {
    Seq::new(jobs.len(), |k: int| jobs[k]@)
}

/// The jobs committed in a state.
pub open spec fn committed(s: StateView) -> int {
    committed_upto(s.ideal, s.ideal.len() as int)
}

/// Every state that is known and has more jobs committed than `s` has been
/// searched in vain.
pub open spec fn memo_sound(input: DpInput, known: Seq<State>, s: StateView) -> bool {
    forall|i: int|
        0 <= i < known.len() && committed((#[trigger] known[i])@) > committed(s) ==> input.dead(
            known[i]@,
        )
}

/// `after` holds the states of `before`, and after them only states with
/// more jobs committed than `s` has.
pub open spec fn memo_grown(before: Seq<State>, after: Seq<State>, s: StateView) -> bool {
    &&& before.len() <= after.len()
    &&& forall|i: int| 0 <= i < before.len() ==> (#[trigger] after[i])@ == before[i]@
    &&& forall|i: int| before.len() <= i < after.len() ==> committed((#[trigger] after[i])@) > committed(s)
}

/// States added in two rounds were added.
proof fn lemma_grown_twice(before: Seq<State>, between: Seq<State>, after: Seq<State>, s: StateView, t: StateView)
    requires
        memo_grown(before, between, s),
        memo_grown(between, after, t),
        committed(t) >= committed(s),
    ensures
        memo_grown(before, after, s),
{
    assert forall|i: int| 0 <= i < before.len() implies (#[trigger] after[i])@ == before[i]@ by {
        assert(after[i]@ == between[i]@);
    }
    assert forall|i: int| before.len() <= i < after.len() implies committed((#[trigger] after[i])@)
        > committed(s) by {
        if i < between.len() {
            assert(after[i]@ == between[i]@);
        }
    }
}

impl State {
    /// The state in which no job of the `omega` chains is committed.
    pub fn empty(omega: usize) -> (state: State)
        ensures
            state@.ideal == Seq::new(omega as nat, |c: int| 0int),
            state@.allotment == Seq::new(omega as nat, |c: int| 0int),
            state@.completion == Seq::new(omega as nat, |c: int| 0int),
    {
        let mut ideal: Vec<usize> = Vec::new();
        let mut allotment: Vec<usize> = Vec::new();
        let mut completion_times: Vec<i32> = Vec::new();
        while ideal.len() < omega
            invariant
                ideal.len() <= omega,
                allotment.len() == ideal.len(),
                completion_times.len() == ideal.len(),
                forall|c: int| 0 <= c < ideal.len() ==> #[trigger] ideal[c] == 0,
                forall|c: int| 0 <= c < ideal.len() ==> #[trigger] allotment[c] == 0,
                forall|c: int| 0 <= c < ideal.len() ==> #[trigger] completion_times[c] == 0,
            decreases omega - ideal.len(),
        {
            ideal.push(0);
            allotment.push(0);
            completion_times.push(0);
        }
        let state = State { ideal, allotment, completion_times };
        assert(state@.ideal =~= Seq::new(omega as nat, |c: int| 0int));
        assert(state@.allotment =~= Seq::new(omega as nat, |c: int| 0int));
        assert(state@.completion =~= Seq::new(omega as nat, |c: int| 0int));
        state
    }

    /// The state after the next job of `chain` is committed on `allot`
    /// processors and done at `compl`.
    pub fn add_job(&self, chain: usize, allot: usize, compl: i32) -> (state: State)
        requires
            chain < self.ideal.len(),
            chain < self.allotment.len(),
            chain < self.completion_times.len(),
            self.ideal[chain as int] < usize::MAX,
        ensures
            state@.ideal == self@.ideal.update(chain as int, self@.ideal[chain as int] + 1),
            state@.allotment == self@.allotment.update(chain as int, allot as int),
            state@.completion == self@.completion.update(chain as int, compl as int),
    {
        let mut ideal = copy_counts(&self.ideal);
        let mut allotment = copy_counts(&self.allotment);
        let mut completion_times = copy_times(&self.completion_times);
        ideal.set(chain, self.ideal[chain] + 1);
        allotment.set(chain, allot);
        completion_times.set(chain, compl);
        let state = State { ideal, allotment, completion_times };
        assert(state@.ideal =~= self@.ideal.update(chain as int, self@.ideal[chain as int] + 1));
        assert(state@.allotment =~= self@.allotment.update(chain as int, allot as int));
        assert(state@.completion =~= self@.completion.update(chain as int, compl as int));
        state
    }

    /// Whether the two states hold the same.
    pub fn same(&self, other: &State) -> (yes: bool)
        ensures
            yes == (self@ == other@),
    {
        let yes = same_counts(&self.ideal, &other.ideal) && same_counts(
            &self.allotment,
            &other.allotment,
        ) && same_times(&self.completion_times, &other.completion_times);
        proof {
            if yes {
                assert(self@.ideal =~= other@.ideal);
                assert(self@.allotment =~= other@.allotment);
                assert(self@.completion =~= other@.completion);
            } else if self.ideal@ != other.ideal@ {
                lemma_counts_differ(self.ideal@, other.ideal@);
                assert(self@.ideal != other@.ideal);
            } else if self.allotment@ != other.allotment@ {
                lemma_counts_differ(self.allotment@, other.allotment@);
                assert(self@.allotment != other@.allotment);
            } else {
                lemma_times_differ(self.completion_times@, other.completion_times@);
                assert(self@.completion != other@.completion);
            }
        }
        yes
    }
}

proof fn lemma_counts_differ(left: Seq<usize>, right: Seq<usize>)
    requires
        left != right,
    ensures
        Seq::new(left.len(), |c: int| left[c] as int) != Seq::new(right.len(), |c: int| right[c] as int),
{
    let a = Seq::new(left.len(), |c: int| left[c] as int);
    let b = Seq::new(right.len(), |c: int| right[c] as int);
    if a == b {
        assert(left.len() == a.len());
        assert(right.len() == b.len());
        assert forall|c: int| 0 <= c < left.len() implies left[c] == right[c] by {
            assert(a[c] == b[c]);
        }
        assert(left =~= right);
    }
}

proof fn lemma_times_differ(left: Seq<i32>, right: Seq<i32>)
    requires
        left != right,
    ensures
        Seq::new(left.len(), |c: int| left[c] as int) != Seq::new(right.len(), |c: int| right[c] as int),
{
    let a = Seq::new(left.len(), |c: int| left[c] as int);
    let b = Seq::new(right.len(), |c: int| right[c] as int);
    if a == b {
        assert(left.len() == a.len());
        assert(right.len() == b.len());
        assert forall|c: int| 0 <= c < left.len() implies left[c] == right[c] by {
            assert(a[c] == b[c]);
        }
        assert(left =~= right);
    }
}

fn copy_counts(counts: &Vec<usize>) -> (copy: Vec<usize>)
    ensures
        copy@ == counts@,
{
    let mut copy: Vec<usize> = Vec::new();
    let mut c: usize = 0;
    while c < counts.len()
        invariant
            c <= counts.len(),
            copy@ == counts@.subrange(0, c as int),
        decreases counts.len() - c,
    {
        copy.push(counts[c]);
        c += 1;
    }
    assert(copy@ =~= counts@);
    copy
}

fn copy_times(times: &Vec<i32>) -> (copy: Vec<i32>)
    ensures
        copy@ == times@,
{
    let mut copy: Vec<i32> = Vec::new();
    let mut c: usize = 0;
    while c < times.len()
        invariant
            c <= times.len(),
            copy@ == times@.subrange(0, c as int),
        decreases times.len() - c,
    {
        copy.push(times[c]);
        c += 1;
    }
    assert(copy@ =~= times@);
    copy
}

fn same_counts(left: &Vec<usize>, right: &Vec<usize>) -> (yes: bool)
    ensures
        yes == (left@ == right@),
{
    if left.len() != right.len() {
        return false;
    }
    let mut c: usize = 0;
    while c < left.len()
        invariant
            c <= left.len(),
            left.len() == right.len(),
            forall|d: int| 0 <= d < c ==> left[d] == right[d],
        decreases left.len() - c,
    {
        if left[c] != right[c] {
            return false;
        }
        c += 1;
    }
    assert(left@ =~= right@);
    true
}

fn same_times(left: &Vec<i32>, right: &Vec<i32>) -> (yes: bool)
    ensures
        yes == (left@ == right@),
{
    if left.len() != right.len() {
        return false;
    }
    let mut c: usize = 0;
    while c < left.len()
        invariant
            c <= left.len(),
            left.len() == right.len(),
            forall|d: int| 0 <= d < c ==> left[d] == right[d],
        decreases left.len() - c,
    {
        if left[c] != right[c] {
            return false;
        }
        c += 1;
    }
    assert(left@ =~= right@);
    true
}

/// Whether the state is among the known ones.
fn is_known(known: &Vec<State>, state: &State) -> (yes: bool)
    ensures
        yes == exists|i: int| 0 <= i < known.len() && (#[trigger] known[i])@ == state@,
{
    let mut i: usize = 0;
    while i < known.len()
        invariant
            i <= known.len(),
            forall|k: int| 0 <= k < i ==> (#[trigger] known[k])@ != state@,
        decreases known.len() - i,
    {
        if known[i].same(state) {
            return true;
        }
        i += 1;
    }
    false
}


impl DpInput {
    /// Each chain holds jobs of the instance.
    pub proof fn lemma_chain_jobs(self)
        requires
            self.wf(),
        ensures
            forall|c: int, x: int|
                0 <= c < self.chains.len() && 0 <= x < self.chains[c].len() ==> 0 <= (
                #[trigger] self.chains[c][x]) < self.instance.jobs.len(),
    {
        lemma_decomposition_partitions(self.instance, self.chains);
    }

    /// The state after a step on a chain that has a job left is well formed.
    proof fn lemma_advance_wf(self, s: StateView, x: Step)
        requires
            self.state_wf(s),
            0 <= x.chain < self.chains.len(),
            s.ideal[x.chain] < self.chains[x.chain].len(),
            1 <= x.allotment <= self.instance.processors,
        ensures
            self.state_wf(self.advance(s, x)),
    {
    }
}

/// Whether the front jobs hold no more processors than there are at
/// instant `t`.
fn fits_at(instance: &Instance, chains: &Vec<Vec<usize>>, state: &State, t: i64) -> (ok: bool)
    requires
        dp_input(*instance, chains@).wf(),
        dp_input(*instance, chains@).state_wf(state@),
    ensures
        ok == (dp_input(*instance, chains@).load(state@, t as int) <= instance@.processors),
{
    let ghost input = dp_input(*instance, chains@);
    let ghost s = state@;
    let m = instance.processor_count;
    let mut held: usize = 0;
    let mut c: usize = 0;
    proof {
        input.lemma_chain_jobs();
    }
    while c < chains.len()
        invariant
            c <= chains.len(),
            input == dp_input(*instance, chains@),
            s == state@,
            input.wf(),
            input.state_wf(s),
            m == instance.processor_count,
            forall|c: int, x: int|
                0 <= c < input.chains.len() && 0 <= x < input.chains[c].len() ==> 0 <= (
                #[trigger] input.chains[c][x]) < input.instance.jobs.len(),
            held == input.load_upto(s, t as int, c as int),
            held <= m,
        decreases chains.len() - c,
    {
        assert(s.ideal[c as int] == state.ideal[c as int]);
        assert(input.chains[c as int].len() == chains[c as int].len());
        if state.ideal[c] != 0 {
            let front = chains[c][state.ideal[c] - 1];
            assert(front == input.chains[c as int][s.ideal[c as int] - 1]);
            let a = state.allotment[c];
            assert(a == s.allotment[c as int]);
            assert(input.instance.jobs[front as int].times.len() == input.instance.processors);
            let done = state.completion_times[c] as i64;
            let begin = done - instance.jobs[front].processing_time(a) as i64;
            assert(begin == input.front_start(s, c as int));
            if begin <= t && t < done {
                if a > m - held {
                    proof {
                        input.lemma_load_grows(s, t as int, c + 1, chains.len() as int);
                    }
                    return false;
                }
                held += a;
            }
        }
        c += 1;
    }
    true
}

/// Whether `job` directly precedes a job that is committed.
fn leads_committed(instance: &Instance, chains: &Vec<Vec<usize>>, state: &State, job: usize) -> (yes: bool)
    requires
        dp_input(*instance, chains@).wf(),
        dp_input(*instance, chains@).state_wf(state@),
        job < instance.jobs.len(),
    ensures
        yes == dp_input(*instance, chains@).leads(state@, job as int),
{
    let ghost input = dp_input(*instance, chains@);
    let ghost s = state@;
    proof {
        input.lemma_chain_jobs();
    }
    let mut c: usize = 0;
    while c < chains.len()
        invariant
            c <= chains.len(),
            input == dp_input(*instance, chains@),
            s == state@,
            input.wf(),
            input.state_wf(s),
            job < instance.jobs.len(),
            forall|c: int, x: int|
                0 <= c < input.chains.len() && 0 <= x < input.chains[c].len() ==> 0 <= (
                #[trigger] input.chains[c][x]) < input.instance.jobs.len(),
            forall|d: int, y: int|
                0 <= d < c && 0 <= y < s.ideal[d] ==> !input.instance.precedes(
                    job as int,
                    #[trigger] input.chains[d][y],
                ),
        decreases chains.len() - c,
    {
        assert(s.ideal[c as int] == state.ideal[c as int]);
        assert(input.chains[c as int].len() == chains[c as int].len());
        let mut k: usize = 0;
        while k < state.ideal[c]
            invariant
                k <= state.ideal[c as int],
                c < chains.len(),
                state.ideal[c as int] <= chains[c as int].len(),
                input == dp_input(*instance, chains@),
                s == state@,
                input.wf(),
                input.state_wf(s),
                job < instance.jobs.len(),
                forall|c: int, x: int|
                    0 <= c < input.chains.len() && 0 <= x < input.chains[c].len() ==> 0 <= (
                    #[trigger] input.chains[c][x]) < input.instance.jobs.len(),
                forall|d: int, y: int|
                    (0 <= d < c && 0 <= y < s.ideal[d]) || (d == c && 0 <= y < k)
                        ==> !input.instance.precedes(job as int, #[trigger] input.chains[d][y]),
            decreases state.ideal[c as int] - k,
        {
            let other = chains[c][k];
            assert(other == input.chains[c as int][k as int]);
            assert(input.instance.jobs[other as int].index == other);
            assert(input.instance.jobs[job as int].index == job);
            let before = instance.jobs[job].less_than(
                instance.constraints.as_slice(),
                &instance.jobs[other],
            );
            assert(before == input.instance.precedes(job as int, other as int));
            if before {
                assert(input.leads(s, job as int));
                return true;
            }
            k += 1;
        }
        c += 1;
    }
    false
}

/// Whether the next job of `chain` can be committed on `allot` processors
/// and done at `compl`.
fn admits_step(
    instance: &Instance,
    chains: &Vec<Vec<usize>>,
    state: &State,
    chain: usize,
    allot: usize,
    compl: i32,
) -> (ok: bool)
    requires
        dp_input(*instance, chains@).wf(),
        dp_input(*instance, chains@).state_wf(state@),
        chain < chains.len(),
        state.ideal[chain as int] < chains[chain as int].len(),
        1 <= allot <= instance.processor_count,
        0 <= compl <= instance.max_time,
    ensures
        ok == dp_input(*instance, chains@).admits(
            state@,
            Step { chain: chain as int, allotment: allot as int, completion: compl as int },
        ),
{
    let ghost input = dp_input(*instance, chains@);
    let ghost s = state@;
    let ghost x = Step { chain: chain as int, allotment: allot as int, completion: compl as int };
    proof {
        input.lemma_chain_jobs();
        input.lemma_advance_wf(s, x);
    }
    assert(s.ideal[chain as int] == state.ideal[chain as int]);
    assert(input.chains[chain as int].len() == chains[chain as int].len());
    let job = chains[chain][state.ideal[chain]];
    assert(job == input.job(s, x));
    assert(input.instance.jobs[job as int].times.len() == input.instance.processors);
    let start = compl as i64 - instance.jobs[job].processing_time(allot) as i64;
    assert(start == input.start(s, x));
    if start < 0 {
        return false;
    }
    if leads_committed(instance, chains, state, job) {
        return false;
    }
    let mut c: usize = 0;
    while c < chains.len()
        invariant
            c <= chains.len(),
            input == dp_input(*instance, chains@),
            s == state@,
            x == (Step { chain: chain as int, allotment: allot as int, completion: compl as int }),
            input.wf(),
            input.state_wf(s),
            !input.leads(s, input.job(s, x)),
            job == input.job(s, x),
            job < instance.jobs.len(),
            start == input.start(s, x),
            forall|c: int, x: int|
                0 <= c < input.chains.len() && 0 <= x < input.chains[c].len() ==> 0 <= (
                #[trigger] input.chains[c][x]) < input.instance.jobs.len(),
            forall|d: int|
                0 <= d < c && #[trigger] s.ideal[d] > 0 ==> {
                    &&& input.instance.precedes(input.front(s, d), input.job(s, x)) ==> input.start(
                        s,
                        x,
                    ) >= s.completion[d]
                    &&& input.start(s, x) >= input.front_start(s, d)
                },
        decreases chains.len() - c,
    {
        assert(s.ideal[c as int] == state.ideal[c as int]);
        assert(input.chains[c as int].len() == chains[c as int].len());
        if state.ideal[c] != 0 {
            let front = chains[c][state.ideal[c] - 1];
            assert(front == input.front(s, c as int));
            let a = state.allotment[c];
            assert(a == s.allotment[c as int]);
            assert(input.instance.jobs[front as int].times.len() == input.instance.processors);
            let done = state.completion_times[c] as i64;
            assert(done == s.completion[c as int]);
            let begin = done - instance.jobs[front].processing_time(a) as i64;
            assert(begin == input.front_start(s, c as int));
            assert(input.instance.jobs[front as int].index == front);
            assert(input.instance.jobs[job as int].index == job);
            let before = instance.jobs[front].less_than(
                instance.constraints.as_slice(),
                &instance.jobs[job],
            );
            assert(before == input.instance.precedes(front as int, job as int));
            if (before && start < done) || start < begin {
                assert(s.ideal[c as int] > 0);
                return false;
            }
        }
        c += 1;
    }
    assert(state.ideal[chain as int] < usize::MAX);
    let next = state.add_job(chain, allot, compl);
    let ghost after = input.advance(s, x);
    assert(next@ == after);
    let mut c: usize = 0;
    while c < chains.len()
        invariant
            c <= chains.len(),
            input == dp_input(*instance, chains@),
            s == state@,
            x == (Step { chain: chain as int, allotment: allot as int, completion: compl as int }),
            after == next@,
            after == input.advance(s, x),
            input.wf(),
            input.state_wf(after),
            !input.leads(s, input.job(s, x)),
            forall|c: int, x: int|
                0 <= c < input.chains.len() && 0 <= x < input.chains[c].len() ==> 0 <= (
                #[trigger] input.chains[c][x]) < input.instance.jobs.len(),
            forall|d: int|
                0 <= d < c && #[trigger] after.ideal[d] > 0 ==> input.load(
                    after,
                    input.front_start(after, d),
                ) <= input.instance.processors,
        decreases chains.len() - c,
    {
        assert(after.ideal[c as int] == next.ideal[c as int]);
        assert(input.chains[c as int].len() == chains[c as int].len());
        if next.ideal[c] != 0 {
            let front = chains[c][next.ideal[c] - 1];
            assert(front == input.chains[c as int][after.ideal[c as int] - 1]);
            let a = next.allotment[c];
            assert(a == after.allotment[c as int]);
            assert(input.instance.jobs[front as int].times.len() == input.instance.processors);
            let begin = next.completion_times[c] as i64 - instance.jobs[front].processing_time(a) as i64;
            assert(begin == input.front_start(after, c as int));
            if !fits_at(instance, chains, &next, begin) {
                assert(input.load(input.advance(s, x), begin as int) > input.instance.processors);
                return false;
            }
        }
        c += 1;
    }
    proof {
        input.lemma_load_checked(after);
    }
    true
}


proof fn lemma_length_grows(chains: Seq<Seq<int>>, fewer: int, more: int)
    requires
        0 <= fewer <= more <= chains.len(),
    ensures
        length_upto(chains, fewer) <= length_upto(chains, more),
    decreases more - fewer,
{
    if fewer < more {
        lemma_length_grows(chains, fewer, more - 1);
    }
}

/// The number of jobs committed.
fn count_committed(instance: &Instance, chains: &Vec<Vec<usize>>, state: &State) -> (count: usize)
    requires
        dp_input(*instance, chains@).wf(),
        dp_input(*instance, chains@).state_wf(state@),
    ensures
        count == committed(state@),
{
    let ghost input = dp_input(*instance, chains@);
    let mut count: usize = 0;
    let mut c: usize = 0;
    proof {
        input.lemma_length();
    }
    while c < state.ideal.len()
        invariant
            c <= state.ideal.len(),
            input == dp_input(*instance, chains@),
            input.wf(),
            input.state_wf(state@),
            length_upto(input.chains, input.chains.len() as int) == instance.jobs.len(),
            count == committed_upto(state@.ideal, c as int),
        decreases state.ideal.len() - c,
    {
        proof {
            lemma_committed_bounds(input.chains, state@.ideal, c + 1);
            lemma_length_grows(input.chains, c + 1, input.chains.len() as int);
        }
        assert(state@.ideal[c as int] == state.ideal[c as int]);
        count += state.ideal[c];
        c += 1;
    }
    count
}

/// Commits the next job of `chain` on `allot` processors, done at `compl`,
/// if that step can be taken and leads to a state that is not known yet, and
/// searches on from there.
fn try_step(
    instance: &Instance,
    chains: &Vec<Vec<usize>>,
    state: &State,
    chain: usize,
    allot: usize,
    compl: i32,
    known: &mut Vec<State>,
) -> (found: Option<Vec<ScheduledJob>>)
    requires
        dp_input(*instance, chains@).wf(),
        dp_input(*instance, chains@).state_wf(state@),
        chain < chains.len(),
        state.ideal[chain as int] < chains[chain as int].len(),
        1 <= allot <= instance.processor_count,
        0 <= compl <= instance.max_time,
        memo_sound(dp_input(*instance, chains@), old(known)@, state@),
    ensures
        memo_grown(old(known)@, final(known)@, state@),
        match found {
            Some(jobs) => {
                let input = dp_input(*instance, chains@);
                let x = Step { chain: chain as int, allotment: allot as int, completion: compl as int };
                &&& input.admits(state@, x)
                &&& exists|tail: Seq<Step>|
                    #[trigger] input.is_first(input.advance(state@, x), tail) && jobs_of(jobs@)
                        == seq![input.placement(state@, x)] + input.placements(
                        input.advance(state@, x),
                        tail,
                    )
            },
            None => {
                let input = dp_input(*instance, chains@);
                let x = Step { chain: chain as int, allotment: allot as int, completion: compl as int };
                &&& input.barren(state@, x)
                &&& memo_sound(input, final(known)@, state@)
            },
        },
    decreases dp_input(*instance, chains@).remaining(state@), 0int,
{
    let ghost input = dp_input(*instance, chains@);
    let ghost s = state@;
    let ghost x = Step { chain: chain as int, allotment: allot as int, completion: compl as int };
    let ghost before = known@;
    if !admits_step(instance, chains, state, chain, allot, compl) {
        return None;
    }
    let next = state.add_job(chain, allot, compl);
    let ghost after = input.advance(s, x);
    assert(next@ == after);
    proof {
        input.lemma_advance(s, x);
        input.lemma_chain_jobs();
        lemma_committed_update(s.ideal, x.chain, s.ideal[x.chain] + 1, s.ideal.len() as int);
        assert(committed(after) == committed(s) + 1);
    }
    if is_known(known, &next) {
        proof {
            let i = choose|i: int| 0 <= i < known.len() && (#[trigger] known[i])@ == next@;
            assert(input.dead(known[i]@));
        }
        return None;
    }
    let marker = state.add_job(chain, allot, compl);
    known.push(marker);
    let ghost marked = known@;
    assert(memo_sound(input, marked, after)) by {
        assert forall|i: int|
            0 <= i < marked.len() && committed((#[trigger] marked[i])@) > committed(after) implies input.dead(
            marked[i]@,
        ) by {
            if i < before.len() {
                assert(marked[i] == before[i]);
            }
        }
    }
    assert(memo_grown(before, marked, s)) by {
        assert forall|i: int| 0 <= i < before.len() implies (#[trigger] marked[i])@ == before[i]@ by {
            assert(marked[i] == before[i]);
        }
        assert forall|i: int| before.len() <= i < marked.len() implies committed((#[trigger] marked[i])@)
            > committed(s) by {
            assert(marked[i]@ == after);
        }
    }
    let found = search(instance, chains, &next, known);
    proof {
        lemma_grown_twice(before, marked, known@, s, after);
    }
    match found {
        None => {
            proof {
                assert forall|i: int|
                    0 <= i < known@.len() && committed((#[trigger] known@[i])@) > committed(s) implies input.dead(
                    known@[i]@,
                ) by {
                    if committed(known@[i]@) > committed(after) {
                    } else if i < marked.len() {
                        assert(known@[i]@ == marked[i]@);
                        if i < before.len() {
                            assert(marked[i] == before[i]);
                        } else {
                            assert(marked[i]@ == after);
                        }
                    }
                }
            }
            None
        },
        Some(mut rest) => {
            let ghost rest_view = jobs_of(rest@);
            let job = chains[chain][state.ideal[chain]];
            assert(job == input.job(s, x));
            assert(input.chains[chain as int].len() == chains[chain as int].len());
            assert(input.instance.jobs[job as int].times.len() == input.instance.processors);
            let start = compl - instance.jobs[job].processing_time(allot);
            let placed = ScheduledJob {
                job: instance.jobs[job].clone(),
                allotment: allot,
                start_time: start,
            };
            assert(placed@ == input.placement(s, x));
            let mut jobs: Vec<ScheduledJob> = Vec::new();
            jobs.push(placed);
            jobs.append(&mut rest);
            proof {
                let tail = choose|tail: Seq<Step>|
                    #[trigger] input.is_first(after, tail) && rest_view == input.placements(after, tail);
                assert(jobs_of(jobs@) =~= seq![input.placement(s, x)] + input.placements(after, tail));
            }
            Some(jobs)
        },
    }
}

/// Searches for steps that commit every job that the state leaves, in the
/// order of the chains, then of the allotments from 1 on, then of the
/// completion times from 0 on, and never from a state that is known. Returns
/// the jobs committed on the way, or `None` if there is no way. The states
/// that it goes through are added to the known ones, and nothing else
/// changes there; from a state in which every job is committed none is
/// added.
pub fn search(
    instance: &Instance,
    chains: &Vec<Vec<usize>>,
    state: &State,
    known: &mut Vec<State>,
) -> (found: Option<Vec<ScheduledJob>>)
    requires
        dp_input(*instance, chains@).wf(),
        dp_input(*instance, chains@).state_wf(state@),
        memo_sound(dp_input(*instance, chains@), old(known)@, state@),
    ensures
        memo_grown(old(known)@, final(known)@, state@),
        dp_input(*instance, chains@).terminal(state@) ==> final(known)@ == old(known)@,
        match found {
            Some(jobs) => exists|path: Seq<Step>|
                #[trigger] dp_input(*instance, chains@).is_first(state@, path) && jobs_of(jobs@)
                    == dp_input(*instance, chains@).placements(state@, path),
            None => {
                &&& dp_input(*instance, chains@).dead(state@)
                &&& memo_sound(dp_input(*instance, chains@), final(known)@, state@)
            },
        },
    decreases dp_input(*instance, chains@).remaining(state@), 1int,
{
    let ghost input = dp_input(*instance, chains@);
    let ghost s = state@;
    let ghost before = known@;
    if count_committed(instance, chains, state) == instance.jobs.len() {
        let jobs: Vec<ScheduledJob> = Vec::new();
        proof {
            let path = Seq::<Step>::empty();
            assert(input.is_first(s, path));
            assert(jobs_of(jobs@) =~= input.placements(s, path));
        }
        return Some(jobs);
    }
    let m = instance.processor_count;
    let mut c: usize = 0;
    while c < chains.len()
        invariant
            c <= chains.len(),
            input == dp_input(*instance, chains@),
            s == state@,
            m == instance.processor_count,
            input.wf(),
            input.state_wf(s),
            !input.terminal(s),
            memo_sound(input, known@, s),
            memo_grown(before, known@, s),
            before == old(known)@,
            forall|x: Step| x.chain < c ==> #[trigger] input.barren(s, x),
        decreases chains.len() - c,
    {
        assert(s.ideal[c as int] == state.ideal[c as int]);
        assert(input.chains[c as int].len() == chains[c as int].len());
        if state.ideal[c] < chains[c].len() {
            let mut a: usize = 0;
            while a < m
                invariant
                    a <= m,
                    c < chains.len(),
                    state.ideal[c as int] < chains[c as int].len(),
                    input == dp_input(*instance, chains@),
                    s == state@,
                    m == instance.processor_count,
                    input.wf(),
                    input.state_wf(s),
                    !input.terminal(s),
                    memo_sound(input, known@, s),
                    memo_grown(before, known@, s),
                    before == old(known)@,
                    forall|x: Step|
                        x.chain < c || (x.chain == c && x.allotment <= a) ==> #[trigger] input.barren(
                            s,
                            x,
                        ),
                decreases m - a,
            {
                let allot = a + 1;
                let mut compl: i64 = 0;
                while compl <= instance.max_time as i64
                    invariant
                        0 <= compl,
                        allot == a + 1,
                        a < m,
                        c < chains.len(),
                        state.ideal[c as int] < chains[c as int].len(),
                        input == dp_input(*instance, chains@),
                        s == state@,
                        m == instance.processor_count,
                        input.wf(),
                        input.state_wf(s),
                        !input.terminal(s),
                        memo_sound(input, known@, s),
                        memo_grown(before, known@, s),
                        before == old(known)@,
                        forall|x: Step|
                            earlier(
                                x,
                                Step { chain: c as int, allotment: allot as int, completion: compl as int },
                            ) ==> #[trigger] input.barren(s, x),
                    decreases instance.max_time + 1 - compl,
                {
                    let ghost here = Step {
                        chain: c as int,
                        allotment: allot as int,
                        completion: compl as int,
                    };
                    let ghost memo = known@;
                    let found = try_step(instance, chains, state, c, allot, compl as i32, known);
                    proof {
                        lemma_grown_twice(before, memo, known@, s, s);
                    }
                    match found {
                        Some(jobs) => {
                            proof {
                                let after = input.advance(s, here);
                                let tail = choose|tail: Seq<Step>|
                                    #[trigger] input.is_first(after, tail) && jobs_of(jobs@)
                                        == seq![input.placement(s, here)] + input.placements(
                                        after,
                                        tail,
                                    );
                                let path = seq![here] + tail;
                                assert(path[0] == here);
                                assert(path.drop_first() =~= tail);
                                assert(input.is_first(s, path));
                                assert(jobs_of(jobs@) == input.placements(s, path));
                            }
                            return Some(jobs);
                        },
                        None => {},
                    }
                    compl += 1;
                }
                a += 1;
            }
        }
        c += 1;
    }
    proof {
        input.lemma_dead(s);
    }
    None
}


impl DpInput {
    /// Chain `c` has a front job, and the scheduled job `e` is a committed
    /// job of that chain: its front job as the state records it, or a job
    /// that is done when the front job starts.
    pub open spec fn covered(self, s: StateView, c: int, e: ScheduledJobView) -> bool {
        &&& 0 <= c < self.chains.len()
        &&& s.ideal[c] > 0
        &&& exists|x: int| 0 <= x < s.ideal[c] && #[trigger] self.chains[c][x] == e.job.index
        &&& (e.job.index == self.front(s, c) && e.completion() == s.completion[c] && e.allotment
            == s.allotment[c]) || e.completion() <= self.front_start(s, c)
    }

    /// The scheduled job at `k` is a job of the instance, on 1 to `m`
    /// processors, within the time bound, and a committed job of some chain.
    pub open spec fn recorded(self, s: StateView, placed: Seq<ScheduledJobView>, k: int) -> bool {
        let e = placed[k];
        &&& 0 <= e.job.index < self.instance.jobs.len()
        &&& e.job == self.instance.jobs[e.job.index]
        &&& 1 <= e.allotment <= self.instance.processors
        &&& e.start >= 0
        &&& e.completion() <= self.instance.max_time
        &&& exists|c: int| #[trigger] self.covered(s, c, e)
    }

    /// Job `j` is among the scheduled jobs.
    pub open spec fn placed_in(self, placed: Seq<ScheduledJobView>, j: int) -> bool {
        exists|k: int| 0 <= k < placed.len() && (#[trigger] placed[k]).job.index == j
    }

    /// No front job starts after instant `t`.
    pub open spec fn after_starts(self, s: StateView, t: int) -> bool {
        forall|c: int|
            0 <= c < self.chains.len() && #[trigger] s.ideal[c] > 0 ==> self.front_start(s, c) <= t
    }

    /// The scheduled jobs are the jobs committed in the state, each once; a
    /// job that directly precedes a later one is done when that one starts,
    /// and none directly precedes an earlier one; and the jobs never hold
    /// more processors than there are.
    pub open spec fn records(self, s: StateView, placed: Seq<ScheduledJobView>) -> bool {
        &&& placed.len() == committed(s)
        &&& forall|k: int| 0 <= k < placed.len() ==> #[trigger] self.recorded(s, placed, k)
        &&& forall|k: int, l: int|
            0 <= k < l < placed.len() ==> (#[trigger] placed[k]).job.index != (
            #[trigger] placed[l]).job.index
        &&& forall|c: int, x: int|
            0 <= c < self.chains.len() && 0 <= x < s.ideal[c] ==> self.placed_in(
                placed,
                #[trigger] self.chains[c][x],
            )
        &&& forall|k: int, l: int|
            0 <= k < l < placed.len() && self.instance.precedes(
                (#[trigger] placed[k]).job.index,
                (#[trigger] placed[l]).job.index,
            ) ==> placed[k].completion() <= placed[l].start
        &&& forall|k: int, l: int|
            0 <= k < l < placed.len() ==> !self.instance.precedes(
                (#[trigger] placed[l]).job.index,
                (#[trigger] placed[k]).job.index,
            )
        &&& forall|t: int| #[trigger] usage(placed, t) <= self.instance.processors
        &&& forall|t: int| self.after_starts(s, t) ==> #[trigger] usage(placed, t) == self.load(s, t)
    }

    /// The state in which the steps end.
    pub open spec fn end(self, s: StateView, path: Seq<Step>) -> StateView
        decreases path.len(),
    {
        if path.len() == 0 {
            s
        } else {
            self.end(self.advance(s, path[0]), path.drop_first())
        }
    }

    pub proof fn lemma_load_advance(self, s: StateView, x: Step, t: int, upto: int)
        requires
            0 <= x.chain < self.chains.len(),
            0 <= upto <= self.chains.len(),
            s.ideal.len() == self.chains.len(),
            s.allotment.len() == self.chains.len(),
            s.completion.len() == self.chains.len(),
        ensures
            self.load_upto(self.advance(s, x), t, upto) == self.load_upto(s, t, upto) + if x.chain
                < upto {
                (if self.runs(self.advance(s, x), x.chain, t) {
                    x.allotment
                } else {
                    0
                }) - (if self.runs(s, x.chain, t) {
                    s.allotment[x.chain]
                } else {
                    0
                })
            } else {
                0
            },
        decreases upto,
    {
        if upto > 0 {
            self.lemma_load_advance(s, x, t, upto - 1);
            let after = self.advance(s, x);
            let c = upto - 1;
            if c != x.chain {
                assert(after.ideal[c] == s.ideal[c]);
                assert(after.allotment[c] == s.allotment[c]);
                assert(after.completion[c] == s.completion[c]);
                assert(self.runs(after, c, t) == self.runs(s, c, t));
            }
        }
    }

    /// A step that can be taken keeps the record.
    pub proof fn lemma_records_step(self, s: StateView, placed: Seq<ScheduledJobView>, x: Step)
        requires
            self.wf(),
            self.state_wf(s),
            self.records(s, placed),
            self.admits(s, x),
        ensures
            self.records(self.advance(s, x), placed.push(self.placement(s, x))),
    {
        let after = self.advance(s, x);
        let e = self.placement(s, x);
        let next = placed.push(e);
        let c = x.chain;
        let j = self.job(s, x);
        let width = self.chains.len() as int;
        let m = self.instance.processors;
        self.lemma_chain_jobs();
        lemma_decomposition_partitions(self.instance, self.chains);
        lemma_committed_update(s.ideal, c, s.ideal[c] + 1, width);
        assert(0 <= j < self.instance.jobs.len());
        assert(self.instance.jobs[j].index == j);
        assert(self.instance.time(j, x.allotment) >= 1);
        assert(e.completion() == x.completion);
        assert(e.start == self.start(s, x));
        if s.ideal[c] > 0 {
            assert(ordered(self.instance.constraints, self.chains[c]));
            assert(precedes(
                self.instance.constraints,
                self.chains[c][s.ideal[c] - 1],
                self.chains[c][s.ideal[c]],
            ));
            assert(self.start(s, x) >= s.completion[c]);
            assert(self.instance.time(self.front(s, c), s.allotment[c]) >= 1);
        }
        assert forall|k: int| 0 <= k < next.len() implies #[trigger] self.recorded(after, next, k) by {
            if k < placed.len() {
                assert(next[k] == placed[k]);
                assert(self.recorded(s, placed, k));
                let d = choose|d: int| #[trigger] self.covered(s, d, placed[k]);
                let y = choose|y: int| 0 <= y < s.ideal[d] && #[trigger] self.chains[d][y] == placed[k].job.index;
                assert(self.chains[d][y] == placed[k].job.index);
                assert(self.covered(after, d, placed[k]));
            } else {
                assert(next[k] == e);
                assert(self.chains[c][s.ideal[c]] == e.job.index);
                assert(self.covered(after, c, e));
            }
        }
        assert forall|k: int, l: int| 0 <= k < l < next.len() implies (#[trigger] next[k]).job.index != (
        #[trigger] next[l]).job.index by {
            assert(next[k] == placed[k]);
            if l < placed.len() {
                assert(next[l] == placed[l]);
            } else {
                assert(self.recorded(s, placed, k));
                let d = choose|d: int| #[trigger] self.covered(s, d, placed[k]);
                let y = choose|y: int| 0 <= y < s.ideal[d] && #[trigger] self.chains[d][y] == placed[k].job.index;
                assert(self.chains[d][y] != self.chains[c][s.ideal[c]]);
            }
        }
        assert forall|d: int, y: int| 0 <= d < width && 0 <= y < after.ideal[d] implies self.placed_in(
            next,
            #[trigger] self.chains[d][y],
        ) by {
            if d == c && y == s.ideal[c] {
                assert(next[placed.len() as int].job.index == self.chains[d][y]);
            } else {
                assert(self.placed_in(placed, self.chains[d][y]));
                let k = choose|k: int| 0 <= k < placed.len() && (#[trigger] placed[k]).job.index == self.chains[d][y];
                assert(next[k].job.index == self.chains[d][y]);
            }
        }
        assert forall|k: int, l: int|
            0 <= k < l < next.len() && self.instance.precedes(
                (#[trigger] next[k]).job.index,
                (#[trigger] next[l]).job.index,
            ) implies next[k].completion() <= next[l].start by {
            assert(next[k] == placed[k]);
            if l < placed.len() {
                assert(next[l] == placed[l]);
            } else {
                assert(self.recorded(s, placed, k));
                let d = choose|d: int| #[trigger] self.covered(s, d, placed[k]);
                assert(s.ideal[d] > 0);
                assert(self.instance.time(self.front(s, d), s.allotment[d]) >= 1);
            }
        }
        assert forall|k: int, l: int| 0 <= k < l < next.len() implies !self.instance.precedes(
            (#[trigger] next[l]).job.index,
            (#[trigger] next[k]).job.index,
        ) by {
            assert(next[k] == placed[k]);
            if l < placed.len() {
                assert(next[l] == placed[l]);
            } else {
                assert(self.recorded(s, placed, k));
                let d = choose|d: int| #[trigger] self.covered(s, d, placed[k]);
                let y = choose|y: int| 0 <= y < s.ideal[d] && #[trigger] self.chains[d][y] == placed[k].job.index;
                if self.instance.precedes(j, self.chains[d][y]) {
                    assert(self.leads(s, j));
                }
            }
        }
        assert forall|t: int| #[trigger] usage(next, t) <= m && (self.after_starts(after, t) ==> usage(
            next,
            t,
        ) == self.load(after, t)) by {
            assert(next.drop_last() =~= placed);
            assert(next.last() == e);
            assert(usage(next, t) == usage(placed, t) + if e.runs_at(t) {
                e.allotment
            } else {
                0
            });
            self.lemma_load_advance(s, x, t, width);
            assert(after.ideal[c] > 0);
            assert(self.front(after, c) == j);
            assert(self.front_start(after, c) == self.start(s, x));
            assert(self.runs(after, c, t) == e.runs_at(t));
            assert(self.load(after, t) <= m);
            assert(usage(placed, t) <= m);
            if self.start(s, x) <= t {
                assert forall|d: int| 0 <= d < width && #[trigger] s.ideal[d] > 0 implies self.front_start(
                    s,
                    d,
                ) <= t by {}
                assert(self.after_starts(s, t));
                assert(usage(placed, t) == self.load(s, t));
                assert(!self.runs(s, c, t));
            } else {
                assert(!self.after_starts(after, t));
            }
        }
    }

    /// Steps that complete a state keep the record up to a terminal state.
    proof fn lemma_records_path(self, s: StateView, placed: Seq<ScheduledJobView>, path: Seq<Step>)
        requires
            self.wf(),
            self.state_wf(s),
            self.records(s, placed),
            self.completes(s, path),
        ensures
            self.state_wf(self.end(s, path)),
            self.terminal(self.end(s, path)),
            self.records(self.end(s, path), placed + self.placements(s, path)),
        decreases path.len(),
    {
        if path.len() == 0 {
            assert(placed + self.placements(s, path) =~= placed);
        } else {
            let after = self.advance(s, path[0]);
            let next = placed.push(self.placement(s, path[0]));
            self.lemma_advance(s, path[0]);
            self.lemma_records_step(s, placed, path[0]);
            self.lemma_records_path(after, next, path.drop_first());
            assert(next + self.placements(after, path.drop_first()) =~= placed + self.placements(
                s,
                path,
            ));
        }
    }
}


/// What the search is given for an instance: the instance and its chains.
pub open spec fn dp_problem(instance: InstanceView) -> DpInput {
    DpInput { instance, chains: crate::chains::decomposition(instance) }
}

impl DpInput {
    /// The path that the search finds completes the state.
    pub proof fn lemma_first_completes(self, s: StateView, path: Seq<Step>)
        requires
            self.is_first(s, path),
        ensures
            self.completes(s, path),
        decreases path.len(),
    {
        if path.len() > 0 {
            self.lemma_first_completes(self.advance(s, path[0]), path.drop_first());
        }
    }

    /// The search finds one path only.
    pub proof fn lemma_first_unique(self, s: StateView, left: Seq<Step>, right: Seq<Step>)
        requires
            self.is_first(s, left),
            self.is_first(s, right),
        ensures
            left == right,
        decreases left.len(),
    {
        if left.len() == 0 || right.len() == 0 {
            assert(left =~= right);
        } else {
            let x = left[0];
            let y = right[0];
            self.lemma_first_completes(self.advance(s, x), left.drop_first());
            self.lemma_first_completes(self.advance(s, y), right.drop_first());
            if earlier(x, y) {
                assert(self.barren(s, x));
            } else if earlier(y, x) {
                assert(self.barren(s, y));
            } else {
                assert(x == y);
                self.lemma_first_unique(self.advance(s, x), left.drop_first(), right.drop_first());
                assert(left =~= seq![x] + left.drop_first());
                assert(right =~= seq![y] + right.drop_first());
            }
        }
    }

    /// The jobs committed on a path that completes the initial state form a
    /// schedule that holds every job once, never holds more processors than
    /// there are, ends within the time bound, and keeps every constraint.
    pub proof fn lemma_completed_schedule(self, path: Seq<Step>)
        requires
            self.wf(),
            self.completes(self.initial(), path),
        ensures
            ({
                let schedule = ScheduleView {
                    processors: self.instance.processors,
                    jobs: self.placements(self.initial(), path),
                };
                &&& schedule.covers(self.instance)
                &&& schedule.within_capacity()
                &&& schedule.keeps_order(self.instance)
                &&& schedule.done_by(self.instance.max_time)
            }),
    {
        let start = self.initial();
        let none = Seq::<ScheduledJobView>::empty();
        let width = self.chains.len() as int;
        let n = self.instance.jobs.len() as int;
        lemma_committed_zero(start.ideal, width);
        assert forall|t: int| self.after_starts(start, t) implies #[trigger] usage(none, t) == self.load(
            start,
            t,
        ) by {
            self.lemma_load_idle(start, t, width);
        }
        assert(self.records(start, none));
        self.lemma_records_path(start, none, path);
        let end = self.end(start, path);
        let jobs = self.placements(start, path);
        assert(none + jobs =~= jobs);
        let schedule = ScheduleView { processors: self.instance.processors, jobs };
        self.lemma_length();
        lemma_committed_bounds(self.chains, end.ideal, width);
        lemma_decomposition_partitions(self.instance, self.chains);
        assert forall|k: int| 0 <= k < jobs.len() implies {
            &&& 0 <= (#[trigger] jobs[k]).job.index < n
            &&& jobs[k].job == self.instance.jobs[jobs[k].job.index]
            &&& 1 <= jobs[k].allotment <= self.instance.processors
            &&& jobs[k].start >= 0
            &&& jobs[k].completion() <= self.instance.max_time
        } by {
            assert(self.recorded(end, jobs, k));
        }
        assert forall|j: int| 0 <= j < n implies #[trigger] schedule.holds(j) by {
            assert(located(self.chains, j));
            let (c, x) = choose|c: int, x: int|
                0 <= c < self.chains.len() && 0 <= x < self.chains[c].len() && (
                #[trigger] self.chains[c][x]) == j;
            assert(end.ideal[c] == self.chains[c].len());
            assert(self.placed_in(jobs, self.chains[c][x]));
            let k = choose|k: int| 0 <= k < jobs.len() && (#[trigger] jobs[k]).job.index == j;
            assert(schedule.jobs[k].job.index == j);
        }
        let rank = choose|rank: Seq<int>| #[trigger] ranks(rank, n, self.instance.constraints);
        assert forall|c: int, k: int, l: int|
            0 <= c < self.instance.constraints.len() && 0 <= k < jobs.len() && 0 <= l < jobs.len() && (
            #[trigger] jobs[k]).job.index == (#[trigger] self.instance.constraints[c]).0 && (
            #[trigger] jobs[l]).job.index == self.instance.constraints[c].1 implies jobs[k].completion()
            <= jobs[l].start by {
            crate::order::lemma_pair_precedes(rank, n, self.instance.constraints, c);
            assert(self.instance.precedes(jobs[k].job.index, jobs[l].job.index));
            assert(rank[jobs[k].job.index] < rank[jobs[l].job.index]);
        }
    }
}

impl DpInput {
    /// The schedule holds the jobs of the path that the search finds first
    /// under the time bound `span`, which is its makespan, and it is a
    /// schedule for the instance.
    pub open spec fn found(self, span: int, schedule: ScheduleView) -> bool {
        &&& span == schedule.makespan()
        &&& schedule.processors == self.instance.processors
        &&& exists|path: Seq<Step>|
            #[trigger] self.within(span).is_first(self.initial(), path) && schedule.jobs
                == self.placements(self.initial(), path)
        &&& schedule.covers(self.instance)
        &&& schedule.within_capacity()
        &&& schedule.keeps_order(self.instance)
        &&& schedule.done_by(span)
    }

    /// What the search finds under a time bound is found under the bound
    /// that is its makespan.
    proof fn lemma_found(self, bound: int, schedule: ScheduleView)
        requires
            self.wf(),
            bound <= self.instance.max_time,
            schedule.processors == self.instance.processors,
            exists|path: Seq<Step>|
                #[trigger] self.within(bound).is_first(self.initial(), path) && schedule.jobs
                    == self.within(bound).placements(self.initial(), path),
        ensures
            self.found(schedule.makespan(), schedule),
            0 <= schedule.makespan() <= bound,
            forall|k: int|
                0 <= k < schedule.jobs.len() ==> {
                    &&& 1 <= (#[trigger] schedule.jobs[k]).allotment <= schedule.jobs[k].job.times.len()
                    &&& 0 <= schedule.jobs[k].completion() <= bound
                },
    {
        let start = self.initial();
        let lower = self.within(bound);
        let path = choose|path: Seq<Step>|
            #[trigger] lower.is_first(start, path) && schedule.jobs == lower.placements(start, path);
        let span = schedule.makespan();
        self.lemma_within_wf(bound);
        lower.lemma_first_completes(start, path);
        lower.lemma_completed_schedule(path);
        self.lemma_within_completes(bound, start, path);
        assert forall|k: int| 0 <= k < schedule.jobs.len() implies {
            &&& 1 <= (#[trigger] schedule.jobs[k]).allotment <= schedule.jobs[k].job.times.len()
            &&& 0 <= schedule.jobs[k].completion() <= bound
            &&& schedule.jobs[k].completion() <= span
        } by {
            crate::path::lemma_makespan_covers(schedule, k);
            let j = schedule.jobs[k].job.index;
            assert(self.instance.time(j, schedule.jobs[k].allotment) >= 1);
        }
        assert(schedule.jobs.len() >= 1);
        crate::path::lemma_makespan_covers(schedule, 0);
        crate::path::lemma_makespan_bounded(schedule, bound);
        self.lemma_ends_by(start, path, span);
        lower.lemma_within_first(span, start, path);
        assert(lower.within(span) == self.within(span));
        assert(schedule.covers(self.instance));
        assert(schedule.keeps_order(self.instance));
    }

    /// The search under another time bound is a search as well.
    pub proof fn lemma_within_wf(self, bound: int)
        requires
            self.wf(),
        ensures
            self.within(bound).wf(),
            self.within(bound).initial() == self.initial(),
    {
        let lower = self.within(bound).instance;
        assert forall|j: int, a: int|
            0 <= j < lower.jobs.len() && 1 <= a <= lower.processors implies #[trigger] lower.time(j, a)
            >= 1 by {
            assert(self.instance.time(j, a) >= 1);
        }
    }

    /// Under a negative time bound nothing commits every job.
    proof fn lemma_none_before_zero(self)
        requires
            self.wf(),
        ensures
            self.within(-1).dead(self.initial()),
    {
        let lower = self.within(-1);
        let start = self.initial();
        lemma_committed_zero(start.ideal, self.chains.len() as int);
        assert forall|path: Seq<Step>| !#[trigger] lower.completes(start, path) by {}
    }
}

pub proof fn lemma_committed_zero(ideal: Seq<int>, upto: int)
    requires
        0 <= upto <= ideal.len(),
        forall|c: int| 0 <= c < ideal.len() ==> #[trigger] ideal[c] == 0,
    ensures
        committed_upto(ideal, upto) == 0,
    decreases upto,
{
    if upto > 0 {
        lemma_committed_zero(ideal, upto - 1);
    }
}

impl DpInput {
    /// The same search under another time bound.
    pub open spec fn within(self, bound: int) -> DpInput {
        DpInput {
            instance: InstanceView {
                processors: self.instance.processors,
                jobs: self.instance.jobs,
                constraints: self.instance.constraints,
                max_time: bound,
            },
            chains: self.chains,
        }
    }

    /// Every step is done by `bound`.
    pub open spec fn ends_by(path: Seq<Step>, bound: int) -> bool
        decreases path.len(),
    {
        path.len() == 0 || (path[0].completion <= bound && Self::ends_by(path.drop_first(), bound))
    }

    /// The schedule that the steps give from the initial state.
    pub open spec fn outcome(self, path: Seq<Step>) -> ScheduleView {
        ScheduleView {
            processors: self.instance.processors,
            jobs: self.placements(self.initial(), path),
        }
    }

    /// No steps that commit every job give a schedule that ends before
    /// `span`.
    pub open spec fn least(self, span: int) -> bool {
        forall|other: Seq<Step>| #[trigger]
            self.completes(self.initial(), other) ==> span <= self.outcome(other).makespan()
    }

    proof fn lemma_within_load(self, bound: int, s: StateView, t: int, upto: int)
        ensures
            self.within(bound).load_upto(s, t, upto) == self.load_upto(s, t, upto),
        decreases upto,
    {
        if upto > 0 {
            self.lemma_within_load(bound, s, t, upto - 1);
        }
    }

    /// Under a lower time bound the steps that can be taken are those that
    /// could be taken before and are done by the new bound.
    pub proof fn lemma_within_admits(self, bound: int, s: StateView, x: Step)
        requires
            bound <= self.instance.max_time,
        ensures
            self.within(bound).admits(s, x) == (self.admits(s, x) && x.completion <= bound),
    {
        let lower = self.within(bound);
        let after = self.advance(s, x);
        assert(lower.advance(s, x) == after);
        assert forall|t: int| #[trigger] lower.load(after, t) == self.load(after, t) by {
            self.lemma_within_load(bound, after, t, self.chains.len() as int);
        }
        assert(lower.leads(s, lower.job(s, x)) == self.leads(s, self.job(s, x))) by {
            if self.leads(s, self.job(s, x)) {
                let (c, k) = choose|c: int, k: int|
                    0 <= c < self.chains.len() && 0 <= k < s.ideal[c] && self.instance.precedes(
                        self.job(s, x),
                        #[trigger] self.chains[c][k],
                    );
                assert(lower.instance.precedes(lower.job(s, x), lower.chains[c][k]));
            }
            if lower.leads(s, lower.job(s, x)) {
                let (c, k) = choose|c: int, k: int|
                    0 <= c < lower.chains.len() && 0 <= k < s.ideal[c] && lower.instance.precedes(
                        lower.job(s, x),
                        #[trigger] lower.chains[c][k],
                    );
                assert(self.instance.precedes(self.job(s, x), self.chains[c][k]));
            }
        }
        if self.admits(s, x) && x.completion <= bound {
            assert forall|c: int| 0 <= c < lower.chains.len() && #[trigger] s.ideal[c] > 0 implies {
                &&& lower.instance.precedes(lower.front(s, c), lower.job(s, x)) ==> lower.start(s, x)
                    >= s.completion[c]
                &&& lower.start(s, x) >= lower.front_start(s, c)
            } by {}
            assert(lower.admits(s, x));
        }
        if lower.admits(s, x) {
            assert forall|c: int| 0 <= c < self.chains.len() && #[trigger] s.ideal[c] > 0 implies {
                &&& self.instance.precedes(self.front(s, c), self.job(s, x)) ==> self.start(s, x)
                    >= s.completion[c]
                &&& self.start(s, x) >= self.front_start(s, c)
            } by {}
            assert forall|t: int| #[trigger] self.load(after, t) <= self.instance.processors by {
                assert(lower.load(after, t) <= lower.instance.processors);
            }
            assert(self.admits(s, x));
        }
    }

    /// Under a lower time bound the steps that commit every job are those
    /// that did before and are done by the new bound, and they give the same
    /// jobs.
    pub proof fn lemma_within_completes(self, bound: int, s: StateView, path: Seq<Step>)
        requires
            bound <= self.instance.max_time,
        ensures
            self.within(bound).completes(s, path) == (self.completes(s, path) && Self::ends_by(
                path,
                bound,
            )),
            self.within(bound).placements(s, path) == self.placements(s, path),
        decreases path.len(),
    {
        if path.len() > 0 {
            self.lemma_within_admits(bound, s, path[0]);
            self.lemma_within_completes(bound, self.advance(s, path[0]), path.drop_first());
        }
    }

    /// Under a lower time bound the path that the search finds is the one
    /// that it found before, if that one is done by the new bound.
    pub proof fn lemma_within_first(self, bound: int, s: StateView, path: Seq<Step>)
        requires
            bound <= self.instance.max_time,
            self.is_first(s, path),
            Self::ends_by(path, bound),
        ensures
            self.within(bound).is_first(s, path),
        decreases path.len(),
    {
        if path.len() > 0 {
            let lower = self.within(bound);
            self.lemma_within_admits(bound, s, path[0]);
            self.lemma_within_first(bound, self.advance(s, path[0]), path.drop_first());
            assert forall|x: Step| earlier(x, path[0]) implies #[trigger] lower.barren(s, x) by {
                assert(self.barren(s, x));
                self.lemma_within_admits(bound, s, x);
                if self.admits(s, x) {
                    let after = self.advance(s, x);
                    assert forall|rest: Seq<Step>| !#[trigger] lower.completes(after, rest) by {
                        self.lemma_within_completes(bound, after, rest);
                    }
                }
            }
        }
    }

    /// Steps whose jobs are all done by `bound` are done by it.
    pub proof fn lemma_ends_by(self, s: StateView, path: Seq<Step>, bound: int)
        requires
            forall|k: int|
                0 <= k < self.placements(s, path).len() ==> (#[trigger] self.placements(
                    s,
                    path,
                )[k]).completion() <= bound,
        ensures
            self.placements(s, path).len() == path.len(),
            Self::ends_by(path, bound),
        decreases path.len(),
    {
        if path.len() > 0 {
            let all = self.placements(s, path);
            let after = self.advance(s, path[0]);
            let rest = self.placements(after, path.drop_first());
            assert(all =~= seq![self.placement(s, path[0])] + rest);
            assert forall|k: int| 0 <= k < rest.len() implies (#[trigger] rest[k]).completion()
                <= bound by {
                assert(rest[k] == all[k + 1]);
            }
            self.lemma_ends_by(after, path.drop_first(), bound);
            assert(all[0].completion() == path[0].completion);
        }
    }

    /// If nothing commits every job by the instant before `span`, then no
    /// schedule that the search can give ends before `span`.
    pub proof fn lemma_least(self, span: int)
        requires
            span - 1 <= self.instance.max_time,
            self.within(span - 1).dead(self.initial()),
        ensures
            self.least(span),
    {
        assert forall|other: Seq<Step>| #[trigger]
            self.completes(self.initial(), other) implies span <= self.outcome(other).makespan() by {
            let outcome = self.outcome(other);
            if outcome.makespan() < span {
                assert forall|k: int| 0 <= k < outcome.jobs.len() implies (
                #[trigger] outcome.jobs[k]).completion() <= span - 1 by {
                    crate::path::lemma_makespan_covers(outcome, k);
                }
                self.lemma_ends_by(self.initial(), other, span - 1);
                self.lemma_within_completes(span - 1, self.initial(), other);
                assert(self.within(span - 1).initial() == self.initial());
                assert(self.within(span - 1).completes(self.initial(), other));
            }
        }
    }
}

/// The latest completion time of the schedule's jobs.
fn latest_done(schedule: &Schedule) -> (latest: i32)
    requires
        forall|k: int|
            0 <= k < schedule@.jobs.len() ==> {
                &&& 1 <= (#[trigger] schedule@.jobs[k]).allotment <= schedule@.jobs[k].job.times.len()
                &&& 0 <= schedule@.jobs[k].completion() <= i32::MAX
            },
    ensures
        latest == schedule@.makespan(),
{
    let ghost jobs = schedule@.jobs;
    let ghost m = schedule@.processors;
    let mut latest: i32 = 0;
    let mut k: usize = 0;
    while k < schedule.jobs.len()
        invariant
            k <= schedule.jobs.len(),
            jobs == schedule@.jobs,
            m == schedule@.processors,
            forall|k: int|
                0 <= k < jobs.len() ==> {
                    &&& 1 <= (#[trigger] jobs[k]).allotment <= jobs[k].job.times.len()
                    &&& 0 <= jobs[k].completion() <= i32::MAX
                },
            latest == (ScheduleView { processors: m, jobs: jobs.subrange(0, k as int) }).makespan(),
        decreases schedule.jobs.len() - k,
    {
        assert(schedule.jobs[k as int]@ == jobs[k as int]);
        let done = schedule.jobs[k].completion_time();
        proof {
            assert(jobs.subrange(0, k + 1).drop_last() =~= jobs.subrange(0, k as int));
            assert(jobs.subrange(0, k + 1).last() == jobs[k as int]);
        }
        if done >= latest {
            latest = done;
        }
        k += 1;
    }
    assert(jobs.subrange(0, k as int) =~= jobs);
    latest
}

/// What the exhaustive search gives for the instance: the jobs of the path
/// that the search finds first under the least time bound, up to the
/// instance's, under which it finds one.
pub open spec fn searched(instance: InstanceView, schedule: ScheduleView) -> bool {
    let input = dp_problem(instance);
    let span = schedule.makespan();
    &&& schedule.processors == instance.processors
    &&& span <= instance.max_time
    &&& exists|path: Seq<Step>|
        #[trigger] input.within(span).is_first(input.initial(), path) && schedule.jobs
            == input.placements(input.initial(), path)
    &&& input.least(span)
}

/// The exhaustive search gives one schedule only.
pub proof fn lemma_searched_unique(instance: InstanceView, left: ScheduleView, right: ScheduleView)
    requires
        searched(instance, left),
        searched(instance, right),
    ensures
        left == right,
{
    let input = dp_problem(instance);
    let start = input.initial();
    let l = left.makespan();
    let r = right.makespan();
    let p = choose|path: Seq<Step>|
        #[trigger] input.within(l).is_first(start, path) && left.jobs == input.placements(start, path);
    let q = choose|path: Seq<Step>|
        #[trigger] input.within(r).is_first(start, path) && right.jobs == input.placements(start, path);
    input.within(l).lemma_first_completes(start, p);
    input.within(r).lemma_first_completes(start, q);
    input.lemma_within_completes(l, start, p);
    input.lemma_within_completes(r, start, q);
    assert(input.outcome(p) == left);
    assert(input.outcome(q) == right);
    input.within(l).lemma_first_unique(start, p, q);
}

/// Schedules the instance by exhaustive search over its chains. The search
/// commits the jobs by chain, then by allotment from 1 on, then by
/// completion time from 0 on up to a time bound, first the instance's.
/// While it finds a schedule, it is run again under the bound just below
/// that schedule's makespan: the last schedule found is returned. It is a
/// feasible schedule of least makespan; there is none exactly if no
/// feasible schedule ends within the instance's time bound.
pub fn schedule(instance: Instance) -> (result: Result<Schedule, SchedulingError>)
    ensures
        result is Ok == (instance@.wf() && schedulable(instance@, instance@.max_time)),
        match result {
            Ok(schedule) => {
                &&& searched(instance@, schedule@)
                &&& schedule@.feasible(instance@)
                &&& schedule@.done_by(instance@.max_time)
                &&& shortest(instance@, instance@.max_time, schedule@.makespan())
            },
            Err(error) => {
                &&& error == SchedulingError::InvalidInstance || error == SchedulingError::NoSolution
                &&& error == SchedulingError::InvalidInstance <==> !instance@.wf()
            },
        },
{
    if instance.validate().is_err() {
        return Err(SchedulingError::InvalidInstance);
    }
    let chains = preprocess(&instance);
    let ghost input = dp_problem(instance@);
    let ghost start = input.initial();
    assert(input == dp_input(instance, chains@));
    assert(input.within(instance@.max_time) == input);
    let initial_state = State::empty(chains.len());
    assert(initial_state@ == start);
    let mut known: Vec<State> = Vec::new();
    let found = search(&instance, &chains, &initial_state, &mut known);
    let mut best = match found {
        Some(jobs) => Schedule { processor_count: instance.processor_count, jobs },
        None => {
            proof {
                if schedulable(instance@, instance@.max_time) {
                    let other = choose|other: ScheduleView| #[trigger]
                        other.feasible(instance@) && other.done_by(instance@.max_time);
                    let path = input.lemma_complete(other);
                }
            }
            return Err(SchedulingError::NoSolution);
        },
    };
    proof {
        input.lemma_found(instance@.max_time, best@);
    }
    let mut span = latest_done(&best);
    let mut trial = instance;
    let mut least = false;
    while !least
        invariant
            input == dp_problem(instance@),
            start == input.initial(),
            input.wf(),
            chains_of(chains@) == input.chains,
            initial_state@ == start,
            trial@.processors == instance@.processors,
            trial@.jobs == instance@.jobs,
            trial@.constraints == instance@.constraints,
            input.found(span as int, best@),
            0 <= span <= instance@.max_time,
            least ==> input.within(span - 1).dead(start),
        decreases
            (if least {
                0
            } else {
                span + 1
            }),
    {
        if span == 0 {
            proof {
                input.lemma_none_before_zero();
            }
            least = true;
        } else {
            trial.max_time = span - 1;
            assert(dp_input(trial, chains@) == input.within(span - 1));
            proof {
                input.lemma_within_wf(span - 1);
            }
            let mut known: Vec<State> = Vec::new();
            match search(&trial, &chains, &initial_state, &mut known) {
                Some(jobs) => {
                    best = Schedule { processor_count: trial.processor_count, jobs };
                    proof {
                        input.lemma_found(span - 1, best@);
                    }
                    span = latest_done(&best);
                },
                None => {
                    least = true;
                },
            }
        }
    }
    proof {
        input.lemma_least(span as int);
        assert forall|other: ScheduleView| #[trigger]
            other.feasible(instance@) && other.done_by(instance@.max_time) implies span
            <= other.makespan() by {
            let path = input.lemma_complete(other);
        }
        assert(best@.feasible(instance@) && best@.done_by(instance@.max_time));
    }
    Ok(best)
}

} // verus!
