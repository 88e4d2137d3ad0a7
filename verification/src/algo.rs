//! The data model: instances, jobs, precedence constraints and schedules,
//! each with its mathematical view.

use vstd::prelude::*;

verus! {

/// A precedence constraint: the job at the first position must complete no
/// later than the job at the second position starts.
#[derive(Debug)]
pub struct Constraint(pub usize, pub usize);

impl View for Constraint {
    type V = (int, int);

    open spec fn view(&self) -> (int, int) {
        (self.0 as int, self.1 as int)
    }
}

/// The pairs that a list of constraints stands for.
pub open spec fn pairs_of(constraints: Seq<Constraint>) -> Seq<(int, int)> {
    Seq::new(constraints.len(), |k: int| constraints[k]@)
}

/// What the first pair that relates `a` and `b` says of them: `Some(true)` if
/// it is `(a, b)`, `Some(false)` if it is `(b, a)`, `None` if no pair relates
/// them.
pub open spec fn first_relation(pairs: Seq<(int, int)>, a: int, b: int) -> Option<bool>
    decreases pairs.len(),
{
    if pairs.len() == 0 {
        None
    } else if pairs[0] == (a, b) {
        Some(true)
    } else if pairs[0] == (b, a) {
        Some(false)
    } else {
        first_relation(pairs.drop_first(), a, b)
    }
}

/// `a` directly precedes `b`.
pub open spec fn precedes(pairs: Seq<(int, int)>, a: int, b: int) -> bool {
    first_relation(pairs, a, b) == Some(true)
}

/// `a` and `b` are directly related, one way or the other.
pub open spec fn comparable(pairs: Seq<(int, int)>, a: int, b: int) -> bool {
    first_relation(pairs, a, b).is_some()
}

/// Among the first `upto` allotments, the first of those whose processing
/// time is closest to `target`.
pub open spec fn closest_upto(job: JobView, target: int, upto: int) -> int
    decreases upto,
{
    if upto <= 1 {
        1
    } else {
        let best = closest_upto(job, target, upto - 1);
        if job.distance(upto, target) < job.distance(best, target) {
            upto
        } else {
            best
        }
    }
}

/// The mathematical content of a job.
pub struct JobView {
    pub index: int,
    /// `times[a - 1]` is the processing time on `a` processors.
    pub times: Seq<int>,
}

impl JobView {
    /// The processing time on `allotment` processors.
    pub open spec fn time(self, allotment: int) -> int {
        self.times[allotment - 1]
    }

    /// The distance between `target` and the processing time on `allotment`
    /// processors.
    pub open spec fn distance(self, allotment: int, target: int) -> int {
        if self.time(allotment) >= target {
            self.time(allotment) - target
        } else {
            target - self.time(allotment)
        }
    }
}

/// A job in a problem instance
#[derive(Debug)]
pub struct Job {
    /// Index of the job
    pub index: usize,
    /// Processing times of the job based on how many machines is has available.
    /// Element 0 is skipped, so the vector starts with the processing time
    /// needed if the job is scheduled on one machine.
    pub processing_times: Vec<i32>,
}

impl View for Job {
    type V = JobView;

    open spec fn view(&self) -> JobView {
        JobView {
            index: self.index as int,
            times: Seq::new(self.processing_times@.len(), |a: int| self.processing_times@[a] as int),
        }
    }
}

impl Clone for Job {
    fn clone(&self) -> (copy: Job)
        ensures
            copy@ == self@,
    {
        let mut times: Vec<i32> = Vec::new();
        let mut a: usize = 0;
        while a < self.processing_times.len()
            invariant
                a <= self.processing_times.len(),
                times@ == self.processing_times@.subrange(0, a as int),
            decreases self.processing_times.len() - a,
        {
            times.push(self.processing_times[a]);
            a += 1;
        }
        assert(times@ == self.processing_times@);
        let copy = Job { index: self.index, processing_times: times };
        assert(copy@.times =~= self@.times);
        copy
    }
}

/// The absolute difference of two times.
fn gap(left: i32, right: i32) -> (distance: u32)
    ensures
        distance == if left >= right {
            left - right
        } else {
            right - left
        },
{
    if left >= right {
        (left as i64 - right as i64) as u32
    } else {
        (right as i64 - left as i64) as u32
    }
}

impl Job {
    /// Computes the processing time of the job based on the given allotment
    pub fn processing_time(&self, allotment: usize) -> (time: i32)
        requires
            1 <= allotment <= self@.times.len(),
        ensures
            time == self@.time(allotment as int),
    {
        self.processing_times[allotment - 1]
    }

    /// The allotment whose processing time is closest to `processing_time`;
    /// among equally close ones, the smallest.
    pub fn closest_allotment(&self, processing_time: i32) -> (allotment: usize)
        requires
            self@.times.len() >= 1,
        ensures
            allotment == closest_upto(self@, processing_time as int, self@.times.len() as int),
            1 <= allotment <= self@.times.len(),
            forall|a: int|
                1 <= a <= self@.times.len() ==> self@.distance(allotment as int, processing_time as int)
                    <= #[trigger] self@.distance(a, processing_time as int),
            forall|a: int|
                1 <= a < allotment ==> self@.distance(allotment as int, processing_time as int)
                    < #[trigger] self@.distance(a, processing_time as int),
    {
        let mut best: usize = 1;
        let mut best_distance: u32 = gap(processing_time, self.processing_times[0]);
        let mut a: usize = 1;
        while a < self.processing_times.len()
            invariant
                1 <= a <= self.processing_times.len(),
                1 <= best <= a,
                best == closest_upto(self@, processing_time as int, a as int),
                best_distance == self@.distance(best as int, processing_time as int),
                forall|b: int|
                    1 <= b <= a ==> best_distance <= #[trigger] self@.distance(b, processing_time as int),
                forall|b: int|
                    1 <= b < best ==> best_distance < #[trigger] self@.distance(b, processing_time as int),
            decreases self.processing_times.len() - a,
        {
            let distance = gap(processing_time, self.processing_times[a]);
            if distance < best_distance {
                best = a + 1;
                best_distance = distance;
            }
            a += 1;
        }
        best
    }
}


impl PartialEq for Job {
    fn eq(&self, other: &Self) -> (equal: bool) {
        self.index == other.index
    }
}

impl vstd::std_specs::cmp::PartialEqSpecImpl for Job {
    open spec fn obeys_eq_spec() -> bool {
        true
    }

    open spec fn eq_spec(&self, other: &Self) -> bool {
        self.index == other.index
    }
}

/// Implements a partial relation based on a list of constraints
pub trait PartialRelation: Sized {
    /// What the list of pairs says of `self` and `other`: `Some(true)` if
    /// `self` is less than `other`, `Some(false)` if `other` is less than
    /// `self`, `None` if the two are incomparable.
    spec fn relate(&self, pairs: Seq<(int, int)>, other: &Self) -> Option<bool>;

    /// Returns `true` if self is comparable to other, and `false` of the two
    /// values are incomparable
    fn is_comparable(&self, relation: &[Constraint], other: &Self) -> (yes: bool)
        ensures
            yes == self.relate(pairs_of(relation@), other).is_some(),
    {
        self.compare(relation, other).is_some()
    }

    /// Returns `true` if self is in relation to other, and `false` otherwise
    fn less_than(&self, relation: &[Constraint], other: &Self) -> (yes: bool)
        ensures
            yes == (self.relate(pairs_of(relation@), other) == Some(true)),
    {
        match self.compare(relation, other) {
            Some(less) => less,
            None => false,
        }
    }

    /// Returns `true` if other is in relation to self, and `false` otherwise
    fn greater_than(&self, relation: &[Constraint], other: &Self) -> (yes: bool)
        ensures
            yes == (self.relate(pairs_of(relation@), other) == Some(false)),
    {
        match self.compare(relation, other) {
            Some(less) => !less,
            None => false,
        }
    }

    /// Returns `None` if self and other are incomparable. Returns `Some(true)`
    /// if self is less than other and returns `Some(false)` if other is less
    /// than self.
    fn compare(&self, relation: &[Constraint], other: &Self) -> (answer: Option<bool>)
        ensures
            answer == self.relate(pairs_of(relation@), other),
    ;
}

impl PartialRelation for Job {
    open spec fn relate(&self, pairs: Seq<(int, int)>, other: &Self) -> Option<bool> {
        first_relation(pairs, self.index as int, other.index as int)
    }

    fn compare(&self, relation: &[Constraint], other: &Self) -> (answer: Option<bool>) {
        let ghost pairs = pairs_of(relation@);
        let ghost a = self.index as int;
        let ghost b = other.index as int;
        let mut k: usize = 0;
        assert(pairs.skip(0) =~= pairs);
        while k < relation.len()
            invariant
                k <= relation.len(),
                pairs == pairs_of(relation@),
                a == self.index,
                b == other.index,
                first_relation(pairs, a, b) == first_relation(pairs.skip(k as int), a, b),
            decreases relation.len() - k,
        {
            let ghost rest = pairs.skip(k as int);
            assert(rest[0] == relation@[k as int]@);
            assert(rest.drop_first() =~= pairs.skip(k + 1));
            if self.index == relation[k].0 && other.index == relation[k].1 {
                return Some(true);
            } else if other.index == relation[k].0 && self.index == relation[k].1 {
                return Some(false);
            }
            k += 1;
        }
        None
    }
}

/// The mathematical content of an instance.
pub struct InstanceView {
    pub processors: int,
    pub jobs: Seq<JobView>,
    pub constraints: Seq<(int, int)>,
    pub max_time: int,
}

/// `rank` gives each of `count` jobs a rank below `count` so that every pair
/// joins two of the jobs and goes from a lower rank to a higher one.
pub open spec fn ranks(rank: Seq<int>, count: int, pairs: Seq<(int, int)>) -> bool {
    &&& rank.len() == count
    &&& forall|j: int| 0 <= j < count ==> 0 <= #[trigger] rank[j] < count
    &&& forall|k: int|
        0 <= k < pairs.len() ==> {
            &&& 0 <= (#[trigger] pairs[k]).0 < count
            &&& 0 <= pairs[k].1 < count
            &&& rank[pairs[k].0] < rank[pairs[k].1]
        }
}

/// The pairs name jobs below `count` only and hold no cycle.
pub open spec fn acyclic(count: int, pairs: Seq<(int, int)>) -> bool {
    exists|rank: Seq<int>| #[trigger] ranks(rank, count, pairs)
}

impl InstanceView {
    /// The processing time of job `job` on `allotment` processors.
    pub open spec fn time(self, job: int, allotment: int) -> int {
        self.jobs[job].time(allotment)
    }

    /// Job `before` directly precedes job `after`.
    pub open spec fn precedes(self, before: int, after: int) -> bool {
        precedes(self.constraints, before, after)
    }

    /// At least one processor and one job; every job sits at its own index
    /// and has one positive processing time per allotment; the constraints
    /// join jobs of the instance and hold no cycle.
    pub open spec fn wf(self) -> bool {
        &&& self.processors >= 1
        &&& self.jobs.len() >= 1
        &&& forall|j: int|
            0 <= j < self.jobs.len() ==> {
                &&& (#[trigger] self.jobs[j]).index == j
                &&& self.jobs[j].times.len() == self.processors
            }
        &&& forall|j: int, a: int|
            0 <= j < self.jobs.len() && 1 <= a <= self.processors ==> #[trigger] self.time(j, a)
                >= 1
        &&& acyclic(self.jobs.len() as int, self.constraints)
    }
}

/// The single-processor times of the jobs before `upto`, added up.
pub open spec fn single_upto(instance: InstanceView, upto: int) -> int
    decreases upto,
{
    if upto <= 0 {
        0
    } else {
        single_upto(instance, upto - 1) + instance.time(upto - 1, 1)
    }
}

/// A problem instance
#[derive(Debug)]
pub struct Instance {
    /// The number of processors available
    pub processor_count: usize,
    /// A list of jobs
    pub jobs: Vec<Job>,
    /// A partial ordering on the jobs
    pub constraints: Vec<Constraint>,
    /// The maximum number of seconds in the universe
    pub max_time: i32,
}

impl View for Instance {
    type V = InstanceView;

    open spec fn view(&self) -> InstanceView {
        InstanceView {
            processors: self.processor_count as int,
            jobs: Seq::new(self.jobs@.len(), |j: int| self.jobs@[j]@),
            constraints: pairs_of(self.constraints@),
            max_time: self.max_time as int,
        }
    }
}

impl Instance {
    /// The positions of the jobs other than `job` that directly precede it
    /// (`lower`) or directly follow it (`!lower`).
    pub open spec fn is_neighbour(self, position: int, job: Job, lower: bool) -> bool {
        &&& 0 <= position < self@.jobs.len()
        &&& self@.jobs[position].index != job@.index
        &&& first_relation(self@.constraints, self@.jobs[position].index, job@.index) == Some(
            lower,
        )
    }

    /// `found` lists, by rising position, every neighbour of `job` on the
    /// given side, each with its job.
    pub open spec fn lists_neighbours(
        self,
        found: Seq<(usize, &Job)>,
        job: Job,
        lower: bool,
    ) -> bool {
        &&& forall|k: int|
            0 <= k < found.len() ==> {
                &&& self.is_neighbour((#[trigger] found[k]).0 as int, job, lower)
                &&& *found[k].1 == self.jobs@[found[k].0 as int]
            }
        &&& forall|k: int, l: int| 0 <= k < l < found.len() ==> found[k].0 < found[l].0
        &&& forall|position: int|
            self.is_neighbour(position, job, lower) ==> exists|k: int|
                0 <= k < found.len() && (#[trigger] found[k]).0 == position
    }

    fn neighbours<'a>(&'a self, job: &Job, lower: bool) -> (found: Vec<(usize, &'a Job)>)
        ensures
            self.lists_neighbours(found@, *job, lower),
    {
        let mut found: Vec<(usize, &'a Job)> = Vec::new();
        let mut position: usize = 0;
        while position < self.jobs.len()
            invariant
                position <= self.jobs.len(),
                forall|k: int|
                    0 <= k < found.len() ==> {
                        &&& self.is_neighbour((#[trigger] found[k]).0 as int, *job, lower)
                        &&& *found[k].1 == self.jobs@[found[k].0 as int]
                        &&& found[k].0 < position
                    },
                forall|k: int, l: int| 0 <= k < l < found.len() ==> found[k].0 < found[l].0,
                forall|p: int|
                    0 <= p < position && self.is_neighbour(p, *job, lower) ==> exists|k: int|
                        0 <= k < found.len() && (#[trigger] found[k]).0 == p,
            decreases self.jobs.len() - position,
        {
            let candidate = &self.jobs[position];
            let related = if lower {
                candidate.less_than(self.constraints.as_slice(), job)
            } else {
                candidate.greater_than(self.constraints.as_slice(), job)
            };
            if job.index != candidate.index && related {
                let ghost before = found@;
                found.push((position, candidate));
                assert(forall|k: int| 0 <= k < before.len() ==> found@[k] == before[k]);
                assert(found@[before.len() as int].0 == position);
                assert forall|p: int|
                    0 <= p < position + 1 && self.is_neighbour(p, *job, lower) implies exists|
                    k: int,
                |
                    0 <= k < found.len() && (#[trigger] found[k]).0 == p by {
                    if p < position {
                        let k = choose|k: int| 0 <= k < before.len() && (#[trigger] before[k]).0 == p;
                        assert(found@[k].0 == p);
                    } else {
                        assert(found@[before.len() as int].0 == p);
                    }
                }
            }
            position += 1;
        }
        found
    }

    /// The jobs that directly precede `job`, each with its position.
    pub fn predecessors<'a>(&'a self, job: &Job) -> (found: Vec<(usize, &'a Job)>)
        ensures
            self.lists_neighbours(found@, *job, true),
    {
        self.neighbours(job, true)
    }

    /// The jobs that directly follow `job`, each with its position.
    pub fn successors<'a>(&'a self, job: &Job) -> (found: Vec<(usize, &'a Job)>)
        ensures
            self.lists_neighbours(found@, *job, false),
    {
        self.neighbours(job, false)
    }
}

/// The mathematical content of a scheduled job.
pub struct ScheduledJobView {
    pub job: JobView,
    pub allotment: int,
    pub start: int,
}

impl ScheduledJobView {
    /// The processing time on the processors allotted.
    pub open spec fn duration(self) -> int {
        self.job.time(self.allotment)
    }

    /// The time at which the job is done.
    pub open spec fn completion(self) -> int {
        self.start + self.duration()
    }

    /// The job runs at instant `t`.
    pub open spec fn runs_at(self, t: int) -> bool {
        self.start <= t < self.completion()
    }
}

/// A job that was scheduled in a feasible schedule
#[derive(Debug)]
pub struct ScheduledJob {
    /// The input job
    pub job: Job,
    /// The job allotment
    pub allotment: usize,
    /// The integral starting time of the job
    pub start_time: i32,
}

impl View for ScheduledJob {
    type V = ScheduledJobView;

    open spec fn view(&self) -> ScheduledJobView {
        ScheduledJobView {
            job: self.job@,
            allotment: self.allotment as int,
            start: self.start_time as int,
        }
    }
}

impl ScheduledJob {
    /// Computes the processing time of the job based on the current allotment
    pub fn processing_time(&self) -> (time: i32)
        requires
            1 <= self@.allotment <= self@.job.times.len(),
        ensures
            time == self@.duration(),
    {
        self.job.processing_time(self.allotment)
    }

    /// Computes the completion time of the job based on the current allotment
    pub fn completion_time(&self) -> (time: i32)
        requires
            1 <= self@.allotment <= self@.job.times.len(),
            i32::MIN <= self@.completion() <= i32::MAX,
        ensures
            time == self@.completion(),
    {
        self.start_time + self.processing_time()
    }
}

/// The mathematical content of a schedule.
pub struct ScheduleView {
    pub processors: int,
    pub jobs: Seq<ScheduledJobView>,
}

/// The processors that the jobs of `jobs` hold at instant `t`.
pub open spec fn usage(jobs: Seq<ScheduledJobView>, t: int) -> int
    decreases jobs.len(),
{
    if jobs.len() == 0 {
        0
    } else {
        usage(jobs.drop_last(), t) + if jobs.last().runs_at(t) {
            jobs.last().allotment
        } else {
            0
        }
    }
}

impl ScheduleView {
    /// No job is done later than `bound`.
    pub open spec fn done_by(self, bound: int) -> bool {
        forall|k: int| 0 <= k < self.jobs.len() ==> (#[trigger] self.jobs[k]).completion() <= bound
    }

    /// The latest completion time, 0 for no job.
    pub open spec fn makespan(self) -> int
        decreases self.jobs.len(),
    {
        if self.jobs.len() == 0 {
            0
        } else {
            let rest = ScheduleView { processors: self.processors, jobs: self.jobs.drop_last() };
            if self.jobs.last().completion() >= rest.makespan() {
                self.jobs.last().completion()
            } else {
                rest.makespan()
            }
        }
    }

    /// The job with index `job` stands in the schedule.
    pub open spec fn holds(self, job: int) -> bool {
        exists|k: int| 0 <= k < self.jobs.len() && (#[trigger] self.jobs[k]).job.index == job
    }

    /// Every job of the instance stands in the schedule exactly once, as the
    /// instance has it, on 1 to `processors` processors and from an instant
    /// that is not negative.
    pub open spec fn covers(self, instance: InstanceView) -> bool {
        &&& self.processors == instance.processors
        &&& self.jobs.len() == instance.jobs.len()
        &&& forall|k: int|
            0 <= k < self.jobs.len() ==> {
                &&& 0 <= (#[trigger] self.jobs[k]).job.index < instance.jobs.len()
                &&& self.jobs[k].job == instance.jobs[self.jobs[k].job.index]
                &&& 1 <= self.jobs[k].allotment <= instance.processors
                &&& self.jobs[k].start >= 0
            }
        &&& forall|k: int, l: int|
            0 <= k < l < self.jobs.len() ==> (#[trigger] self.jobs[k]).job.index != (
            #[trigger] self.jobs[l]).job.index
        &&& forall|j: int| 0 <= j < instance.jobs.len() ==> #[trigger] self.holds(j)
    }

    /// For every constraint, the job named first is done when the job named
    /// second starts.
    pub open spec fn keeps_order(self, instance: InstanceView) -> bool {
        forall|c: int, k: int, l: int|
            0 <= c < instance.constraints.len() && 0 <= k < self.jobs.len() && 0 <= l
                < self.jobs.len() && (#[trigger] self.jobs[k]).job.index == (
            #[trigger] instance.constraints[c]).0 && (#[trigger] self.jobs[l]).job.index
                == instance.constraints[c].1 ==> self.jobs[k].completion() <= self.jobs[l].start
    }

    /// At no instant do the running jobs hold more processors than there are.
    pub open spec fn within_capacity(self) -> bool {
        forall|t: int| #[trigger] usage(self.jobs, t) <= self.processors
    }

    /// The schedule is feasible for the instance.
    pub open spec fn feasible(self, instance: InstanceView) -> bool {
        &&& self.covers(instance)
        &&& self.keeps_order(instance)
        &&& self.within_capacity()
    }
}

/// A feasible job schedule
#[derive(Debug)]
pub struct Schedule {
    /// The number of processors available
    pub processor_count: usize,
    /// A list of scheduled jobs
    pub jobs: Vec<ScheduledJob>,
}

impl View for Schedule {
    type V = ScheduleView;

    open spec fn view(&self) -> ScheduleView {
        ScheduleView {
            processors: self.processor_count as int,
            jobs: Seq::new(self.jobs@.len(), |k: int| self.jobs@[k]@),
        }
    }
}

/// The result is the expected one: the same error, or a schedule with the
/// expected content.
pub open spec fn yields(
    result: Result<Schedule, crate::error::SchedulingError>,
    expected: Result<ScheduleView, crate::error::SchedulingError>,
) -> bool {
    match (result, expected) {
        (Ok(schedule), Ok(content)) => schedule@ == content,
        (Err(error), Err(reason)) => error == reason,
        _ => false,
    }
}

} // verus!
