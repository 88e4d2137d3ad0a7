//! The critical-path length: the longest chain of jobs through the
//! precedence constraints, each job taken on one processor. The length is
//! computed by the critical-path scheduler of the crate `cpm_rs`.

use vstd::prelude::*;
use crate::algo::{Instance, InstanceView, first_relation, ranks, precedes};
use crate::error::SchedulingError;
use crate::order::{lemma_precedes_ranked, lemma_reverse};

verus! {

/// Tasks by number: each with its duration and the numbers of the tasks that
/// it depends on.
pub type Tasks = Map<int, (int, Set<int>)>;

/// No tasks.
pub open spec fn no_tasks() -> Tasks {
    Map::empty()
}

/// The numbers in a list.
pub open spec fn numbers(list: Seq<usize>) -> Set<int> {
    Set::new(|d: int| exists|i: int| 0 <= i < list.len() && #[trigger] list[i] == d)
}

/// A path: at least one task, each depending on the next.
pub open spec fn is_path(tasks: Tasks, path: Seq<int>) -> bool {
    &&& path.len() >= 1
    &&& forall|i: int| 0 <= i < path.len() ==> tasks.dom().contains(#[trigger] path[i])
    &&& forall|i: int|
        0 <= i < path.len() - 1 ==> tasks[#[trigger] path[i]].1.contains(path[i + 1])
}

/// The durations of the tasks of a path, added up.
pub open spec fn path_duration(tasks: Tasks, path: Seq<int>) -> int
    decreases path.len(),
{
    if path.len() == 0 {
        0
    } else {
        path_duration(tasks, path.drop_last()) + tasks[path.last()].0
    }
}

/// `length` is the duration of a longest path.
pub open spec fn longest(tasks: Tasks, length: int) -> bool {
    &&& exists|path: Seq<int>| is_path(tasks, path) && #[trigger] path_duration(tasks, path) == length
    &&& forall|path: Seq<int>| is_path(tasks, path) ==> #[trigger] path_duration(tasks, path) <= length
}

/// Each task has a higher rank than the tasks that it depends on.
pub open spec fn descends(tasks: Tasks, rank: Map<int, int>) -> bool {
    forall|id: int, dep: int|
        tasks.dom().contains(id) && tasks.dom().contains(dep) && #[trigger] tasks[id].1.contains(
            dep,
        ) ==> #[trigger] rank[dep] < rank[id]
}

/// The tasks can be run: no task depends on itself through others, no
/// duration is negative, and no path's duration exceeds `i32::MAX`.
pub open spec fn runnable(tasks: Tasks) -> bool {
    &&& exists|rank: Map<int, int>| #[trigger] descends(tasks, rank)
    &&& forall|id: int| tasks.dom().contains(id) ==> (#[trigger] tasks[id]).0 >= 0
    &&& forall|path: Seq<int>| is_path(tasks, path) ==> #[trigger] path_duration(tasks, path) <= i32::MAX
}

/// The floats of a path's tasks fit when they are added up: the number of
/// tasks of any path, times the duration of any path, does not exceed
/// `i32::MAX`. A task's float is at most the duration of a longest path.
pub open spec fn floats_fit(tasks: Tasks) -> bool {
    forall|path: Seq<int>, other: Seq<int>|
        #[trigger] is_path(tasks, path) && #[trigger] is_path(tasks, other) ==> path.len()
            * path_duration(tasks, other) <= i32::MAX
}

/// There is a task.
pub open spec fn has_task(tasks: Tasks) -> bool {
    exists|id: int| tasks.dom().contains(id)
}

/// A critical-path scheduler of `cpm_rs` (`cpm_rs::Scheduler<i32>`), whose
/// tasks are named by numbers written in decimal. The scheduler is held in
/// a struct of its own, hidden from the verifier, which does not take the
/// declaration of the generic type with its bounds.
#[verifier::external_body]
pub struct TaskGraph {
    scheduler: cpm_rs::Scheduler<i32>,
}

/// The tasks that the graph holds.
pub uninterp spec fn graph_tasks(graph: TaskGraph) -> Tasks;

/// The graph's start and finish times are calculated.
pub uninterp spec fn graph_scheduled(graph: TaskGraph) -> bool;

/// `Scheduler::new`: a scheduler that holds no task.
#[verifier::external_body]
fn new_graph() -> (graph: TaskGraph)
    ensures
        graph_tasks(graph) == no_tasks(),
{
    TaskGraph { scheduler: cpm_rs::Scheduler::new() }
}

/// `Scheduler::add_task` with a task made by `CustomTask::new`: the task is
/// added unless a task of its number is there already, and the call says
/// whether it was added.
#[verifier::external_body]
fn add_task(graph: &mut TaskGraph, id: usize, duration: i32, dependencies: &Vec<usize>) -> (added:
    bool)
    ensures
        added == !graph_tasks(*old(graph)).dom().contains(id as int),
        added ==> graph_tasks(*final(graph)) == graph_tasks(*old(graph)).insert(
            id as int,
            (duration as int, numbers(dependencies@)),
        ),
        !added ==> graph_tasks(*final(graph)) == graph_tasks(*old(graph)),
{
    let names = dependencies.iter().map(|d| d.to_string()).collect();
    graph.scheduler.add_task(cpm_rs::CustomTask::new(id.to_string(), duration, names)).is_ok()
}

/// `Scheduler::schedule`: calculates the start and finish times of the
/// tasks and keeps the tasks as they are. The call does not return for tasks
/// that depend on themselves through others, and its sums are not checked
/// for overflow: both are left out. On what is left the call succeeds: its
/// one error stands behind a test that never holds there, and the times
/// that it sets are sums and differences that are not negative.
#[verifier::external_body]
fn run_graph(graph: &mut TaskGraph) -> (done: bool)
    requires
        runnable(graph_tasks(*old(graph))),
    ensures
        done,
        graph_tasks(*final(graph)) == graph_tasks(*old(graph)),
        graph_scheduled(*final(graph)),
{
    graph.scheduler.schedule().is_ok()
}

/// `Scheduler::get_critical_paths`, each path by its duration
/// (`Path::get_dur`). The scheduler walks every path from a task on which
/// none depends down to a task that depends on none, keeps those whose
/// tasks have no float, and returns the ones of the largest duration among
/// them. A task on which none depends has no float, and a task has none if
/// it ends when a task without float that depends on it starts: so a
/// longest path has no float, and the durations returned are that of a
/// longest path. Where there is a task there is such a path, so that a
/// duration is returned. The floats of each path are added up in `i32`
/// without a check (`Path::get_total_float`): sums that do not fit are left
/// out.
#[verifier::external_body]
fn critical_durations(graph: &TaskGraph) -> (durations: Vec<i32>)
    requires
        graph_scheduled(*graph),
        runnable(graph_tasks(*graph)),
        floats_fit(graph_tasks(*graph)),
    ensures
        forall|i: int| 0 <= i < durations.len() ==> longest(graph_tasks(*graph), #[trigger] durations[i] as int),
        has_task(graph_tasks(*graph)) ==> durations.len() >= 1,
{
    graph.scheduler.get_critical_paths().iter().map(|path| path.get_dur()).collect()
}


/// The jobs that directly follow job `j`.
pub open spec fn followers(instance: InstanceView, j: int) -> Set<int> {
    Set::new(
        |k: int|
            0 <= k < instance.jobs.len() && k != j && first_relation(instance.constraints, k, j)
                == Some(false),
    )
}

/// The first `count` jobs as tasks: each lasts as long as the job on one
/// processor and depends on the jobs that directly follow it.
pub open spec fn tasks_upto(instance: InstanceView, count: int) -> Tasks {
    Map::new(|j: int| 0 <= j < count, |j: int| (instance.time(j, 1), followers(instance, j)))
}

/// The jobs as tasks.
pub open spec fn job_tasks(instance: InstanceView) -> Tasks {
    tasks_upto(instance, instance.jobs.len() as int)
}

/// `length` is the critical-path length of the instance: the largest sum of
/// the single-processor times of jobs of which each directly precedes the
/// next.
pub open spec fn critical(instance: InstanceView, length: int) -> bool {
    longest(job_tasks(instance), length)
}

/// The critical-path length of the instance.
pub open spec fn critical_length(instance: InstanceView) -> int {
    choose|length: int| critical(instance, length)
}

/// The largest single-processor time among the first `upto` jobs.
pub open spec fn slowest_upto(instance: InstanceView, upto: int) -> int
    decreases upto,
{
    if upto <= 0 {
        0
    } else if instance.time(upto - 1, 1) >= slowest_upto(instance, upto - 1) {
        instance.time(upto - 1, 1)
    } else {
        slowest_upto(instance, upto - 1)
    }
}

/// A bound on the duration of every path: each job, taken as long as the
/// slowest.
pub open spec fn path_bound(instance: InstanceView) -> int {
    instance.jobs.len() * slowest_upto(instance, instance.jobs.len() as int)
}

proof fn lemma_slowest(instance: InstanceView, upto: int)
    requires
        0 <= upto,
    ensures
        slowest_upto(instance, upto) >= 0,
        forall|j: int| 0 <= j < upto ==> #[trigger] instance.time(j, 1) <= slowest_upto(instance, upto),
    decreases upto,
{
    if upto > 0 {
        lemma_slowest(instance, upto - 1);
    }
}

/// The critical-path length is at least the single-processor time of every
/// job.
pub proof fn lemma_critical_covers_jobs(instance: InstanceView, length: int, j: int)
    requires
        critical(instance, length),
        0 <= j < instance.jobs.len(),
    ensures
        length >= instance.time(j, 1),
{
    let tasks = job_tasks(instance);
    let path = seq![j];
    assert(is_path(tasks, path));
    assert(path.drop_last() =~= Seq::<int>::empty());
    assert(path_duration(tasks, path) == instance.time(j, 1)) by {
        reveal_with_fuel(path_duration, 2);
    }
}

/// An instance has one critical-path length only.
pub proof fn lemma_critical_unique(instance: InstanceView, left: int, right: int)
    requires
        critical(instance, left),
        critical(instance, right),
    ensures
        left == right,
{
}

/// Along a path the ranks rise, so that a path is no longer than the number
/// of jobs and lasts no longer than that many times the slowest job.
proof fn lemma_path_bounded(instance: InstanceView, rank: Seq<int>, path: Seq<int>)
    requires
        instance.wf(),
        ranks(rank, instance.jobs.len() as int, instance.constraints),
        is_path(job_tasks(instance), path),
    ensures
        path.len() <= rank[path.last()] + 1 <= instance.jobs.len(),
        path_duration(job_tasks(instance), path) <= path.len() * slowest_upto(
            instance,
            instance.jobs.len() as int,
        ),
    decreases path.len(),
{
    let n = instance.jobs.len() as int;
    let tasks = job_tasks(instance);
    let slowest = slowest_upto(instance, n);
    lemma_slowest(instance, n);
    let last = path.last();
    assert(tasks.dom().contains(path[path.len() - 1]));
    assert(instance.time(last, 1) <= slowest);
    if path.len() == 1 {
        assert(path.drop_last() =~= Seq::<int>::empty());
        assert(path_duration(tasks, path) == instance.time(last, 1)) by {
            reveal_with_fuel(path_duration, 2);
        }
        assert(path.len() * slowest == slowest) by (nonlinear_arith)
            requires
                path.len() == 1,
        ;
    } else {
        let front = path.drop_last();
        assert(is_path(tasks, front)) by {
            assert forall|i: int| 0 <= i < front.len() implies tasks.dom().contains(
                #[trigger] front[i],
            ) by {
                assert(front[i] == path[i]);
            }
            assert forall|i: int| 0 <= i < front.len() - 1 implies tasks[#[trigger] front[i]].1.contains(
                front[i + 1],
            ) by {
                assert(front[i] == path[i]);
                assert(front[i + 1] == path[i + 1]);
            }
        }
        lemma_path_bounded(instance, rank, front);
        let before = path[path.len() - 2];
        assert(front.last() == before);
        assert(tasks[before].1.contains(path[path.len() - 2 + 1]));
        assert(followers(instance, before).contains(last));
        lemma_reverse(instance.constraints, last, before);
        lemma_precedes_ranked(rank, n, instance.constraints, before, last);
        assert(path_duration(tasks, path) <= path.len() * slowest) by (nonlinear_arith)
            requires
                path_duration(tasks, path) == path_duration(tasks, front) + instance.time(last, 1),
                path_duration(tasks, front) <= front.len() * slowest,
                instance.time(last, 1) <= slowest,
                path.len() == front.len() + 1,
        ;
    }
}

/// A bound on the floats of a path's tasks, added up: each job, taken to
/// wait as long as the bound on the paths allows.
pub open spec fn float_bound(instance: InstanceView) -> int {
    instance.jobs.len() * path_bound(instance)
}

/// The floats of the jobs of a well-formed instance fit if their bound does.
proof fn lemma_floats_fit(instance: InstanceView)
    requires
        instance.wf(),
        float_bound(instance) <= i32::MAX,
    ensures
        path_bound(instance) <= i32::MAX,
        floats_fit(job_tasks(instance)),
        has_task(job_tasks(instance)),
{
    let n = instance.jobs.len() as int;
    let tasks = job_tasks(instance);
    let slowest = slowest_upto(instance, n);
    let order = choose|order: Seq<int>| #[trigger] ranks(order, n, instance.constraints);
    lemma_slowest(instance, n);
    assert(tasks.dom().contains(0));
    assert(path_bound(instance) <= float_bound(instance)) by (nonlinear_arith)
        requires
            n >= 1,
            slowest >= 0,
            path_bound(instance) == n * slowest,
            float_bound(instance) == n * path_bound(instance),
    ;
    assert forall|path: Seq<int>, other: Seq<int>|
        #[trigger] is_path(tasks, path) && #[trigger] is_path(tasks, other) implies path.len()
        * path_duration(tasks, other) <= i32::MAX by {
        lemma_path_bounded(instance, order, path);
        lemma_path_bounded(instance, order, other);
        let duration = path_duration(tasks, other);
        assert(path.len() * duration <= n * (n * slowest)) by (nonlinear_arith)
            requires
                0 <= path.len() <= n,
                0 <= other.len() <= n,
                duration <= other.len() * slowest,
                slowest >= 0,
        ;
    }
}

/// The jobs of a well-formed instance whose paths fit can be run as tasks.
proof fn lemma_runnable(instance: InstanceView)
    requires
        instance.wf(),
        path_bound(instance) <= i32::MAX,
    ensures
        runnable(job_tasks(instance)),
{
    let n = instance.jobs.len() as int;
    let tasks = job_tasks(instance);
    let order = choose|order: Seq<int>| #[trigger] ranks(order, n, instance.constraints);
    let rank = Map::new(|j: int| 0 <= j < n, |j: int| -order[j]);
    assert forall|id: int, dep: int|
        tasks.dom().contains(id) && tasks.dom().contains(dep) && #[trigger] tasks[id].1.contains(
            dep,
        ) implies #[trigger] rank[dep] < rank[id] by {
        assert(followers(instance, id).contains(dep));
        lemma_reverse(instance.constraints, dep, id);
        lemma_precedes_ranked(order, n, instance.constraints, id, dep);
    }
    assert(descends(tasks, rank));
    assert forall|id: int| tasks.dom().contains(id) implies (#[trigger] tasks[id]).0 >= 0 by {
        assert(instance.time(id, 1) >= 1);
    }
    lemma_slowest(instance, n);
    assert forall|path: Seq<int>| is_path(tasks, path) implies #[trigger] path_duration(tasks, path)
        <= i32::MAX by {
        lemma_path_bounded(instance, order, path);
        assert(path.len() * slowest_upto(instance, n) <= n * slowest_upto(instance, n))
            by (nonlinear_arith)
            requires
                path.len() <= n,
                slowest_upto(instance, n) >= 0,
        ;
    }
}

/// The largest single-processor time.
fn slowest_job(instance: &Instance) -> (slowest: i32)
    requires
        instance@.wf(),
    ensures
        slowest == slowest_upto(instance@, instance@.jobs.len() as int),
{
    let mut slowest: i32 = 0;
    let mut j: usize = 0;
    while j < instance.jobs.len()
        invariant
            j <= instance.jobs.len(),
            instance@.wf(),
            slowest == slowest_upto(instance@, j as int),
        decreases instance.jobs.len() - j,
    {
        assert(instance@.jobs[j as int].times.len() == instance@.processors);
        let time = instance.jobs[j].processing_time(1);
        if time >= slowest {
            slowest = time;
        }
        j += 1;
    }
    slowest
}

/// The largest of the durations, if there is one.
pub fn longest_of(durations: &Vec<i32>) -> (longest: Option<i32>)
    ensures
        longest is Some == (durations.len() > 0),
        longest matches Some(length) ==> {
            &&& exists|i: int| 0 <= i < durations.len() && durations[i] == length
            &&& forall|i: int| 0 <= i < durations.len() ==> durations[i] <= length
        },
{
    if durations.len() == 0 {
        return None;
    }
    let mut length = durations[0];
    let mut i: usize = 1;
    while i < durations.len()
        invariant
            1 <= i <= durations.len(),
            exists|k: int| 0 <= k < i && durations[k] == length,
            forall|k: int| 0 <= k < i ==> durations[k] <= length,
        decreases durations.len() - i,
    {
        if durations[i] > length {
            length = durations[i];
        }
        i += 1;
    }
    Some(length)
}

/// The critical-path length of the instance. The floats of a path, as
/// their bound has them, must fit the machine's integers: else the length
/// is not computed.
pub fn critical_path_length(instance: &Instance) -> (result: Result<i32, SchedulingError>)
    requires
        instance@.wf(),
    ensures
        result is Ok == (float_bound(instance@) <= i32::MAX),
        result matches Ok(length) ==> critical(instance@, length as int),
        result matches Err(error) ==> error == SchedulingError::TooLong,
{
    let n = instance.jobs.len();
    let slowest = slowest_job(instance);
    proof {
        lemma_slowest(instance@, n as int);
        assert(n * slowest <= usize::MAX * i32::MAX) by (nonlinear_arith)
            requires
                0 <= n <= usize::MAX,
                0 <= slowest <= i32::MAX,
        ;
        assert(n * slowest <= n * (n * slowest)) by (nonlinear_arith)
            requires
                1 <= n,
                0 <= slowest,
        ;
    }
    let paths = n as u128 * slowest as u128;
    if paths > i32::MAX as u128 {
        return Err(SchedulingError::TooLong);
    }
    proof {
        assert(n * paths <= usize::MAX * i32::MAX) by (nonlinear_arith)
            requires
                0 <= n <= usize::MAX,
                0 <= paths <= i32::MAX,
        ;
    }
    if n as u128 * paths > i32::MAX as u128 {
        return Err(SchedulingError::TooLong);
    }
    let mut graph = new_graph();
    let mut j: usize = 0;
    assert(graph_tasks(graph) =~= tasks_upto(instance@, 0));
    while j < n
        invariant
            j <= n,
            n == instance.jobs.len(),
            instance@.wf(),
            graph_tasks(graph) == tasks_upto(instance@, j as int),
        decreases n - j,
    {
        let found = instance.successors(&instance.jobs[j]);
        let mut ids: Vec<usize> = Vec::new();
        let mut k: usize = 0;
        while k < found.len()
            invariant
                k <= found.len(),
                ids.len() == k,
                forall|i: int| 0 <= i < k ==> #[trigger] ids[i] == found[i].0,
            decreases found.len() - k,
        {
            ids.push(found[k].0);
            k += 1;
        }
        assert(instance@.jobs[j as int].index == j);
        assert(numbers(ids@) =~= followers(instance@, j as int)) by {
            assert forall|d: int| numbers(ids@).contains(d) implies followers(instance@, j as int).contains(
                d,
            ) by {
                let i = choose|i: int| 0 <= i < ids.len() && #[trigger] ids[i] == d;
                assert(instance.is_neighbour(found[i].0 as int, instance.jobs[j as int], false));
                assert(instance@.jobs[d].index == d);
            }
            assert forall|d: int| followers(instance@, j as int).contains(d) implies numbers(
                ids@,
            ).contains(d) by {
                assert(instance@.jobs[d].index == d);
                assert(instance.is_neighbour(d, instance.jobs[j as int], false));
                let i = choose|i: int| 0 <= i < found.len() && (#[trigger] found[i]).0 == d;
                assert(ids[i] == d);
            }
        }
        assert(instance@.jobs[j as int].times.len() == instance@.processors);
        let duration = instance.jobs[j].processing_time(1);
        let added = add_task(&mut graph, j, duration, &ids);
        assert(added);
        assert(graph_tasks(graph) =~= tasks_upto(instance@, j + 1));
        j += 1;
    }
    proof {
        lemma_floats_fit(instance@);
        lemma_runnable(instance@);
    }
    run_graph(&mut graph);
    let durations = critical_durations(&graph);
    Ok(longest_of(&durations).unwrap())
}


} // verus!
