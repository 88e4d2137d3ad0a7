use malleable::algo::{Constraint, Instance, Job, Schedule};
use malleable::chains::preprocess;
use malleable::dp::{schedule, search, State};
use malleable::error::SchedulingError;

fn job(index: usize, times: &[i32]) -> Job {
    Job { index, processing_times: times.to_vec() }
}

fn show(schedule: &Schedule) -> Vec<(usize, usize, i32)> {
    schedule.jobs.iter().map(|j| (j.job.index, j.allotment, j.start_time)).collect()
}

fn makespan(schedule: &Schedule) -> i32 {
    schedule.jobs.iter().map(|j| j.completion_time()).max().unwrap_or(0)
}

fn assert_within_capacity(schedule: &Schedule) {
    for t in 0..=makespan(schedule) {
        let used: usize = schedule
            .jobs
            .iter()
            .filter(|s| s.start_time <= t && t < s.completion_time())
            .map(|s| s.allotment)
            .sum();
        assert!(used <= schedule.processor_count);
    }
}

#[test]
fn single_job_on_one_processor() {
    let instance = Instance {
        processor_count: 1,
        jobs: vec![job(0, &[5])],
        constraints: vec![],
        max_time: 5,
    };
    let schedule = schedule(instance).unwrap();
    assert_eq!(schedule.processor_count, 1);
    assert_eq!(show(&schedule), vec![(0, 1, 0)]);
    assert_eq!(schedule.jobs[0].completion_time(), 5);
    assert_eq!(makespan(&schedule), 5);
}

#[test]
fn the_time_bound_itself_is_tried() {
    let instance = Instance {
        processor_count: 1,
        jobs: vec![job(0, &[5]), job(1, &[2])],
        constraints: vec![],
        max_time: 7,
    };
    assert_eq!(show(&schedule(instance).unwrap()), vec![(0, 1, 0), (1, 1, 5)]);
}

#[test]
fn time_bound_too_short_gives_no_solution() {
    let instance = Instance {
        processor_count: 1,
        jobs: vec![job(0, &[5])],
        constraints: vec![],
        max_time: 4,
    };
    assert_eq!(schedule(instance).unwrap_err(), SchedulingError::NoSolution);
    let chain = Instance {
        processor_count: 2,
        jobs: vec![job(0, &[4, 3]), job(1, &[4, 3])],
        constraints: vec![Constraint(0, 1)],
        max_time: 5,
    };
    assert_eq!(schedule(chain).unwrap_err(), SchedulingError::NoSolution);
    let negative = Instance {
        processor_count: 1,
        jobs: vec![job(0, &[1])],
        constraints: vec![],
        max_time: -1,
    };
    assert_eq!(schedule(negative).unwrap_err(), SchedulingError::NoSolution);
}

#[test]
fn cycle_is_an_invalid_instance() {
    let instance = Instance {
        processor_count: 1,
        jobs: vec![job(0, &[1]), job(1, &[1])],
        constraints: vec![Constraint(0, 1), Constraint(1, 0)],
        max_time: 4,
    };
    assert_eq!(schedule(instance).unwrap_err(), SchedulingError::InvalidInstance);
}

#[test]
fn strict_chain_of_three() {
    let instance = Instance {
        processor_count: 3,
        jobs: vec![job(0, &[6, 3, 2]), job(1, &[6, 3, 2]), job(2, &[6, 3, 2])],
        constraints: vec![Constraint(0, 1), Constraint(1, 2)],
        max_time: 18,
    };
    let schedule = schedule(instance).unwrap();
    // the shortest way, not the first that the search finds
    assert_eq!(show(&schedule), vec![(0, 3, 0), (1, 3, 2), (2, 3, 4)]);
    assert_eq!(makespan(&schedule), 6);
    assert_within_capacity(&schedule);
}

#[test]
fn the_first_way_found_under_the_instance_bound_is_not_the_shortest() {
    let instance = Instance {
        processor_count: 3,
        jobs: vec![job(0, &[6, 3, 2]), job(1, &[6, 3, 2]), job(2, &[6, 3, 2])],
        constraints: vec![Constraint(0, 1), Constraint(1, 2)],
        max_time: 18,
    };
    let chains = preprocess(&instance);
    // job 2 follows job 1 but not job 0 directly: it is a chain of its own
    assert_eq!(chains, vec![vec![0, 1], vec![2]]);
    let mut known = Vec::new();
    let found = search(&instance, &chains, &State::empty(2), &mut known).unwrap();
    let placed: Vec<(usize, usize, i32)> =
        found.iter().map(|j| (j.job.index, j.allotment, j.start_time)).collect();
    assert_eq!(placed, vec![(0, 1, 0), (1, 1, 6), (2, 1, 12)]);
    // the states on the way are known afterwards
    assert_eq!(known.len(), 3);
}

#[test]
fn the_shortest_schedule_may_need_a_wide_and_a_narrow_job() {
    // both jobs side by side end at 6; job 0 on both processors and then
    // job 1 on both end at 5
    let instance = Instance {
        processor_count: 2,
        jobs: vec![job(0, &[4, 2]), job(1, &[6, 3])],
        constraints: vec![],
        max_time: 12,
    };
    let schedule = schedule(instance).unwrap();
    assert_eq!(makespan(&schedule), 5);
    assert_eq!(show(&schedule), vec![(0, 2, 0), (1, 2, 2)]);
    assert_within_capacity(&schedule);
}

#[test]
fn a_wider_allotment_is_tried_when_the_narrow_one_leads_nowhere() {
    // with one processor each the second job would end at 8, after the bound
    let instance = Instance {
        processor_count: 2,
        jobs: vec![job(0, &[4, 2]), job(1, &[4, 2])],
        constraints: vec![Constraint(0, 1)],
        max_time: 4,
    };
    let schedule = schedule(instance).unwrap();
    assert_eq!(show(&schedule), vec![(0, 2, 0), (1, 2, 2)]);
    assert_within_capacity(&schedule);
}

#[test]
fn states_that_differ_in_the_front_job_only_are_both_searched() {
    // after job 0 on one processor, done at 4, nothing completes the state;
    // after job 0 on two processors, done at 2, as many jobs are committed,
    // and the search goes on from there all the same
    let instance = Instance {
        processor_count: 2,
        jobs: vec![job(0, &[4, 2]), job(1, &[4, 2])],
        constraints: vec![Constraint(0, 1)],
        max_time: 4,
    };
    let chains = preprocess(&instance);
    assert_eq!(chains, vec![vec![0, 1]]);
    let mut known = Vec::new();
    let found = search(&instance, &chains, &State::empty(1), &mut known).unwrap();
    let placed: Vec<(usize, usize, i32)> =
        found.iter().map(|j| (j.job.index, j.allotment, j.start_time)).collect();
    assert_eq!(placed, vec![(0, 2, 0), (1, 2, 2)]);
    let seen: Vec<(usize, usize, i32)> =
        known.iter().map(|s| (s.ideal[0], s.allotment[0], s.completion_times[0])).collect();
    assert_eq!(seen, vec![(1, 1, 4), (1, 2, 2), (2, 2, 4)]);
}

#[test]
fn a_job_is_committed_after_every_job_that_precedes_it() {
    // job 2 comes before job 1 but stands in a chain of its own: job 1 is
    // not committed ahead of it
    let instance = Instance {
        processor_count: 1,
        jobs: vec![job(0, &[1]), job(1, &[1]), job(2, &[1])],
        constraints: vec![Constraint(0, 1), Constraint(2, 1)],
        max_time: 3,
    };
    let schedule = schedule(instance).unwrap();
    assert_eq!(show(&schedule), vec![(0, 1, 0), (2, 1, 1), (1, 1, 2)]);
    assert_within_capacity(&schedule);
    let tight = Instance {
        processor_count: 1,
        jobs: vec![job(0, &[1]), job(1, &[1]), job(2, &[1])],
        constraints: vec![Constraint(0, 1), Constraint(2, 1)],
        max_time: 2,
    };
    assert_eq!(malleable::dp::schedule(tight).unwrap_err(), SchedulingError::NoSolution);
}

#[test]
fn every_constraint_is_kept_on_a_diamond() {
    let pairs = [(0, 1), (0, 2), (1, 3), (2, 3)];
    let instance = Instance {
        processor_count: 2,
        jobs: vec![job(0, &[2, 1]), job(1, &[4, 2]), job(2, &[4, 2]), job(3, &[2, 1])],
        constraints: pairs.iter().map(|&(u, v)| Constraint(u, v)).collect(),
        max_time: 12,
    };
    let schedule = schedule(instance).unwrap();
    assert_eq!(schedule.jobs.len(), 4);
    for (u, v) in pairs {
        let first = schedule.jobs.iter().find(|j| j.job.index == u).unwrap();
        let second = schedule.jobs.iter().find(|j| j.job.index == v).unwrap();
        assert!(first.completion_time() <= second.start_time);
    }
    assert_eq!(makespan(&schedule), 6);
    assert_within_capacity(&schedule);
}

#[test]
fn capacity_counts_the_front_jobs_at_every_instant() {
    let instance = Instance {
        processor_count: 2,
        jobs: vec![job(0, &[3, 3]), job(1, &[3, 3]), job(2, &[3, 3])],
        constraints: vec![],
        max_time: 9,
    };
    let schedule = schedule(instance).unwrap();
    assert_eq!(show(&schedule), vec![(0, 1, 0), (1, 1, 0), (2, 1, 3)]);
    assert_within_capacity(&schedule);
}

#[test]
fn search_from_the_empty_state() {
    let instance = Instance {
        processor_count: 2,
        jobs: vec![job(0, &[4, 2]), job(1, &[6, 3])],
        constraints: vec![],
        max_time: 12,
    };
    let chains = preprocess(&instance);
    assert_eq!(chains, vec![vec![0], vec![1]]);
    let mut known = Vec::new();
    let jobs = search(&instance, &chains, &State::empty(2), &mut known).unwrap();
    let placed: Vec<(usize, usize, i32)> =
        jobs.iter().map(|j| (j.job.index, j.allotment, j.start_time)).collect();
    assert_eq!(placed, vec![(0, 1, 0), (1, 1, 0)]);
    assert_eq!(known.len(), 2);
}

#[test]
fn search_from_a_terminal_state_commits_nothing() {
    let instance = Instance {
        processor_count: 1,
        jobs: vec![job(0, &[5])],
        constraints: vec![],
        max_time: 5,
    };
    let chains = preprocess(&instance);
    let mut known = Vec::new();
    let state = State::empty(1).add_job(0, 1, 5);
    assert!(search(&instance, &chains, &state, &mut known).unwrap().is_empty());
    assert!(known.is_empty());
}

#[test]
fn search_skips_a_known_state() {
    let instance = Instance {
        processor_count: 1,
        jobs: vec![job(0, &[5])],
        constraints: vec![],
        max_time: 5,
    };
    let chains = preprocess(&instance);
    let mut known = vec![State::empty(1).add_job(0, 1, 5)];
    assert!(search(&instance, &chains, &State::empty(1), &mut known).is_none());
}

#[test]
fn states_are_built_step_by_step() {
    let empty = State::empty(3);
    assert_eq!(empty.ideal, vec![0, 0, 0]);
    assert_eq!(empty.allotment, vec![0, 0, 0]);
    assert_eq!(empty.completion_times, vec![0, 0, 0]);
    let one = empty.add_job(1, 2, 7);
    assert_eq!(one.ideal, vec![0, 1, 0]);
    assert_eq!(one.allotment, vec![0, 2, 0]);
    assert_eq!(one.completion_times, vec![0, 7, 0]);
    let two = one.add_job(1, 1, 9);
    assert_eq!(two.ideal, vec![0, 2, 0]);
    assert_eq!(two.allotment, vec![0, 1, 0]);
    assert_eq!(two.completion_times, vec![0, 9, 0]);
    assert_eq!(empty.ideal, vec![0, 0, 0]);
    assert!(State::empty(0).ideal.is_empty());
}

#[test]
fn states_are_the_same_if_all_three_parts_are() {
    let one = State::empty(2).add_job(0, 1, 4);
    assert!(one.same(&State::empty(2).add_job(0, 1, 4)));
    assert!(!one.same(&State::empty(2).add_job(0, 2, 4)));
    assert!(!one.same(&State::empty(2).add_job(0, 1, 5)));
    assert!(!one.same(&State::empty(2).add_job(1, 1, 4)));
    assert!(!one.same(&State::empty(3).add_job(0, 1, 4)));
    assert!(!one.same(&State::empty(2)));
}

#[test]
fn the_search_ends_no_later_than_the_list_scheduler() {
    let pairs = [(0, 1), (0, 2), (1, 3), (2, 3)];
    let diamond = || Instance {
        processor_count: 2,
        jobs: vec![job(0, &[2, 1]), job(1, &[4, 2]), job(2, &[4, 2]), job(3, &[2, 1])],
        constraints: pairs.iter().map(|&(u, v)| Constraint(u, v)).collect(),
        max_time: 12,
    };
    let least = makespan(&schedule(diamond()).unwrap());
    for allotments in [vec![1, 1, 1, 1], vec![2, 1, 1, 2], vec![2, 2, 2, 2], vec![1, 2, 1, 2]] {
        let listed = malleable::list::list_schedule(&diamond(), &allotments, &vec![0, 0, 0, 0], true);
        assert!(makespan(&listed) <= 12);
        assert!(least <= makespan(&listed));
    }
}

#[test]
fn there_is_no_solution_exactly_if_no_schedule_ends_in_time() {
    // two jobs of 3 on one processor: 6 is enough, 5 is not
    let make = |max_time| Instance {
        processor_count: 1,
        jobs: vec![job(0, &[3]), job(1, &[3])],
        constraints: vec![],
        max_time,
    };
    assert_eq!(makespan(&schedule(make(6)).unwrap()), 6);
    assert_eq!(makespan(&schedule(make(20)).unwrap()), 6);
    assert_eq!(schedule(make(5)).unwrap_err(), SchedulingError::NoSolution);
}
