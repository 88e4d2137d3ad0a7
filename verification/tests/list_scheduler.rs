use malleable::algo::{Constraint, Instance, Job, Schedule};
use malleable::error::SchedulingError;
use malleable::list::{horizon_fits, list_schedule, list_schedule_blocks, list_schedule_checked};

fn job(index: usize, times: &[i32]) -> Job {
    Job { index, processing_times: times.to_vec() }
}

fn show(schedule: &Schedule) -> Vec<(usize, usize, i32)> {
    schedule.jobs.iter().map(|j| (j.job.index, j.allotment, j.start_time)).collect()
}

fn makespan(schedule: &Schedule) -> i32 {
    schedule.jobs.iter().map(|j| j.completion_time()).max().unwrap_or(0)
}

fn assert_feasible(instance: &Instance, schedule: &Schedule) {
    assert_eq!(schedule.processor_count, instance.processor_count);
    assert_eq!(schedule.jobs.len(), instance.jobs.len());
    for j in 0..instance.jobs.len() {
        let found: Vec<_> = schedule.jobs.iter().filter(|s| s.job.index == j).collect();
        assert_eq!(found.len(), 1);
        assert_eq!(found[0].job.processing_times, instance.jobs[j].processing_times);
        assert!(1 <= found[0].allotment && found[0].allotment <= instance.processor_count);
        assert!(found[0].start_time >= 0);
    }
    for c in &instance.constraints {
        let first = schedule.jobs.iter().find(|s| s.job.index == c.0).unwrap();
        let second = schedule.jobs.iter().find(|s| s.job.index == c.1).unwrap();
        assert!(first.completion_time() <= second.start_time);
    }
    for t in 0..=makespan(schedule) {
        let used: usize = schedule
            .jobs
            .iter()
            .filter(|s| s.start_time <= t && t < s.completion_time())
            .map(|s| s.allotment)
            .sum();
        assert!(used <= instance.processor_count);
    }
}

fn diamond() -> Instance {
    Instance {
        processor_count: 2,
        jobs: vec![job(0, &[2, 1]), job(1, &[4, 2]), job(2, &[4, 2]), job(3, &[2, 1])],
        constraints: vec![Constraint(0, 1), Constraint(0, 2), Constraint(1, 3), Constraint(2, 3)],
        max_time: 16,
    }
}

fn three_alike() -> Instance {
    Instance {
        processor_count: 2,
        jobs: vec![job(0, &[5, 3]), job(1, &[5, 3]), job(2, &[5, 3])],
        constraints: vec![],
        max_time: 15,
    }
}

fn path(n: usize, m: usize, times: &[i32]) -> Instance {
    assert_eq!(times.len(), m);
    Instance {
        processor_count: m,
        jobs: (0..n).map(|j| job(j, times)).collect(),
        constraints: (1..n).map(|j| Constraint(j - 1, j)).collect(),
        max_time: n as i32 * times[0],
    }
}

#[test]
fn diamond_with_one_processor_each() {
    let instance = diamond();
    let schedule = list_schedule(&instance, &vec![1, 1, 1, 1], &vec![0, 0, 0, 0], true);
    assert_eq!(show(&schedule), vec![(0, 1, 0), (1, 1, 2), (2, 1, 2), (3, 1, 6)]);
    assert_eq!(makespan(&schedule), 8);
    assert_eq!(schedule.processor_count, 2);
    assert_feasible(&instance, &schedule);
}

#[test]
fn three_jobs_on_two_processors_are_serialised() {
    let instance = three_alike();
    let narrow = list_schedule(&instance, &vec![1, 1, 1], &vec![0, 0, 0], true);
    assert_eq!(show(&narrow), vec![(0, 1, 0), (1, 1, 0), (2, 1, 5)]);
    assert_eq!(makespan(&narrow), 10);
    assert_feasible(&instance, &narrow);
    let wide = list_schedule(&instance, &vec![2, 2, 2], &vec![0, 0, 0], true);
    assert_eq!(show(&wide), vec![(0, 2, 0), (1, 2, 3), (2, 2, 6)]);
    assert_eq!(makespan(&wide), 9);
    assert_feasible(&instance, &wide);
}

#[test]
fn a_single_path_on_one_processor_each_takes_the_sum() {
    let instance = path(4, 4, &[4, 2, 1, 1]);
    let schedule = list_schedule(&instance, &vec![1, 1, 1, 1], &vec![0, 0, 0, 0], true);
    assert_eq!(show(&schedule), vec![(0, 1, 0), (1, 1, 4), (2, 1, 8), (3, 1, 12)]);
    assert_eq!(makespan(&schedule), 16);
    assert_feasible(&instance, &schedule);
}

#[test]
fn a_single_path_given_backwards_is_followed() {
    let instance = Instance {
        processor_count: 2,
        jobs: vec![job(0, &[3, 2]), job(1, &[5, 4]), job(2, &[7, 1])],
        constraints: vec![Constraint(2, 1), Constraint(1, 0)],
        max_time: 21,
    };
    let schedule = list_schedule(&instance, &vec![1, 2, 1], &vec![0, 0, 0], true);
    assert_eq!(show(&schedule), vec![(2, 1, 0), (1, 2, 7), (0, 1, 11)]);
    assert_eq!(makespan(&schedule), 7 + 4 + 3);
    assert_feasible(&instance, &schedule);
}

#[test]
fn targets_delay_the_jobs_unless_compressed() {
    let instance = three_alike();
    let aimed = list_schedule(&instance, &vec![1, 1, 1], &vec![8, 5, 20], false);
    assert_eq!(show(&aimed), vec![(1, 1, 0), (0, 1, 3), (2, 1, 15)]);
    assert_eq!(makespan(&aimed), 20);
    assert_feasible(&instance, &aimed);
    let packed = list_schedule(&instance, &vec![1, 1, 1], &vec![8, 5, 20], true);
    assert_eq!(show(&packed), vec![(0, 1, 0), (1, 1, 0), (2, 1, 5)]);
    assert!(makespan(&packed) <= makespan(&aimed));
}

#[test]
fn a_target_before_the_processing_time_does_not_start_a_job_before_zero() {
    let instance = three_alike();
    let schedule = list_schedule(&instance, &vec![1, 1, 1], &vec![-50, 0, 1], false);
    assert_eq!(show(&schedule), vec![(0, 1, 0), (1, 1, 0), (2, 1, 5)]);
}

#[test]
fn on_a_single_path_compressing_never_takes_longer() {
    let instance = path(5, 3, &[6, 3, 2]);
    for targets in [vec![0, 0, 0, 0, 0], vec![9, 9, 40, 3, 60], vec![6, 12, 18, 24, 30]] {
        for allotments in [vec![1, 1, 1, 1, 1], vec![3, 2, 1, 2, 3]] {
            let packed = list_schedule(&instance, &allotments, &targets, true);
            let aimed = list_schedule(&instance, &allotments, &targets, false);
            assert_feasible(&instance, &packed);
            assert_feasible(&instance, &aimed);
            let sum: i32 = (0..5).map(|j| instance.jobs[j].processing_time(allotments[j])).sum();
            assert_eq!(makespan(&packed), sum);
            assert!(makespan(&packed) <= makespan(&aimed));
        }
    }
}

#[test]
fn off_a_single_path_a_target_can_beat_compressing() {
    // two short jobs and one wide long job on three processors: packed, the
    // short jobs split the processors and the wide job has to wait for them
    let instance = Instance {
        processor_count: 3,
        jobs: vec![job(0, &[1, 1, 1]), job(1, &[1, 1, 1]), job(2, &[10, 10, 10])],
        constraints: vec![],
        max_time: 30,
    };
    let allotments = vec![1, 1, 2];
    let targets = vec![1, 2, 10];
    let packed = list_schedule(&instance, &allotments, &targets, true);
    assert_eq!(show(&packed), vec![(0, 1, 0), (1, 1, 0), (2, 2, 1)]);
    assert_eq!(makespan(&packed), 11);
    let aimed = list_schedule(&instance, &allotments, &targets, false);
    assert_eq!(show(&aimed), vec![(0, 1, 0), (2, 2, 0), (1, 1, 1)]);
    assert_eq!(makespan(&aimed), 10);
    assert_feasible(&instance, &packed);
    assert_feasible(&instance, &aimed);
}

#[test]
fn a_job_waits_for_a_block_of_adjacent_processors() {
    // after the two narrow jobs, positions 0 and 1 are held until 4 and 9:
    // the wide job fits on positions 0 and 1 only from 9 on, on 1 and 2 too
    let instance = Instance {
        processor_count: 3,
        jobs: vec![job(0, &[4, 4, 4]), job(1, &[9, 9, 9]), job(2, &[2, 2, 2]), job(3, &[1, 1, 1])],
        constraints: vec![Constraint(0, 2), Constraint(1, 2)],
        max_time: 40,
    };
    let schedule = list_schedule(&instance, &vec![1, 1, 2, 1], &vec![0, 0, 0, 0], true);
    assert_eq!(show(&schedule), vec![(0, 1, 0), (1, 1, 0), (3, 1, 0), (2, 2, 9)]);
    assert_feasible(&instance, &schedule);
}

#[test]
fn ties_go_to_the_job_with_the_lower_index() {
    let instance = Instance {
        processor_count: 1,
        jobs: vec![job(0, &[3]), job(1, &[1]), job(2, &[2])],
        constraints: vec![],
        max_time: 6,
    };
    let schedule = list_schedule(&instance, &vec![1, 1, 1], &vec![0, 0, 0], true);
    assert_eq!(show(&schedule), vec![(0, 1, 0), (1, 1, 3), (2, 1, 4)]);
}

#[test]
fn the_same_input_gives_the_same_schedule() {
    let instance = diamond();
    let first = list_schedule(&instance, &vec![2, 1, 1, 2], &vec![3, 9, 8, 12], false);
    let second = list_schedule(&instance, &vec![2, 1, 1, 2], &vec![3, 9, 8, 12], false);
    assert_eq!(show(&first), show(&second));
    assert_feasible(&instance, &first);
}

#[test]
fn the_horizon_is_the_largest_target_and_every_job_as_long_as_the_longest() {
    let instance = three_alike();
    assert!(horizon_fits(&instance, &vec![1, 1, 1], &vec![0, 0, i32::MAX - 15], false));
    assert!(!horizon_fits(&instance, &vec![1, 1, 1], &vec![0, 0, i32::MAX - 14], false));
    assert!(horizon_fits(&instance, &vec![1, 1, 1], &vec![0, 0, i32::MAX], true));
    assert!(horizon_fits(&instance, &vec![1, 2, 2], &vec![0, 0, i32::MAX - 15], false));
    assert!(horizon_fits(&instance, &vec![2, 2, 2], &vec![0, 0, i32::MAX - 9], false));
    assert!(!horizon_fits(&instance, &vec![2, 2, 2], &vec![0, 0, i32::MAX - 8], false));
}

#[test]
fn checked_scheduling_refuses_bad_input() {
    let instance = three_alike();
    let invalid = SchedulingError::InvalidInstance;
    assert_eq!(list_schedule_checked(&instance, &vec![1, 1], &vec![0, 0, 0], true).unwrap_err(), invalid);
    assert_eq!(list_schedule_checked(&instance, &vec![1, 1, 1], &vec![0, 0], true).unwrap_err(), invalid);
    assert_eq!(list_schedule_checked(&instance, &vec![1, 0, 1], &vec![0, 0, 0], true).unwrap_err(), invalid);
    assert_eq!(list_schedule_checked(&instance, &vec![1, 3, 1], &vec![0, 0, 0], true).unwrap_err(), invalid);
    let mut cycle = three_alike();
    cycle.constraints = vec![Constraint(0, 1), Constraint(1, 0)];
    assert_eq!(list_schedule_checked(&cycle, &vec![1, 1, 1], &vec![0, 0, 0], true).unwrap_err(), invalid);
    assert_eq!(
        list_schedule_checked(&instance, &vec![1, 1, 1], &vec![0, i32::MAX, 0], false).unwrap_err(),
        SchedulingError::TooLong
    );
    let schedule = list_schedule_checked(&instance, &vec![1, 1, 1], &vec![0, i32::MAX, 0], true).unwrap();
    assert_eq!(show(&schedule), vec![(0, 1, 0), (1, 1, 0), (2, 1, 5)]);
}

#[test]
fn every_job_runs_on_a_block_of_its_own() {
    let instance = Instance {
        processor_count: 3,
        jobs: vec![job(0, &[4, 4, 4]), job(1, &[9, 9, 9]), job(2, &[2, 2, 2]), job(3, &[1, 1, 1])],
        constraints: vec![Constraint(0, 2), Constraint(1, 2)],
        max_time: 40,
    };
    let (schedule, blocks) = list_schedule_blocks(&instance, &vec![1, 1, 2, 1], &vec![0, 0, 0, 0], true);
    assert_eq!(show(&schedule), vec![(0, 1, 0), (1, 1, 0), (3, 1, 0), (2, 2, 9)]);
    assert_eq!(blocks, vec![0, 1, 2, 0]);
    let wide = list_schedule_blocks(&three_alike(), &vec![2, 1, 1], &vec![0, 0, 0], true);
    assert_eq!(show(&wide.0), vec![(0, 2, 0), (1, 1, 3), (2, 1, 3)]);
    assert_eq!(wide.1, vec![0, 0, 1]);
    for (schedule, blocks) in [(schedule, blocks), wide] {
        for k in 0..blocks.len() {
            assert!(blocks[k] + schedule.jobs[k].allotment <= schedule.processor_count);
            for l in k + 1..blocks.len() {
                let shared = blocks[k] < blocks[l] + schedule.jobs[l].allotment
                    && blocks[l] < blocks[k] + schedule.jobs[k].allotment;
                if shared {
                    assert!(schedule.jobs[k].completion_time() <= schedule.jobs[l].start_time);
                }
            }
        }
    }
}

#[test]
fn jobs_that_cannot_run_side_by_side_gain_nothing_from_targets() {
    // on one processor the jobs of a diamond run one at a time
    let one = Instance {
        processor_count: 1,
        jobs: vec![job(0, &[2]), job(1, &[4]), job(2, &[4]), job(3, &[2])],
        constraints: vec![Constraint(0, 1), Constraint(0, 2), Constraint(1, 3), Constraint(2, 3)],
        max_time: 12,
    };
    for targets in [vec![0, 0, 0, 0], vec![2, 9, 6, 30], vec![5, 5, 5, 5]] {
        let packed = list_schedule(&one, &vec![1, 1, 1, 1], &targets, true);
        let aimed = list_schedule(&one, &vec![1, 1, 1, 1], &targets, false);
        assert_feasible(&one, &packed);
        assert_feasible(&one, &aimed);
        assert_eq!(makespan(&packed), 12);
        assert!(makespan(&packed) <= makespan(&aimed));
    }
    // on three processors two jobs of two processors each do not fit
    let wide = Instance {
        processor_count: 3,
        jobs: vec![job(0, &[5, 3, 2]), job(1, &[7, 4, 3]), job(2, &[5, 3, 2])],
        constraints: vec![],
        max_time: 17,
    };
    for targets in [vec![0, 0, 0], vec![3, 20, 9], vec![11, 4, 4]] {
        for allotments in [vec![2, 2, 2], vec![3, 2, 2]] {
            let packed = list_schedule(&wide, &allotments, &targets, true);
            let aimed = list_schedule(&wide, &allotments, &targets, false);
            assert_feasible(&wide, &packed);
            assert_feasible(&wide, &aimed);
            let sum: i32 = (0..3).map(|j| wide.jobs[j].processing_time(allotments[j])).sum();
            assert_eq!(makespan(&packed), sum);
            assert!(makespan(&packed) <= makespan(&aimed));
        }
    }
}

#[test]
fn packed_jobs_take_no_longer_than_their_times_add_up_to() {
    for allotments in [vec![1, 1, 1, 1], vec![2, 1, 1, 2], vec![2, 2, 2, 2]] {
        let instance = diamond();
        let packed = list_schedule(&instance, &allotments, &vec![0, 0, 0, 0], true);
        let sum: i32 = (0..4).map(|j| instance.jobs[j].processing_time(allotments[j])).sum();
        assert!(makespan(&packed) <= sum);
    }
}
