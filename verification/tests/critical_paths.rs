use malleable::algo::{Constraint, Instance, Job};
use malleable::critical_path::{critical_path_length, longest_of};
use malleable::error::SchedulingError;

fn job(index: usize, times: &[i32]) -> Job {
    Job { index, processing_times: times.to_vec() }
}

#[test]
fn critical_path_of_a_path_of_four() {
    let instance = Instance {
        processor_count: 4,
        jobs: vec![job(0, &[4, 2, 1, 1]), job(1, &[4, 2, 1, 1]), job(2, &[4, 2, 1, 1]), job(3, &[4, 2, 1, 1])],
        constraints: vec![Constraint(0, 1), Constraint(1, 2), Constraint(2, 3)],
        max_time: 16,
    };
    assert_eq!(critical_path_length(&instance), Ok(16));
}

#[test]
fn critical_path_of_a_diamond() {
    let instance = Instance {
        processor_count: 2,
        jobs: vec![job(0, &[2, 1]), job(1, &[4, 2]), job(2, &[5, 2]), job(3, &[2, 1])],
        constraints: vec![Constraint(0, 1), Constraint(0, 2), Constraint(1, 3), Constraint(2, 3)],
        max_time: 16,
    };
    assert_eq!(critical_path_length(&instance), Ok(9));
}

#[test]
fn critical_path_without_constraints_is_the_slowest_job() {
    let instance = Instance {
        processor_count: 2,
        jobs: vec![job(0, &[4, 2]), job(1, &[6, 3]), job(2, &[5, 5])],
        constraints: vec![],
        max_time: 18,
    };
    assert_eq!(critical_path_length(&instance), Ok(6));
}

#[test]
fn critical_path_takes_the_times_on_one_processor() {
    let instance = Instance {
        processor_count: 2,
        jobs: vec![job(0, &[1, 50]), job(1, &[2, 60])],
        constraints: vec![Constraint(1, 0)],
        max_time: 120,
    };
    assert_eq!(critical_path_length(&instance), Ok(3));
}

#[test]
fn critical_path_is_at_least_every_job() {
    let instance = Instance {
        processor_count: 1,
        jobs: vec![job(0, &[3]), job(1, &[8]), job(2, &[2]), job(3, &[7]), job(4, &[4])],
        constraints: vec![Constraint(0, 2), Constraint(2, 4), Constraint(3, 4), Constraint(0, 4)],
        max_time: 40,
    };
    let length = critical_path_length(&instance).unwrap();
    assert_eq!(length, 11);
    for j in &instance.jobs {
        assert!(length >= j.processing_time(1));
    }
}

#[test]
fn critical_path_of_closed_chains() {
    let instance = Instance {
        processor_count: 1,
        jobs: vec![job(0, &[1]), job(1, &[2]), job(2, &[3]), job(3, &[4])],
        constraints: vec![
            Constraint(0, 1),
            Constraint(0, 2),
            Constraint(0, 3),
            Constraint(1, 2),
            Constraint(1, 3),
            Constraint(2, 3),
        ],
        max_time: 16,
    };
    assert_eq!(critical_path_length(&instance), Ok(10));
}

#[test]
fn paths_whose_floats_may_not_fit_are_not_computed() {
    let instance = Instance {
        processor_count: 1,
        jobs: vec![job(0, &[i32::MAX / 4 + 1]), job(1, &[1])],
        constraints: vec![],
        max_time: 0,
    };
    assert_eq!(critical_path_length(&instance), Err(SchedulingError::TooLong));
    let fits = Instance {
        processor_count: 1,
        jobs: vec![job(0, &[i32::MAX / 4]), job(1, &[1])],
        constraints: vec![Constraint(1, 0)],
        max_time: 0,
    };
    assert_eq!(critical_path_length(&fits), Ok(i32::MAX / 4 + 1));
    // two branches after job 0: the short one waits for the long one, and
    // its three floats together would not fit
    let long = 306_783_378;
    let branches = Instance {
        processor_count: 1,
        jobs: vec![
            job(0, &[1]),
            job(1, &[long]),
            job(2, &[long]),
            job(3, &[long]),
            job(4, &[1]),
            job(5, &[1]),
            job(6, &[1]),
        ],
        constraints: vec![
            Constraint(0, 1),
            Constraint(1, 2),
            Constraint(2, 3),
            Constraint(0, 4),
            Constraint(4, 5),
            Constraint(5, 6),
        ],
        max_time: 0,
    };
    assert_eq!(critical_path_length(&branches), Err(SchedulingError::TooLong));
}

fn longest_path(instance: &Instance) -> i32 {
    // constraints go from a lower index to a higher one here
    let n = instance.jobs.len();
    let mut best = vec![0; n];
    for j in 0..n {
        let before = instance
            .constraints
            .iter()
            .filter(|c| c.1 == j)
            .map(|c| best[c.0])
            .max()
            .unwrap_or(0);
        best[j] = before + instance.jobs[j].processing_times[0];
    }
    best.into_iter().max().unwrap()
}

#[test]
fn critical_path_is_the_longest_path() {
    let mut seed: u64 = 12345;
    let mut next = |bound: u64| {
        seed = seed.wrapping_mul(6364136223846793005).wrapping_add(1442695040888963407);
        (seed >> 33) % bound
    };
    for round in 0..40 {
        let n = 2 + (round % 7) as usize;
        let jobs: Vec<Job> = (0..n).map(|j| job(j, &[1 + next(20) as i32])).collect();
        let mut constraints = Vec::new();
        for a in 0..n {
            for b in a + 1..n {
                if next(3) == 0 {
                    constraints.push(Constraint(a, b));
                }
            }
        }
        let instance = Instance { processor_count: 1, jobs, constraints, max_time: 1000 };
        assert_eq!(critical_path_length(&instance), Ok(longest_path(&instance)));
    }
}

#[test]
fn the_longest_of_some_durations() {
    assert_eq!(longest_of(&vec![3, 9, 9, 2]), Some(9));
    assert_eq!(longest_of(&vec![-3]), Some(-3));
    assert_eq!(longest_of(&vec![]), None);
}
