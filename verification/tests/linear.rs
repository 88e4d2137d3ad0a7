use malleable::algo::{Constraint, Instance, Job, Schedule};
use malleable::critical_path::critical_path_length;
use malleable::error::SchedulingError;
use malleable::program::{solve, LinearProgram, Row};

fn job(index: usize, times: &[i32]) -> Job {
    Job { index, processing_times: times.to_vec() }
}

fn show(schedule: &Schedule) -> Vec<(usize, usize, i32)> {
    schedule.jobs.iter().map(|j| (j.job.index, j.allotment, j.start_time)).collect()
}

fn makespan(schedule: &Schedule) -> i32 {
    schedule.jobs.iter().map(|j| j.completion_time()).max().unwrap_or(0)
}

fn rows(rows: &Vec<Row>) -> Vec<(Vec<(usize, i32)>, i32)> {
    rows.iter().map(|r| (r.terms.clone(), r.bound)).collect()
}

fn values_of(program: &LinearProgram) -> Vec<f64> {
    solve(program).unwrap().into_iter().map(f64::from_bits).collect()
}

fn bits(values: &[f64]) -> Vec<u64> {
    values.iter().map(|v| v.to_bits()).collect()
}

fn assert_feasible(instance: &Instance, schedule: &Schedule) {
    assert_eq!(schedule.processor_count, instance.processor_count);
    assert_eq!(schedule.jobs.len(), instance.jobs.len());
    for j in 0..instance.jobs.len() {
        let found: Vec<_> = schedule.jobs.iter().filter(|s| s.job.index == j).collect();
        assert_eq!(found.len(), 1);
        assert!(1 <= found[0].allotment && found[0].allotment <= instance.processor_count);
        assert!(found[0].start_time >= 0);
    }
    for c in &instance.constraints {
        let first = schedule.jobs.iter().find(|s| s.job.index == c.0).unwrap();
        let second = schedule.jobs.iter().find(|s| s.job.index == c.1).unwrap();
        assert!(first.completion_time() <= second.start_time);
    }
    for t in 0..=makespan(schedule) {
        let used: usize = schedule
            .jobs
            .iter()
            .filter(|s| s.start_time <= t && t < s.completion_time())
            .map(|s| s.allotment)
            .sum();
        assert!(used <= instance.processor_count);
    }
}

fn single() -> Instance {
    Instance { processor_count: 1, jobs: vec![job(0, &[5])], constraints: vec![], max_time: 5 }
}

fn two_independent() -> Instance {
    Instance {
        processor_count: 2,
        jobs: vec![job(0, &[4, 2]), job(1, &[6, 3])],
        constraints: vec![],
        max_time: 12,
    }
}

fn strict_chain() -> Instance {
    Instance {
        processor_count: 3,
        jobs: vec![job(0, &[6, 3, 2]), job(1, &[6, 3, 2]), job(2, &[6, 3, 2])],
        constraints: vec![Constraint(0, 1), Constraint(1, 2)],
        max_time: 18,
    }
}

fn diamond() -> Instance {
    Instance {
        processor_count: 2,
        jobs: vec![job(0, &[2, 1]), job(1, &[4, 2]), job(2, &[4, 2]), job(3, &[2, 1])],
        constraints: vec![Constraint(0, 1), Constraint(0, 2), Constraint(1, 3), Constraint(2, 3)],
        max_time: 16,
    }
}

fn three_alike() -> Instance {
    Instance {
        processor_count: 2,
        jobs: vec![job(0, &[5, 3]), job(1, &[5, 3]), job(2, &[5, 3])],
        constraints: vec![],
        max_time: 15,
    }
}

fn path_of_four() -> Instance {
    Instance {
        processor_count: 4,
        jobs: vec![job(0, &[4, 2, 1, 1]), job(1, &[4, 2, 1, 1]), job(2, &[4, 2, 1, 1]), job(3, &[4, 2, 1, 1])],
        constraints: vec![Constraint(0, 1), Constraint(1, 2), Constraint(2, 3)],
        max_time: 16,
    }
}

fn mixed() -> Instance {
    Instance {
        processor_count: 3,
        jobs: vec![job(0, &[12, 7, 5]), job(1, &[9, 5, 4]), job(2, &[6, 4, 3])],
        constraints: vec![Constraint(0, 2)],
        max_time: 36,
    }
}

#[test]
fn the_program_of_two_independent_jobs() {
    let instance = two_independent();
    let program = malleable::lp::build_program(&instance, 6).unwrap();
    // M, W, C0, C1, x0, x1, y01, y02, y11, y12, z01, z11
    assert_eq!(program.lower, vec![0, 0, 0, 0, 2, 3, 0, 0, 0, 0, 0, 0]);
    assert_eq!(program.objective, 0);
    assert_eq!(
        rows(&program.at_most),
        vec![
            (vec![(0, -1)], -6),
            (vec![(1, 1), (0, -2)], 0),
            (vec![(2, 1)], 6),
            (vec![(4, 1)], 4),
            (vec![(2, 1), (0, -1)], 0),
            (vec![(6, 1), (4, -1)], 0),
            (vec![(7, 1), (4, -1)], 0),
            (vec![(3, 1)], 6),
            (vec![(5, 1)], 6),
            (vec![(3, 1), (0, -1)], 0),
            (vec![(8, 1), (5, -1)], 0),
            (vec![(9, 1), (5, -1)], 0),
            (vec![(10, 1), (11, 1), (1, -1)], -10),
        ]
    );
    assert_eq!(
        rows(&program.equal),
        vec![
            (vec![(10, 4), (6, 0)], 0),
            (vec![(6, 1)], 2),
            (vec![(11, 6), (8, 0)], 0),
            (vec![(8, 1)], 3),
        ]
    );
}

#[test]
fn the_program_holds_the_constraints_and_the_steps_of_the_work() {
    let instance = mixed();
    let program = malleable::lp::build_program(&instance, 18).unwrap();
    assert_eq!(program.lower.len(), 2 + 3 + 3 + 9 + 6);
    // the shares may fall to the step of the work times the longest time
    assert_eq!(&program.lower[17..], &[-24, -12, -9, -18, -12, -6]);
    assert!(rows(&program.at_most).contains(&(vec![(2, 1), (7, 1), (4, -1)], 0)));
    // virtual time on 2 of 3 processors: at most the time on 2 processors
    assert!(rows(&program.at_most).contains(&(vec![(9, 1)], 7)));
    // share of job 0 for the step from 1 to 2 processors: 12 z + 2 y = 24
    assert_eq!(rows(&program.equal)[0], (vec![(17, 12), (8, 2)], 24));
    assert_eq!(rows(&program.equal)[1], (vec![(18, 7), (9, 1)], 7));
    assert_eq!(rows(&program.equal)[2], (vec![(9, 1)], 5));
}

#[test]
fn the_makespan_is_at_least_the_critical_path() {
    let instance = path_of_four();
    let length = critical_path_length(&instance).unwrap();
    assert_eq!(length, 16);
    let values = values_of(&malleable::lp::build_program(&instance, length).unwrap());
    assert_eq!(values[0], 16.0);
    let values = values_of(&malleable::lp::build_program(&two_independent(), 6).unwrap());
    assert_eq!(values, vec![6.0, 10.0, 0.0, 0.0, 2.0, 3.0, 2.0, 0.0, 3.0, 0.0, 0.0, 0.0]);
}

#[test]
fn single_job_by_the_linear_program() {
    for compress in [true, false] {
        let schedule = malleable::lp::schedule(single(), compress).unwrap();
        assert_eq!(show(&schedule), vec![(0, 1, 0)]);
        assert_eq!(makespan(&schedule), 5);
    }
}

#[test]
fn two_independent_jobs_run_side_by_side() {
    for compress in [true, false] {
        let schedule = malleable::lp::schedule(two_independent(), compress).unwrap();
        assert_eq!(show(&schedule), vec![(0, 1, 0), (1, 1, 0)]);
        assert_eq!(makespan(&schedule), 6);
        assert_feasible(&two_independent(), &schedule);
    }
}

#[test]
fn scenarios_by_the_linear_program_are_feasible() {
    for make in [single, two_independent, strict_chain, diamond, three_alike, path_of_four, mixed] {
        for compress in [true, false] {
            let schedule = malleable::lp::schedule(make(), compress).unwrap();
            assert_feasible(&make(), &schedule);
            let again = malleable::lp::schedule(make(), compress).unwrap();
            assert_eq!(show(&schedule), show(&again));
        }
    }
    assert_eq!(show(&malleable::lp::schedule(strict_chain(), true).unwrap()), vec![(0, 2, 0), (1, 2, 3), (2, 2, 6)]);
    assert_eq!(show(&malleable::lp::schedule(diamond(), true).unwrap()), vec![(0, 1, 0), (1, 1, 2), (2, 1, 2), (3, 1, 6)]);
    assert_eq!(makespan(&malleable::lp::schedule(diamond(), true).unwrap()), 8);
    assert_eq!(show(&malleable::lp::schedule(three_alike(), true).unwrap()), vec![(0, 1, 0), (1, 1, 0), (2, 1, 5)]);
    assert_eq!(show(&malleable::lp::schedule(mixed(), false).unwrap()), vec![(0, 2, 0), (1, 2, 7), (2, 2, 12)]);
}

#[test]
fn the_linear_program_stays_near_the_search() {
    for make in [single, two_independent, strict_chain, diamond, three_alike] {
        let by_program = makespan(&malleable::lp::schedule(make(), true).unwrap());
        let by_search = makespan(&malleable::dp::schedule(make()).unwrap());
        assert!(by_search <= by_program);
        assert!(10000 * by_program <= 47306 * by_search);
    }
}

#[test]
fn virtual_times_are_rounded_to_an_allotment() {
    let instance = two_independent();
    // C0 = 0.4, C1 = 2.5; job 0 qualifies on 2 processors only, job 1 on both
    let values = bits(&[6.0, 10.0, 0.4, 2.5, 2.0, 3.0, 1.7, 0.9, 2.6, 3.0, 0.0, 0.0]);
    let schedule = malleable::lp::schedule_solution(&instance, &values, false).unwrap();
    assert_eq!(show(&schedule), vec![(0, 2, 0), (1, 1, 2)]);
    // job 0 qualifies on 1 processor too now, job 1 nowhere
    let values = bits(&[6.0, 10.0, 0.4, 2.5, 2.0, 3.0, 1.73, 0.9, 2.58, 1.29, 0.0, 0.0]);
    let schedule = malleable::lp::schedule_solution(&instance, &values, false).unwrap();
    assert_eq!(show(&schedule), vec![(0, 1, 0), (1, 1, 0)]);
    // among equal processing times the narrowest allotment wins
    let level = Instance { processor_count: 3, jobs: vec![job(0, &[5, 4, 4])], constraints: vec![], max_time: 5 };
    let values = bits(&[5.0, 5.0, 0.0, 4.0, 0.0, 4.0, 4.0, 0.0, 0.0]);
    assert_eq!(show(&malleable::lp::schedule_solution(&level, &values, true).unwrap()), vec![(0, 2, 0)]);
}

#[test]
fn completion_times_become_targets() {
    let instance = two_independent();
    let values = bits(&[9.0, 10.0, 8.5, 6.49, 2.0, 3.0, 2.0, 0.0, 3.0, 0.0, 0.0, 0.0]);
    let aimed = malleable::lp::schedule_solution(&instance, &values, false).unwrap();
    // job 0 ends at 9, job 1 at 6
    assert_eq!(show(&aimed), vec![(1, 1, 0), (0, 1, 5)]);
    let packed = malleable::lp::schedule_solution(&instance, &values, true).unwrap();
    assert_eq!(show(&packed), vec![(0, 1, 0), (1, 1, 0)]);
}

#[test]
fn values_that_cannot_be_used_are_a_failure_of_the_solver() {
    let instance = two_independent();
    let failure = SchedulingError::SolverFailure;
    let short = bits(&[6.0, 10.0, 0.0, 0.0, 2.0, 3.0, 2.0, 0.0, 3.0, 0.0, 0.0]);
    assert_eq!(malleable::lp::schedule_solution(&instance, &short, true).unwrap_err(), failure);
    let no_number = bits(&[6.0, 10.0, 0.0, 0.0, 2.0, 3.0, 2.0, 0.0, 3.0, f64::NAN, 0.0, 0.0]);
    assert_eq!(malleable::lp::schedule_solution(&instance, &no_number, true).unwrap_err(), failure);
    let endless = bits(&[f64::INFINITY, 10.0, 0.0, 0.0, 2.0, 3.0, 2.0, 0.0, 3.0, 0.0, 0.0, 0.0]);
    assert_eq!(malleable::lp::schedule_solution(&instance, &endless, true).unwrap_err(), failure);
    assert_eq!(malleable::ilp::schedule_solution(&instance, &short, true).unwrap_err(), failure);
    let no_number = bits(&[6.0, 0.0, 0.0, 2.0, f64::NAN, 4.0, 6.0]);
    assert_eq!(malleable::ilp::schedule_solution(&instance, &no_number, true).unwrap_err(), failure);
}

#[test]
fn targets_too_late_for_the_machine_are_refused() {
    let instance = two_independent();
    let values = bits(&[6.0, 10.0, 0.0, 3e9, 2.0, 3.0, 2.0, 0.0, 3.0, 0.0, 0.0, 0.0]);
    assert_eq!(
        malleable::lp::schedule_solution(&instance, &values, false).unwrap_err(),
        SchedulingError::TooLong
    );
    assert!(malleable::lp::schedule_solution(&instance, &values, true).is_ok());
}

#[test]
fn invalid_instances_are_refused_by_both_programs() {
    let mut cycle = two_independent();
    cycle.constraints = vec![Constraint(0, 1), Constraint(1, 0)];
    assert_eq!(malleable::lp::schedule(cycle, true).unwrap_err(), SchedulingError::InvalidInstance);
    let mut cycle = two_independent();
    cycle.constraints = vec![Constraint(0, 1), Constraint(1, 0)];
    assert_eq!(malleable::ilp::schedule(cycle, true).unwrap_err(), SchedulingError::InvalidInstance);
}

#[test]
fn the_secant_program_of_two_independent_jobs() {
    let program = malleable::ilp::build_program(&two_independent(), 6).unwrap();
    // M, C0, C1, x0, x1, w0, w1
    assert_eq!(program.lower, vec![0, 0, 0, 2, 3, 0, 0]);
    assert_eq!(program.objective, 0);
    assert_eq!(
        rows(&program.at_most),
        vec![
            (vec![(0, -1)], -6),
            (vec![(1, 1)], 6),
            (vec![(3, 1)], 4),
            (vec![(1, 1), (0, -1)], 0),
            (vec![(3, 0), (5, -1)], -4),
            (vec![(2, 1)], 6),
            (vec![(4, 1)], 6),
            (vec![(2, 1), (0, -1)], 0),
            (vec![(4, 0), (6, -1)], -6),
            (vec![(5, 1), (6, 1), (0, -2)], 0),
        ]
    );
    assert!(program.equal.is_empty());
    assert_eq!(values_of(&program), vec![6.0, 0.0, 0.0, 2.0, 3.0, 4.0, 6.0]);
}

#[test]
fn secants_are_cut_off_towards_zero() {
    let program = malleable::ilp::build_program(&mixed(), 18).unwrap();
    // job 1, from 2 to 3 processors: (3 * 4 - 2 * 5) / (4 - 5) = -2 and 5 * 4 / (4 - 5) = -20
    assert!(rows(&program.at_most).contains(&(vec![(5, -2), (8, -1)], -20)));
    // job 0, from 1 to 2 processors: (2 * 7 - 12) / (7 - 12) = 0 and 12 * 7 / (7 - 12) = -16
    assert!(rows(&program.at_most).contains(&(vec![(4, 0), (7, -1)], -16)));
    assert!(rows(&program.at_most).contains(&(vec![(1, 1), (6, 1), (3, -1)], 0)));
}

#[test]
fn equal_times_on_successive_allotments_have_no_secant() {
    assert_eq!(
        malleable::ilp::build_program(&path_of_four(), 16).unwrap_err(),
        SchedulingError::InvalidInstance
    );
    assert_eq!(malleable::ilp::schedule(path_of_four(), true).unwrap_err(), SchedulingError::InvalidInstance);
}

#[test]
fn the_allotment_cap() {
    assert_eq!(malleable::ilp::compute_my(1), 1);
    assert_eq!(malleable::ilp::compute_my(2), 1);
    assert_eq!(malleable::ilp::compute_my(4), 1);
    assert_eq!(malleable::ilp::compute_my(10), 3);
    assert_eq!(malleable::ilp::compute_my(100), 32);
    assert_eq!(malleable::ilp::compute_my(1000), 326);
    for n in 1..400usize {
        let exact = 0.01 * (113.0 * n as f64 - (6469.0 * (n * n) as f64 - 6300.0 * n as f64).sqrt());
        assert_eq!(malleable::ilp::compute_my(n), exact.floor() as usize);
    }
}

#[test]
fn scenarios_by_the_secant_program_are_feasible() {
    for make in [single, two_independent, strict_chain, diamond, three_alike, mixed] {
        for compress in [true, false] {
            let schedule = malleable::ilp::schedule(make(), compress).unwrap();
            assert_feasible(&make(), &schedule);
            let again = malleable::ilp::schedule(make(), compress).unwrap();
            assert_eq!(show(&schedule), show(&again));
        }
    }
    assert_eq!(show(&malleable::ilp::schedule(single(), true).unwrap()), vec![(0, 1, 0)]);
    assert_eq!(show(&malleable::ilp::schedule(two_independent(), true).unwrap()), vec![(0, 1, 0), (1, 1, 0)]);
    assert_eq!(show(&malleable::ilp::schedule(mixed(), false).unwrap()), vec![(0, 1, 0), (1, 1, 0), (2, 1, 12)]);
    assert_eq!(makespan(&malleable::ilp::schedule(strict_chain(), true).unwrap()), 18);
}

#[test]
fn the_closest_allotment_is_capped() {
    let instance = Instance {
        processor_count: 4,
        jobs: (0..10).map(|j| job(j, &[9, 5, 4, 3])).collect(),
        constraints: vec![],
        max_time: 90,
    };
    let mut values = vec![0.0; 31];
    for j in 0..10 {
        // three jobs aim at 3, the closest allotment is 4, the cap is 3
        values[11 + j] = if j < 3 { 3.2 } else if j < 6 { 4.5 } else { 8.0 };
    }
    let schedule = malleable::ilp::schedule_solution(&instance, &bits(&values), true).unwrap();
    let allotments: Vec<usize> = (0..10)
        .map(|j| schedule.jobs.iter().find(|s| s.job.index == j).unwrap().allotment)
        .collect();
    assert_eq!(allotments, vec![3, 3, 3, 2, 2, 2, 1, 1, 1, 1]);
    assert_feasible(&instance, &schedule);
}
