use malleable::algo::{Constraint, Instance, Job, PartialRelation, ScheduledJob};
use malleable::error::SchedulingError;

fn job(index: usize, times: &[i32]) -> Job {
    Job { index, processing_times: times.to_vec() }
}

fn diamond() -> Instance {
    Instance {
        processor_count: 2,
        jobs: vec![job(0, &[2, 1]), job(1, &[4, 2]), job(2, &[4, 2]), job(3, &[2, 1])],
        constraints: vec![Constraint(0, 1), Constraint(0, 2), Constraint(1, 3), Constraint(2, 3)],
        max_time: 16,
    }
}

#[test]
fn compare_answers_less_greater_or_nothing() {
    let relation = vec![Constraint(0, 1), Constraint(1, 2)];
    let a = job(0, &[1]);
    let b = job(1, &[1]);
    let c = job(2, &[1]);
    assert_eq!(a.compare(&relation, &b), Some(true));
    assert_eq!(b.compare(&relation, &a), Some(false));
    assert_eq!(a.compare(&relation, &c), None);
    assert_eq!(c.compare(&relation, &a), None);
    assert!(a.less_than(&relation, &b));
    assert!(!a.greater_than(&relation, &b));
    assert!(b.greater_than(&relation, &a));
    assert!(a.is_comparable(&relation, &b));
    assert!(!a.is_comparable(&relation, &c));
    assert!(!a.less_than(&relation, &c));
    assert!(!a.greater_than(&relation, &c));
}

#[test]
fn compare_is_direct_precedence_not_reachability() {
    let relation = vec![Constraint(0, 1), Constraint(1, 2)];
    assert_eq!(job(0, &[1]).compare(&relation, &job(2, &[1])), None);
}

#[test]
fn compare_takes_the_first_pair_that_relates() {
    let relation = vec![Constraint(1, 0), Constraint(0, 1)];
    assert_eq!(job(0, &[1]).compare(&relation, &job(1, &[1])), Some(false));
    assert_eq!(job(0, &[1]).compare(&[], &job(1, &[1])), None);
}

#[test]
fn predecessors_and_successors_of_the_diamond() {
    let instance = diamond();
    let before: Vec<usize> = instance.predecessors(&instance.jobs[3]).iter().map(|p| p.0).collect();
    assert_eq!(before, vec![1, 2]);
    let after: Vec<usize> = instance.successors(&instance.jobs[0]).iter().map(|p| p.0).collect();
    assert_eq!(after, vec![1, 2]);
    assert!(instance.predecessors(&instance.jobs[0]).is_empty());
    assert!(instance.successors(&instance.jobs[3]).is_empty());
    let found = instance.predecessors(&instance.jobs[1]);
    assert_eq!(found.len(), 1);
    assert_eq!(found[0].0, 0);
    assert_eq!(found[0].1.processing_times, vec![2, 1]);
}

#[test]
fn processing_time_counts_allotments_from_one() {
    let j = job(0, &[9, 5, 4]);
    assert_eq!(j.processing_time(1), 9);
    assert_eq!(j.processing_time(2), 5);
    assert_eq!(j.processing_time(3), 4);
}

#[test]
fn closest_allotment_prefers_the_smaller_on_a_tie() {
    let j = job(0, &[9, 5, 4]);
    assert_eq!(j.closest_allotment(9), 1);
    assert_eq!(j.closest_allotment(7), 1);
    assert_eq!(j.closest_allotment(6), 2);
    assert_eq!(j.closest_allotment(4), 3);
    assert_eq!(j.closest_allotment(-100), 3);
    assert_eq!(j.closest_allotment(100), 1);
    assert_eq!(job(0, &[5, 5, 5]).closest_allotment(5), 1);
    assert_eq!(job(0, &[i32::MAX, i32::MIN]).closest_allotment(-1), 2);
    assert_eq!(job(0, &[i32::MAX, i32::MIN]).closest_allotment(0), 1);
}

#[test]
fn scheduled_job_times() {
    let placed = ScheduledJob { job: job(4, &[9, 5, 4]), allotment: 2, start_time: 7 };
    assert_eq!(placed.processing_time(), 5);
    assert_eq!(placed.completion_time(), 12);
}

#[test]
fn jobs_are_equal_by_index() {
    assert!(job(1, &[3]) == job(1, &[4, 5]));
    assert!(job(1, &[3]) != job(2, &[3]));
    let copy = job(3, &[8, 2]).clone();
    assert_eq!(copy.index, 3);
    assert_eq!(copy.processing_times, vec![8, 2]);
}

#[test]
fn a_well_formed_instance_is_accepted() {
    assert_eq!(diamond().validate(), Ok(()));
}

#[test]
fn malformed_instances_are_rejected() {
    let invalid = Err(SchedulingError::InvalidInstance);
    let mut no_processor = diamond();
    no_processor.processor_count = 0;
    assert_eq!(no_processor.validate(), invalid);
    let no_job = Instance { processor_count: 1, jobs: vec![], constraints: vec![], max_time: 0 };
    assert_eq!(no_job.validate(), invalid);
    let mut short_row = diamond();
    short_row.jobs[2].processing_times.pop();
    assert_eq!(short_row.validate(), invalid);
    let mut zero_time = diamond();
    zero_time.jobs[1].processing_times[1] = 0;
    assert_eq!(zero_time.validate(), invalid);
    let mut wrong_index = diamond();
    wrong_index.jobs[1].index = 2;
    assert_eq!(wrong_index.validate(), invalid);
    let mut unknown_job = diamond();
    unknown_job.constraints.push(Constraint(1, 4));
    assert_eq!(unknown_job.validate(), invalid);
    let mut cycle = diamond();
    cycle.constraints.push(Constraint(3, 0));
    assert_eq!(cycle.validate(), invalid);
    let mut own_successor = diamond();
    own_successor.constraints.push(Constraint(2, 2));
    assert_eq!(own_successor.validate(), invalid);
}

#[test]
fn times_need_not_fall_with_the_allotment() {
    let instance = Instance {
        processor_count: 3,
        jobs: vec![job(0, &[2, 7, 3])],
        constraints: vec![],
        max_time: 7,
    };
    assert_eq!(instance.validate(), Ok(()));
}

#[test]
fn failures_have_words() {
    assert_eq!(SchedulingError::InvalidInstance.message(), "the instance is not well formed");
    assert_eq!(SchedulingError::IncomparableInChain.message(), "chain contains two non-comparable jobs");
    assert_eq!(SchedulingError::SolverFailure.message(), "the solver found no solution");
    assert_eq!(SchedulingError::NoSolution.message(), "no solution found");
    assert_eq!(SchedulingError::TooLong.message(), "a number does not fit");
}
