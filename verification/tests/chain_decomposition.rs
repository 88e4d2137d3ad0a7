use malleable::algo::{Constraint, Instance, Job};
use malleable::chains::{preprocess, sort_chain};
use malleable::error::SchedulingError;

fn unit_jobs(n: usize) -> Vec<Job> {
    (0..n).map(|index| Job { index, processing_times: vec![1] }).collect()
}

fn instance(n: usize, pairs: &[(usize, usize)]) -> Instance {
    Instance {
        processor_count: 1,
        jobs: unit_jobs(n),
        constraints: pairs.iter().map(|&(a, b)| Constraint(a, b)).collect(),
        max_time: n as i32,
    }
}

#[test]
fn independent_jobs_make_a_chain_each() {
    assert_eq!(preprocess(&instance(3, &[])), vec![vec![0], vec![1], vec![2]]);
}

#[test]
fn a_closed_path_makes_one_chain() {
    assert_eq!(preprocess(&instance(3, &[(0, 1), (1, 2), (0, 2)])), vec![vec![0, 1, 2]]);
}

#[test]
fn a_path_that_is_not_closed_is_split() {
    // 0 before 1 before 2, but 0 and 2 are not directly constrained
    assert_eq!(preprocess(&instance(3, &[(0, 1), (1, 2)])), vec![vec![0, 1], vec![2]]);
}

#[test]
fn chains_are_ordered_by_precedence_not_by_index() {
    assert_eq!(preprocess(&instance(3, &[(2, 1), (1, 0), (2, 0)])), vec![vec![2, 1, 0]]);
    assert_eq!(preprocess(&instance(4, &[(1, 0), (3, 2)])), vec![vec![1, 0], vec![3, 2]]);
}

#[test]
fn a_job_joins_the_first_chain_that_takes_it() {
    // 2 is comparable to 0 and to 1, which stand in different chains
    assert_eq!(preprocess(&instance(3, &[(0, 2), (1, 2)])), vec![vec![0, 2], vec![1]]);
}

#[test]
fn the_chains_hold_every_job_once() {
    let given = instance(6, &[(0, 3), (3, 5), (0, 5), (1, 4), (2, 4)]);
    let chains = preprocess(&given);
    let mut seen: Vec<usize> = chains.iter().flatten().copied().collect();
    seen.sort();
    assert_eq!(seen, vec![0, 1, 2, 3, 4, 5]);
    for chain in &chains {
        for a in 0..chain.len() {
            for b in a + 1..chain.len() {
                assert!(given.constraints.iter().any(|c| c.0 == chain[a] && c.1 == chain[b]));
            }
        }
    }
    assert_eq!(chains, vec![vec![0, 3, 5], vec![1, 4], vec![2]]);
}

#[test]
fn sorting_a_chain_orders_it() {
    let given = instance(4, &[(3, 1), (1, 0), (3, 0)]);
    assert_eq!(sort_chain(&given, &vec![0, 1, 3]), Ok(vec![3, 1, 0]));
    assert_eq!(sort_chain(&given, &vec![1]), Ok(vec![1]));
    assert_eq!(sort_chain(&given, &vec![]), Ok(vec![]));
}

#[test]
fn sorting_a_chain_with_incomparable_jobs_fails() {
    let given = instance(3, &[(0, 1), (1, 2)]);
    assert_eq!(sort_chain(&given, &vec![0, 1, 2]), Err(SchedulingError::IncomparableInChain));
    assert_eq!(sort_chain(&given, &vec![1, 1]), Err(SchedulingError::IncomparableInChain));
}
