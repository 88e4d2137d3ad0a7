use malleable::algo::Constraint;
use malleable::algo::Job;
use malleable::generate::{
    assemble, chain_constraints, concave_times, constraints, constraints_from, ensure_slice_size, instance, jobs,
    jobs_concave, sort_rising,
};

fn pairs(constraints: &[Constraint]) -> Vec<(usize, usize)> {
    constraints.iter().map(|c| (c.0, c.1)).collect()
}

#[test]
fn concave_times_fall_as_one_over_the_processors_up_to_the_cutoff() {
    assert_eq!(concave_times(60, 3, 5), vec![60, 30, 20, 20, 20]);
    assert_eq!(concave_times(7, 1, 3), vec![7, 7, 7]);
    assert_eq!(concave_times(7, 9, 4), vec![7, 3, 2, 1]);
    assert_eq!(concave_times(2, 4, 4), vec![2, 1, 0, 0]);
    assert!(concave_times(9, 2, 0).is_empty());
}

#[test]
fn random_jobs_keep_to_their_range() {
    let made = jobs(40, 6, 3, 9);
    assert_eq!(made.len(), 40);
    let mut seen = std::collections::BTreeSet::new();
    for (j, job) in made.iter().enumerate() {
        assert_eq!(job.index, j);
        assert_eq!(job.processing_times.len(), 6);
        for &time in &job.processing_times {
            assert!(3 <= time && time < 9);
            seen.insert(time);
        }
    }
    // 240 draws from six values: more than one of them is seen
    assert!(seen.len() > 1);
    assert!(jobs(0, 3, 1, 2).is_empty());
    assert_eq!(jobs(2, 3, 5, 6)[1].processing_times, vec![5, 5, 5]);
}

#[test]
fn concave_jobs_have_a_time_and_a_cutoff() {
    let made = jobs_concave(30, 5, 10, 50);
    assert_eq!(made.len(), 30);
    for (j, job) in made.iter().enumerate() {
        assert_eq!(job.index, j);
        let time = job.processing_times[0];
        assert!(10 <= time && time < 50);
        assert!((1..=5).any(|cutoff| job.processing_times == concave_times(time, cutoff, 5)));
    }
}

#[test]
fn chains_are_cut_at_the_cuts() {
    assert_eq!(pairs(&chain_constraints(5, &vec![2])), vec![(0, 1), (2, 3), (2, 4), (3, 4)]);
    assert_eq!(pairs(&chain_constraints(4, &vec![])), vec![(0, 1), (0, 2), (0, 3), (1, 2), (1, 3), (2, 3)]);
    assert_eq!(pairs(&chain_constraints(6, &vec![1, 3, 5])), vec![(1, 2), (3, 4)]);
    assert_eq!(pairs(&chain_constraints(3, &vec![3])), vec![(0, 1), (0, 2), (1, 2)]);
    assert_eq!(pairs(&chain_constraints(4, &vec![3, 1])), vec![(0, 1), (0, 2), (1, 2), (1, 2), (1, 3), (2, 3)]);
    assert!(chain_constraints(1, &vec![]).is_empty());
    assert!(chain_constraints(0, &vec![]).is_empty());
}

#[test]
fn sorting_keeps_the_values() {
    assert_eq!(sort_rising(&vec![5, 1, 4, 1, 9, 0]), vec![0, 1, 1, 4, 5, 9]);
    assert_eq!(sort_rising(&vec![]), Vec::<usize>::new());
    assert_eq!(sort_rising(&vec![7]), vec![7]);
}

#[test]
fn values_are_spaced() {
    let mut values = vec![1, 2, 9];
    // room after the first value: max(4, 2 * 3) = 6, after the second: max(4, 2 * 2) = 4
    assert!(ensure_slice_size(&mut values, 2, 4));
    assert_eq!(values, vec![1, 3, 7]);
    let mut values = vec![3, 4, 5, 6];
    assert!(ensure_slice_size(&mut values, 1, 1));
    assert_eq!(values, vec![3, 4, 5, 6]);
    let mut values = vec![3, 3, 3];
    assert!(ensure_slice_size(&mut values, 2, 9));
    assert_eq!(values, vec![3, 5, 7]);
    let mut values = vec![0, 100];
    // room after the first value: max(3, 1 * 2) = 3
    assert!(ensure_slice_size(&mut values, 1, 3));
    assert_eq!(values, vec![0, 3]);
}

#[test]
fn values_that_cannot_be_spaced_are_refused() {
    // the last two values end up 6 apart, more than the 5 allowed
    let mut values = vec![0, 1, 20];
    assert!(!ensure_slice_size(&mut values, 3, 5));
    let mut values = vec![usize::MAX - 1, 0];
    assert!(!ensure_slice_size(&mut values, 2, 5));
}

#[test]
fn a_value_below_the_one_before_it_is_moved_up() {
    let mut values = vec![4, 2];
    assert!(ensure_slice_size(&mut values, 0, 5));
    assert_eq!(values, vec![4, 4]);
    let mut values = vec![4, 2, 3];
    assert!(ensure_slice_size(&mut values, 1, 1));
    assert_eq!(values, vec![4, 5, 6]);
}

#[test]
fn random_constraints_make_chains() {
    let mut made = 0;
    for _ in 0..200 {
        if let Some(found) = constraints(12, 3, 1, 12) {
            made += 1;
            let all = pairs(&found);
            for &(a, b) in &all {
                assert!(a < b && b < 12);
            }
            // a chain is a run of successive jobs, each before all later ones
            for &(a, b) in &all {
                for between in a + 1..b {
                    assert!(all.contains(&(a, between)));
                    assert!(all.contains(&(between, b)));
                }
            }
            let alone = (0..12).filter(|j| all.iter().all(|&(a, b)| a != *j && b != *j)).count();
            let starts = (0..12).filter(|j| all.iter().any(|&(a, _)| a == *j) && all.iter().all(|&(_, b)| b != *j)).count();
            assert_eq!(alone + starts, 3);
        }
    }
    assert!(made > 0);
}

#[test]
fn the_cuts_are_shuffled() {
    // eleven places for two cuts: the same cuts two hundred times over would
    // mean that nothing is shuffled
    let mut seen = std::collections::BTreeSet::new();
    for _ in 0..200 {
        if let Some(found) = constraints(12, 3, 1, 12) {
            seen.insert(pairs(&found));
        }
    }
    assert!(seen.len() > 1);
}

#[test]
fn random_instances_are_well_formed() {
    let mut made = 0;
    for round in 0..200 {
        let concave = round % 2 == 0;
        if let Some(found) = instance(10, 4, 20, 60, 3, 1, 10, concave) {
            made += 1;
            assert_eq!(found.validate(), Ok(()));
            assert_eq!(found.processor_count, 4);
            assert_eq!(found.jobs.len(), 10);
            assert_eq!(found.max_time, 600);
            for job in &found.jobs {
                assert!(20 <= job.processing_times[0] && job.processing_times[0] < 60);
                if concave {
                    assert!(job.processing_times.windows(2).all(|w| w[0] >= w[1]));
                }
            }
            assert!(found.constraints.iter().all(|c| c.0 < c.1 && c.1 < 10));
        }
    }
    assert!(made > 0);
}

#[test]
fn shuffled_places_give_the_cuts() {
    // cuts 7 and 3: in rising order 3 and 7, chains 0..3, 3..7 and 7..9
    let made = constraints_from(9, 3, 1, 9, &vec![7, 3, 5, 1, 2, 4, 6, 8]).unwrap();
    assert_eq!(pairs(&made), pairs(&chain_constraints(9, &vec![3, 7])));
    // cuts 1 and 2 are moved apart: 1 and 4
    let made = constraints_from(9, 3, 3, 9, &vec![2, 1, 5, 3, 4, 6, 7, 8]).unwrap();
    assert_eq!(pairs(&made), pairs(&chain_constraints(9, &vec![1, 4])));
    // cuts 1 and 8 are moved together: 1 and 3
    let made = constraints_from(9, 3, 1, 2, &vec![8, 1, 5, 3, 4, 6, 7, 2]).unwrap();
    assert_eq!(pairs(&made), pairs(&chain_constraints(9, &vec![1, 3])));
    // cuts 1 and 8 end up 6 apart, more than the 5 allowed
    assert!(constraints_from(9, 3, 3, 5, &vec![8, 1, 5, 3, 4, 6, 7, 2]).is_none());
    // four chains from three cuts
    let made = constraints_from(6, 4, 1, 6, &vec![5, 1, 3, 2, 4]).unwrap();
    assert_eq!(pairs(&made), vec![(1, 2), (3, 4)]);
}

#[test]
fn an_instance_is_assembled_if_it_is_well_formed() {
    let two = || vec![
        Job { index: 0, processing_times: vec![4, 2] },
        Job { index: 1, processing_times: vec![6, 3] },
    ];
    let made = assemble(2, two(), vec![Constraint(0, 1)], 12).unwrap();
    assert_eq!(made.processor_count, 2);
    assert_eq!(made.jobs.len(), 2);
    assert_eq!(made.jobs[1].processing_times, vec![6, 3]);
    assert_eq!(pairs(&made.constraints), vec![(0, 1)]);
    assert_eq!(made.max_time, 12);
    assert!(assemble(2, two(), vec![Constraint(0, 1), Constraint(1, 0)], 12).is_none());
    assert!(assemble(2, two(), vec![Constraint(0, 2)], 12).is_none());
    assert!(assemble(3, two(), vec![], 12).is_none());
    assert!(assemble(2, vec![], vec![], 0).is_none());
}
