use malleable::error::SchedulingError;
use malleable::ieee::{is_finite, reaches_ratio, round_to_i32};
use malleable::program::{solve, LinearProgram, Row};

#[test]
fn least_value_above_a_bound() {
    let program = LinearProgram {
        lower: vec![-10, 1],
        objective: 0,
        at_most: vec![Row { terms: vec![(0, -1)], bound: -3 }, Row { terms: vec![(1, 2), (0, -1)], bound: 0 }],
        equal: vec![],
    };
    let values = solve(&program).unwrap();
    assert_eq!(values.len(), 2);
    assert_eq!(f64::from_bits(values[0]), 3.0);
    assert_eq!(round_to_i32(values[0]), 3);
}

#[test]
fn equal_rows_are_kept() {
    let program = LinearProgram {
        lower: vec![0, 0],
        objective: 0,
        at_most: vec![Row { terms: vec![(1, 1), (0, -1)], bound: 0 }],
        equal: vec![Row { terms: vec![(1, 2)], bound: 7 }],
    };
    let values = solve(&program).unwrap();
    assert_eq!(f64::from_bits(values[1]), 3.5);
    assert_eq!(f64::from_bits(values[0]), 3.5);
    assert_eq!(round_to_i32(values[0]), 4);
}

#[test]
fn a_program_without_solution_fails() {
    let program = LinearProgram {
        lower: vec![2],
        objective: 0,
        at_most: vec![Row { terms: vec![(0, 1)], bound: 1 }],
        equal: vec![],
    };
    assert_eq!(solve(&program), Err(SchedulingError::SolverFailure));
}

#[test]
fn lower_bounds_hold_the_variables() {
    let program = LinearProgram {
        lower: vec![-7, 4],
        objective: 0,
        at_most: vec![Row { terms: vec![(1, 1), (0, -1)], bound: 9 }],
        equal: vec![],
    };
    let values = solve(&program).unwrap();
    assert_eq!(f64::from_bits(values[0]), -5.0);
    assert_eq!(f64::from_bits(values[1]), 4.0);
}

#[test]
fn rounding_goes_away_from_zero_at_a_half() {
    assert_eq!(round_to_i32(0.5f64.to_bits()), 1);
    assert_eq!(round_to_i32((-0.5f64).to_bits()), -1);
    assert_eq!(round_to_i32(0.49999f64.to_bits()), 0);
    assert_eq!(round_to_i32(2.5f64.to_bits()), 3);
    assert_eq!(round_to_i32((-2.5f64).to_bits()), -3);
    assert_eq!(round_to_i32(1234.4999f64.to_bits()), 1234);
    assert_eq!(round_to_i32(0.0f64.to_bits()), 0);
    assert_eq!(round_to_i32(1e300f64.to_bits()), i32::MAX);
    assert_eq!(round_to_i32((-1e300f64).to_bits()), i32::MIN);
    assert_eq!(round_to_i32(5e-324f64.to_bits()), 0);
    assert_eq!(round_to_i32(2147483647.4f64.to_bits()), i32::MAX);
    for k in 0..2000 {
        let x = (k as f64) * 0.37 - 300.0;
        assert_eq!(round_to_i32(x.to_bits()), x.round() as i32);
    }
}

#[test]
fn ratios_are_compared_exactly() {
    assert!(reaches_ratio(0.5f64.to_bits(), 1, 2));
    assert!(!reaches_ratio(0.4999999f64.to_bits(), 1, 2));
    assert!(reaches_ratio(3.0f64.to_bits(), 430991 * 6, 1000000));
    assert!(!reaches_ratio(2.5f64.to_bits(), 430991 * 6, 1000000));
    assert!(!reaches_ratio((-1.0f64).to_bits(), 1, 1000));
    assert!(!reaches_ratio(0.0f64.to_bits(), 1, 1000));
    assert!(reaches_ratio(1e30f64.to_bits(), 1 << 52, 1));
    assert!(is_finite(1.0f64.to_bits()));
    assert!(!is_finite(f64::NAN.to_bits()));
    assert!(!is_finite(f64::INFINITY.to_bits()));
    for k in 1..500u64 {
        let x = (k as f64) * 0.013;
        assert_eq!(reaches_ratio(x.to_bits(), 430991 * 3, 1000000), x * 1000000.0 >= 430991.0 * 3.0);
    }
}

#[test]
fn a_program_without_rows_takes_the_lower_bounds() {
    let program = LinearProgram { lower: vec![4, -2], objective: 0, at_most: vec![], equal: vec![] };
    let values = solve(&program).unwrap();
    assert_eq!(f64::from_bits(values[0]), 4.0);
}

#[test]
fn rows_without_terms_hold_or_fail_by_their_bound() {
    let holds = LinearProgram {
        lower: vec![1],
        objective: 0,
        at_most: vec![Row { terms: vec![], bound: 0 }],
        equal: vec![Row { terms: vec![], bound: 0 }],
    };
    assert_eq!(f64::from_bits(solve(&holds).unwrap()[0]), 1.0);
    let fails = LinearProgram {
        lower: vec![1],
        objective: 0,
        at_most: vec![Row { terms: vec![], bound: -1 }],
        equal: vec![],
    };
    assert_eq!(solve(&fails), Err(SchedulingError::SolverFailure));
    let unequal = LinearProgram {
        lower: vec![1],
        objective: 0,
        at_most: vec![],
        equal: vec![Row { terms: vec![(0, 0)], bound: 3 }],
    };
    assert_eq!(solve(&unequal), Err(SchedulingError::SolverFailure));
}

#[test]
fn a_variable_named_twice_in_a_row_counts_twice() {
    let program = LinearProgram {
        lower: vec![0, 0],
        objective: 0,
        at_most: vec![Row { terms: vec![(0, -1), (0, -1), (1, 1)], bound: 0 }],
        equal: vec![Row { terms: vec![(1, 1)], bound: 6 }],
    };
    let values = solve(&program).unwrap();
    assert_eq!(f64::from_bits(values[0]), 3.0);
    assert_eq!(f64::from_bits(values[1]), 6.0);
}

#[test]
fn large_coefficients_and_bounds_are_taken() {
    let program = LinearProgram {
        lower: vec![i32::MIN, i32::MAX],
        objective: 0,
        at_most: vec![Row { terms: vec![(0, -1), (1, 1)], bound: i32::MIN }],
        equal: vec![],
    };
    let values = solve(&program).unwrap();
    assert_eq!(f64::from_bits(values[0]), 2.0 * i32::MAX as f64 + 1.0);
}
