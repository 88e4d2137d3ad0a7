use malleable::algo::{Constraint, Instance, Job};
use malleable::error::SchedulingError;
use malleable::files::{format_number, instance_from_tables, parse_number, read, tables_of};

fn cells(rows: &[&[&str]]) -> Vec<Vec<Vec<u8>>> {
    rows.iter().map(|row| row.iter().map(|cell| cell.as_bytes().to_vec()).collect()).collect()
}

fn text(table: &Vec<Vec<Vec<u8>>>) -> Vec<Vec<String>> {
    table.iter().map(|row| row.iter().map(|cell| String::from_utf8(cell.clone()).unwrap()).collect()).collect()
}

fn pairs(instance: &Instance) -> Vec<(usize, usize)> {
    instance.constraints.iter().map(|c| (c.0, c.1)).collect()
}

fn times(instance: &Instance) -> Vec<Vec<i32>> {
    instance.jobs.iter().map(|j| j.processing_times.clone()).collect()
}

#[test]
fn numbers_are_parsed() {
    assert_eq!(parse_number(&b"0".to_vec()), Some(0));
    assert_eq!(parse_number(&b"42".to_vec()), Some(42));
    assert_eq!(parse_number(&b"-42".to_vec()), Some(-42));
    assert_eq!(parse_number(&b"+42".to_vec()), Some(42));
    assert_eq!(parse_number(&b"007".to_vec()), Some(7));
    assert_eq!(parse_number(&b"2147483647".to_vec()), Some(i32::MAX));
    assert_eq!(parse_number(&b"-2147483648".to_vec()), Some(i32::MIN));
    assert_eq!(parse_number(&b"2147483648".to_vec()), None);
    assert_eq!(parse_number(&b"-2147483649".to_vec()), None);
    assert_eq!(parse_number(&b"99999999999999999999999".to_vec()), None);
    assert_eq!(parse_number(&b"".to_vec()), None);
    assert_eq!(parse_number(&b"-".to_vec()), None);
    assert_eq!(parse_number(&b"+".to_vec()), None);
    assert_eq!(parse_number(&b" 1".to_vec()), None);
    assert_eq!(parse_number(&b"1 ".to_vec()), None);
    assert_eq!(parse_number(&b"1.5".to_vec()), None);
    assert_eq!(parse_number(&b"--1".to_vec()), None);
    assert_eq!(parse_number(&b"1a".to_vec()), None);
    for text in ["0", "-0", "+17", "0012", "x", "", "-", "3000000000", "12 "] {
        assert_eq!(parse_number(&text.as_bytes().to_vec()), text.parse::<i32>().ok());
    }
}

#[test]
fn numbers_are_written_in_decimal() {
    assert_eq!(format_number(0), b"0".to_vec());
    assert_eq!(format_number(7), b"7".to_vec());
    assert_eq!(format_number(10), b"10".to_vec());
    assert_eq!(format_number(-305), b"-305".to_vec());
    assert_eq!(format_number(i32::MAX), b"2147483647".to_vec());
    assert_eq!(format_number(i32::MIN), b"-2147483648".to_vec());
    for value in [-100000, -999, -1, 1, 9, 99, 100, 123456789] {
        assert_eq!(format_number(value), value.to_string().into_bytes());
        assert_eq!(parse_number(&format_number(value)), Some(value));
    }
}

#[test]
fn tables_describe_an_instance() {
    let jobs = cells(&[&["id", "p1", "p2"], &["10", "4", "2"], &["20", "6", "3"], &["30", "5", "5"]]);
    let constraints = cells(&[&["id0", "id1"], &["30", "10"], &["20", "10"]]);
    let instance = instance_from_tables(&jobs, &constraints).unwrap();
    assert_eq!(instance.processor_count, 2);
    assert_eq!(times(&instance), vec![vec![4, 2], vec![6, 3], vec![5, 5]]);
    assert_eq!(instance.jobs.iter().map(|j| j.index).collect::<Vec<_>>(), vec![0, 1, 2]);
    assert_eq!(pairs(&instance), vec![(2, 0), (1, 0)]);
    assert_eq!(instance.max_time, 18);
}

#[test]
fn an_identifier_names_the_first_job_that_has_it() {
    let jobs = cells(&[&["id", "p1"], &["7", "1"], &["7", "2"], &["8", "3"]]);
    let constraints = cells(&[&["id0", "id1"], &["7", "8"]]);
    let instance = instance_from_tables(&jobs, &constraints).unwrap();
    assert_eq!(pairs(&instance), vec![(0, 2)]);
    assert_eq!(instance.max_time, 9);
}

#[test]
fn tables_that_cannot_be_read_are_refused() {
    let invalid = SchedulingError::InvalidInstance;
    let jobs = cells(&[&["id", "p1"], &["1", "4"], &["2", "6"]]);
    let none = cells(&[&["id0", "id1"]]);
    assert!(instance_from_tables(&jobs, &none).is_ok());
    let check = |jobs: &[&[&str]], constraints: &[&[&str]]| {
        assert_eq!(instance_from_tables(&cells(jobs), &cells(constraints)).unwrap_err(), invalid);
    };
    // no table, no processing time, no first column of identifiers
    check(&[], &[&["id0", "id1"]]);
    check(&[&["id"], &["1"]], &[&["id0", "id1"]]);
    check(&[&["name", "p1"], &["1", "4"]], &[&["id0", "id1"]]);
    // a row of another length, a cell that is no number
    check(&[&["id", "p1"], &["1", "4", "5"]], &[&["id0", "id1"]]);
    check(&[&["id", "p1"], &["1", "four"]], &[&["id0", "id1"]]);
    check(&[&["id", "p1"], &["one", "4"]], &[&["id0", "id1"]]);
    check(&[&["id", "p1"], &["1", "4000000000"]], &[&["id0", "id1"]]);
    // the first row of the constraints, unknown identifiers, too many cells
    check(&[&["id", "p1"], &["1", "4"]], &[]);
    check(&[&["id", "p1"], &["1", "4"]], &[&["id1", "id0"]]);
    check(&[&["id", "p1"], &["1", "4"]], &[&["id0"]]);
    check(&[&["id", "p1"], &["1", "4"], &["2", "6"]], &[&["id0", "id1"], &["1", "3"]]);
    check(&[&["id", "p1"], &["1", "4"], &["2", "6"]], &[&["id0", "id1"], &["3", "1"]]);
    check(&[&["id", "p1"], &["1", "4"], &["2", "6"]], &[&["id0", "id1"], &["1", "x"]]);
    check(&[&["id", "p1"], &["1", "4"], &["2", "6"]], &[&["id0", "id1"], &["1", "2", "1"]]);
    // an instance that is not well formed: no job, a time of 0, a cycle
    check(&[&["id", "p1"]], &[&["id0", "id1"]]);
    check(&[&["id", "p1"], &["1", "0"]], &[&["id0", "id1"]]);
    check(&[&["id", "p1"], &["1", "4"], &["2", "6"]], &[&["id0", "id1"], &["1", "2"], &["2", "1"]]);
    check(&[&["id", "p1"], &["1", "4"]], &[&["id0", "id1"], &["1", "1"]]);
}

#[test]
fn a_time_bound_that_does_not_fit_is_refused() {
    let jobs = cells(&[&["id", "p1"], &["1", "2000000000"], &["2", "6"]]);
    let constraints = cells(&[&["id0", "id1"]]);
    assert_eq!(instance_from_tables(&jobs, &constraints).unwrap_err(), SchedulingError::TooLong);
}

#[test]
fn text_is_read() {
    let jobs = b"id,p1,p2,p3\n5,9,5,4\n6,6,4,3\n".to_vec();
    let constraints = b"id0,id1\n6,5\n".to_vec();
    let instance = read(&jobs, &constraints).unwrap();
    assert_eq!(instance.processor_count, 3);
    assert_eq!(times(&instance), vec![vec![9, 5, 4], vec![6, 4, 3]]);
    assert_eq!(pairs(&instance), vec![(1, 0)]);
    assert_eq!(instance.max_time, 18);
}

#[test]
fn text_with_rows_of_different_length_is_refused() {
    let jobs = b"id,p1,p2\n5,9\n".to_vec();
    let constraints = b"id0,id1\n".to_vec();
    assert_eq!(read(&jobs, &constraints).unwrap_err(), SchedulingError::InvalidInstance);
    let jobs = b"id,p1\n5,9\n".to_vec();
    assert!(read(&jobs, &constraints).is_ok());
    assert_eq!(read(&jobs, &b"id0,id1\n5,5,5\n".to_vec()).unwrap_err(), SchedulingError::InvalidInstance);
    assert_eq!(read(&b"".to_vec(), &constraints).unwrap_err(), SchedulingError::InvalidInstance);
}

#[test]
fn an_instance_becomes_tables() {
    let instance = Instance {
        processor_count: 2,
        jobs: vec![
            Job { index: 0, processing_times: vec![4, 2] },
            Job { index: 1, processing_times: vec![16, -3] },
        ],
        constraints: vec![Constraint(1, 0)],
        max_time: 32,
    };
    let (jobs, constraints) = tables_of(&instance).unwrap();
    assert_eq!(text(&jobs), vec![vec!["id", "p1", "p2"], vec!["0", "4", "2"], vec!["1", "16", "-3"]]);
    assert_eq!(text(&constraints), vec![vec!["id0", "id1"], vec!["1", "0"]]);
}

#[test]
fn what_is_written_can_be_read() {
    let instance = Instance {
        processor_count: 3,
        jobs: vec![
            Job { index: 0, processing_times: vec![12, 7, 5] },
            Job { index: 1, processing_times: vec![9, 5, 4] },
            Job { index: 2, processing_times: vec![6, 4, 3] },
        ],
        constraints: vec![Constraint(0, 2), Constraint(1, 2)],
        max_time: 36,
    };
    let (jobs, constraints) = malleable::files::write(&instance).unwrap();
    assert_eq!(String::from_utf8(jobs.clone()).unwrap(), "id,p1,p2,p3\n0,12,7,5\n1,9,5,4\n2,6,4,3\n");
    assert_eq!(String::from_utf8(constraints.clone()).unwrap(), "id0,id1\n0,2\n1,2\n");
    let back = read(&jobs, &constraints).unwrap();
    assert_eq!(back.processor_count, 3);
    assert_eq!(times(&back), times(&instance));
    assert_eq!(pairs(&back), pairs(&instance));
    assert_eq!(back.max_time, 36);
}

#[test]
fn an_instance_with_a_short_row_is_not_written() {
    let instance = Instance {
        processor_count: 2,
        jobs: vec![
            Job { index: 0, processing_times: vec![4, 2] },
            Job { index: 1, processing_times: vec![16] },
        ],
        constraints: vec![],
        max_time: 32,
    };
    assert!(tables_of(&instance).is_some());
    assert!(malleable::files::write(&instance).is_none());
    let wide = Instance {
        processor_count: 1,
        jobs: vec![Job { index: 0, processing_times: vec![4, 2] }],
        constraints: vec![],
        max_time: 4,
    };
    assert!(malleable::files::write(&wide).is_none());
    let unfit = Instance {
        processor_count: 1,
        jobs: vec![Job { index: 3_000_000_000, processing_times: vec![4] }],
        constraints: vec![],
        max_time: 4,
    };
    assert!(malleable::files::write(&unfit).is_none());
    let plain = Instance {
        processor_count: 1,
        jobs: vec![Job { index: 5, processing_times: vec![-4] }, Job { index: 5, processing_times: vec![0] }],
        constraints: vec![Constraint(9, 9)],
        max_time: 4,
    };
    let (jobs, constraints) = malleable::files::write(&plain).unwrap();
    assert_eq!(String::from_utf8(jobs).unwrap(), "id,p1\n5,-4\n5,0\n");
    assert_eq!(String::from_utf8(constraints).unwrap(), "id0,id1\n9,9\n");
}

#[test]
fn reading_says_why_there_is_no_instance() {
    let none = b"id0,id1\n".to_vec();
    // no job
    assert_eq!(read(&b"id,p1\n".to_vec(), &none).unwrap_err(), SchedulingError::InvalidInstance);
    // a cycle
    let cycle = b"id0,id1\n1,2\n2,1\n".to_vec();
    assert_eq!(
        read(&b"id,p1\n1,4\n2,6\n".to_vec(), &cycle).unwrap_err(),
        SchedulingError::InvalidInstance
    );
    // a constraint on a job that is not there
    assert_eq!(
        read(&b"id,p1\n1,4\n".to_vec(), &b"id0,id1\n1,7\n".to_vec()).unwrap_err(),
        SchedulingError::InvalidInstance
    );
    // two jobs, the slower one 2000000000 long: the time bound does not fit
    assert_eq!(
        read(&b"id,p1\n1,2000000000\n2,6\n".to_vec(), &none).unwrap_err(),
        SchedulingError::TooLong
    );
    // the bound is looked at before the cycle
    assert_eq!(
        read(&b"id,p1\n1,2000000000\n2,6\n".to_vec(), &cycle).unwrap_err(),
        SchedulingError::TooLong
    );
    // tables that cannot be read are invalid, whatever the bound
    assert_eq!(
        read(&b"id,p1\n1,2000000000\n2,x\n".to_vec(), &none).unwrap_err(),
        SchedulingError::InvalidInstance
    );
}
