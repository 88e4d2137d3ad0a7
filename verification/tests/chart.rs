use malleable::algo::{Job, Schedule, ScheduledJob};
use malleable::render::{
    assign_processors, document_size, free_processors, job_box, latest_completion, machine_header, order_by_start,
    time_scale,
};

fn placed(index: usize, times: &[i32], allotment: usize, start_time: i32) -> ScheduledJob {
    ScheduledJob { job: Job { index, processing_times: times.to_vec() }, allotment, start_time }
}

fn chart() -> Schedule {
    Schedule {
        processor_count: 3,
        jobs: vec![
            placed(0, &[9, 5, 4], 1, 2),
            placed(1, &[8, 6, 4], 2, 0),
            placed(2, &[3, 3, 3], 1, 0),
            placed(3, &[7, 2, 1], 2, 6),
        ],
    }
}

#[test]
fn the_latest_completion_time() {
    assert_eq!(latest_completion(&chart()), 11);
    assert_eq!(latest_completion(&Schedule { processor_count: 2, jobs: vec![] }), 0);
    let early = Schedule { processor_count: 1, jobs: vec![placed(0, &[2], 1, -9)] };
    assert_eq!(latest_completion(&early), -7);
}

#[test]
fn jobs_are_drawn_by_start_time() {
    assert_eq!(order_by_start(&vec![2, 0, 0, 6]), vec![1, 2, 0, 3]);
    assert_eq!(order_by_start(&vec![5, 5, 5]), vec![0, 1, 2]);
    assert_eq!(order_by_start(&vec![3, 2, 1, 2, 3]), vec![2, 1, 3, 0, 4]);
    assert_eq!(order_by_start(&vec![]), Vec::<usize>::new());
}

#[test]
fn the_first_free_processors_are_taken() {
    assert_eq!(free_processors(&vec![0, 5, 3, 9, 1], 3, 2), vec![0, 2]);
    assert_eq!(free_processors(&vec![0, 5, 3, 9, 1], 3, 3), vec![0, 2, 4]);
    assert_eq!(free_processors(&vec![0, 5, 3, 9, 1], 3, 4), vec![0, 2, 4]);
    assert_eq!(free_processors(&vec![0, 5, 3, 9, 1], 3, 0), Vec::<usize>::new());
    assert_eq!(free_processors(&vec![4, 4], 3, 1), Vec::<usize>::new());
}

#[test]
fn each_job_gets_processors_that_are_free() {
    let schedule = chart();
    let order = order_by_start(&schedule.jobs.iter().map(|j| j.start_time).collect());
    // jobs 1 and 2 at 0, job 0 at 2 has to wait for job 2 on processor 2
    assert_eq!(assign_processors(&schedule, &order), None);
    let mut schedule = chart();
    schedule.jobs[0].start_time = 3;
    let order = order_by_start(&schedule.jobs.iter().map(|j| j.start_time).collect());
    assert_eq!(order, vec![1, 2, 0, 3]);
    assert_eq!(assign_processors(&schedule, &order), Some(vec![vec![0, 1], vec![2], vec![2], vec![0, 1]]));
}

#[test]
fn boxes_stand_in_their_column() {
    let made = job_box(0, 0, 4).unwrap();
    assert_eq!((made.x, made.y, made.width, made.height), (70, 70, 150, 60));
    let made = job_box(2, 3, 1).unwrap();
    assert_eq!((made.x, made.y, made.width, made.height), (390, 115, 150, 15));
    assert!(job_box(0, -1, 4).is_none());
    assert!(job_box(0, 1, -4).is_none());
    assert!(job_box(usize::MAX, 1, 4).is_none());
    assert_eq!(machine_header(0), Some(145));
    assert_eq!(machine_header(3), Some(625));
    assert_eq!(machine_header(usize::MAX), None);
}

#[test]
fn the_chart_holds_the_columns_and_the_time() {
    assert_eq!(document_size(1, 0), Some((250, 90)));
    assert_eq!(document_size(3, 11), Some((570, 255)));
    assert_eq!(document_size(0, 11), None);
    assert_eq!(document_size(usize::MAX, 1), None);
    assert_eq!(document_size(1, usize::MAX), None);
}

#[test]
fn every_fifth_instant_and_the_last_are_labelled() {
    let ticks = time_scale(11).unwrap();
    assert_eq!(ticks.len(), 12);
    let labelled: Vec<usize> = ticks.iter().filter(|t| t.labelled).map(|t| t.time).collect();
    assert_eq!(labelled, vec![0, 5, 10, 11]);
    let long: Vec<usize> = ticks.iter().filter(|t| t.length == 10).map(|t| t.time).collect();
    assert_eq!(long, vec![0, 5, 10]);
    assert!(ticks.iter().all(|t| t.length == 10 || t.length == 5));
    assert_eq!(ticks[0].y, 70);
    assert_eq!(ticks[11].y, 70 + 11 * 15);
    let ticks = time_scale(0).unwrap();
    assert_eq!(ticks.len(), 1);
    assert!(ticks[0].labelled);
    assert!(time_scale(usize::MAX).is_none());
}

#[test]
fn the_file_of_a_schedule_is_named_after_both_files() {
    assert_eq!(
        malleable::render::generate_filename("jobs", "constraints"),
        "./schedules/jobs_constraints_schedule.svg"
    );
    assert_eq!(malleable::render::generate_filename("", "a.b"), "./schedules/_a.b_schedule.svg");
}
