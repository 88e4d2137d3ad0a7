//! The layout of a schedule as a chart: one column per processor, time
//! running down, one box per job and processor.

use vstd::prelude::*;
use vstd::string::*;
use crate::algo::{Schedule, ScheduledJob};

verus! {

/// The width of the time scale, in pixels.
pub const SCALE_MARGIN: usize = 50;

/// Where the first column starts.
pub const LEFT_MARGIN: usize = SCALE_MARGIN + 20;

/// Where the names of the processors stand.
pub const TOP_HEADER_MARGIN: usize = 50;

/// Where the columns start.
pub const TOP_MARGIN: usize = TOP_HEADER_MARGIN + 20;

/// The space to the right of the last column.
pub const RIGHT_MARGIN: usize = 30;

/// The space below the columns.
pub const BOTTOM_MARGIN: usize = 20;

/// The width of a column.
pub const MACHINE_WIDTH: usize = 150;

/// The height of one unit of time.
pub const MACHINE_HEIGHT_SCALE: usize = 15;

/// The space between two columns.
pub const MACHINE_SPACING: usize = 10;

/// The latest completion time of the first `upto` jobs, 0 for none.
pub open spec fn latest_upto(jobs: Seq<ScheduledJob>, upto: int) -> int
    decreases upto,
{
    if upto <= 0 {
        0
    } else if upto == 1 || jobs[upto - 1]@.completion() > latest_upto(jobs, upto - 1) {
        jobs[upto - 1]@.completion()
    } else {
        latest_upto(jobs, upto - 1)
    }
}

/// Every job has an allotment for which it has a processing time, and its
/// completion time fits 32 bits.
pub open spec fn timed(jobs: Seq<ScheduledJob>) -> bool {
    forall|k: int|
        0 <= k < jobs.len() ==> 1 <= (#[trigger] jobs[k])@.allotment <= jobs[k]@.job.times.len()
            && i32::MIN <= jobs[k]@.completion() <= i32::MAX
}

/// The latest completion time, 0 for a schedule without jobs.
pub fn latest_completion(schedule: &Schedule) -> (latest: i32)
    requires
        timed(schedule.jobs@),
    ensures
        latest == latest_upto(schedule.jobs@, schedule.jobs.len() as int),
{
    let mut latest: i32 = 0;
    let mut k: usize = 0;
    while k < schedule.jobs.len()
        invariant
            k <= schedule.jobs.len(),
            timed(schedule.jobs@),
            latest == latest_upto(schedule.jobs@, k as int),
        decreases schedule.jobs.len() - k,
    {
        let done = schedule.jobs[k].completion_time();
        if k == 0 || done > latest {
            latest = done;
        }
        k += 1;
    }
    latest
}

/// Job `a` is drawn before job `b`: it starts earlier, or at the same time
/// and stands earlier in the schedule.
pub open spec fn drawn_before(starts: Seq<i32>, a: int, b: int) -> bool {
    starts[a] < starts[b] || (starts[a] == starts[b] && a < b)
}

/// The order lists the jobs by start time, jobs of one start time as they
/// stand in the schedule.
pub open spec fn by_start(starts: Seq<i32>, order: Seq<usize>) -> bool {
    &&& order.len() == starts.len()
    &&& forall|k: int| 0 <= k < order.len() ==> #[trigger] order[k] < starts.len()
    &&& forall|a: int, b: int|
        0 <= a < b < order.len() ==> drawn_before(starts, #[trigger] order[a] as int, #[trigger] order[b] as int)
    &&& forall|j: int| 0 <= j < starts.len() ==> #[trigger] order.contains(j as usize)
}

/// The jobs by start time, jobs of one start time as they stand.
pub fn order_by_start(starts: &Vec<i32>) -> (order: Vec<usize>)
    ensures
        by_start(starts@, order@),
{
    let mut order: Vec<usize> = Vec::new();
    let mut j: usize = 0;
    while j < starts.len()
        invariant
            j <= starts.len(),
            order.len() == j,
            forall|k: int| 0 <= k < order.len() ==> #[trigger] order[k] < j,
            forall|a: int, b: int|
                0 <= a < b < order.len() ==> drawn_before(
                    starts@,
                    #[trigger] order[a] as int,
                    #[trigger] order[b] as int,
                ),
            forall|i: int| 0 <= i < j ==> #[trigger] order@.contains(i as usize),
        decreases starts.len() - j,
    {
        let mut at: usize = order.len();
        while at > 0 && starts[order[at - 1]] > starts[j]
            invariant
                at <= order.len(),
                order.len() == j,
                j < starts.len(),
                forall|k: int| 0 <= k < order.len() ==> #[trigger] order[k] < j,
                forall|k: int| at <= k < order.len() ==> starts[#[trigger] order[k] as int] > starts[j as int],
            decreases at,
        {
            at -= 1;
        }
        let ghost before = order@;
        order.insert(at, j);
        proof {
            assert forall|a: int, b: int| 0 <= a < b < order.len() implies drawn_before(
                starts@,
                #[trigger] order[a] as int,
                #[trigger] order[b] as int,
            ) by {
                if b < at {
                    assert(order[a] == before[a] && order[b] == before[b]);
                } else if b == at {
                    assert(order[a] == before[a]);
                    if at > 0 {
                        assert(starts[before[at - 1] as int] <= starts[j as int]);
                        if a < at - 1 {
                            assert(drawn_before(starts@, before[a] as int, before[at - 1] as int));
                        }
                    }
                } else if a == at {
                    assert(order[b] == before[b - 1]);
                } else if a < at {
                    assert(order[a] == before[a] && order[b] == before[b - 1]);
                } else {
                    assert(order[a] == before[a - 1] && order[b] == before[b - 1]);
                }
            }
            assert forall|i: int| 0 <= i < j + 1 implies #[trigger] order@.contains(i as usize) by {
                if i == j {
                    assert(order@[at as int] == j);
                } else {
                    assert(before.contains(i as usize));
                    let k = choose|k: int| 0 <= k < before.len() && before[k] == i as usize;
                    if k < at {
                        assert(order@[k] == i as usize);
                    } else {
                        assert(order@[k + 1] == i as usize);
                    }
                }
            }
            assert forall|k: int| 0 <= k < order.len() implies #[trigger] order[k] < j + 1 by {
                if k < at {
                    assert(order[k] == before[k]);
                } else if k > at {
                    assert(order[k] == before[k - 1]);
                }
            }
        }
        j += 1;
    }
    order
}

/// The first `count` processors from `from` on that are free by `start`, or
/// as many as there are.
pub open spec fn first_free(used: Seq<i32>, start: int, count: int, from: int) -> Seq<int>
    decreases used.len() - from,
{
    if count <= 0 || from >= used.len() {
        Seq::empty()
    } else if used[from] <= start {
        seq![from] + first_free(used, start, count - 1, from + 1)
    } else {
        first_free(used, start, count, from + 1)
    }
}

/// The processors in a list as mathematical integers.
pub open spec fn processors_of(list: Seq<usize>) -> Seq<int> {
    Seq::new(list.len(), |k: int| list[k] as int)
}

/// The first `count` processors that are free by `start`, or as many as
/// there are; `used[q]` is the instant until which processor `q` is held.
pub fn free_processors(used: &Vec<i32>, start: i32, count: usize) -> (found: Vec<usize>)
    ensures
        processors_of(found@) == first_free(used@, start as int, count as int, 0),
        found.len() <= count,
        forall|k: int| 0 <= k < found.len() ==> #[trigger] found[k] < used.len(),
{
    let mut found: Vec<usize> = Vec::new();
    let mut q: usize = 0;
    assert(processors_of(found@) + first_free(used@, start as int, count as int, 0) =~= first_free(
        used@,
        start as int,
        count as int,
        0,
    ));
    while q < used.len() && found.len() < count
        invariant
            q <= used.len(),
            found.len() <= count,
            forall|k: int| 0 <= k < found.len() ==> #[trigger] found[k] < used.len(),
            processors_of(found@) + first_free(used@, start as int, count - found.len(), q as int)
                == first_free(used@, start as int, count as int, 0),
        decreases used.len() - q,
    {
        let ghost before = processors_of(found@);
        let ghost left = count - found.len();
        if used[q] <= start {
            found.push(q);
            assert(processors_of(found@) =~= before + seq![q as int]);
            assert(processors_of(found@) + first_free(used@, start as int, left - 1, q + 1) =~= before
                + first_free(used@, start as int, left, q as int));
        }
        q += 1;
    }
    assert(processors_of(found@) + first_free(used@, start as int, count - found.len(), q as int)
        =~= processors_of(found@));
    found
}

/// Where the name of processor `i` is centred.
pub open spec fn header_x(i: int) -> int {
    LEFT_MARGIN + i * (MACHINE_WIDTH + MACHINE_SPACING) + MACHINE_WIDTH / 2
}

/// Where the name of processor `i` is centred, if that fits.
pub fn machine_header(i: usize) -> (x: Option<usize>)
    ensures
        x is Some == (header_x(i as int) <= usize::MAX),
        x matches Some(x) ==> x == header_x(i as int),
{
    let column: u128 = 160;
    assert(column == MACHINE_WIDTH + MACHINE_SPACING);
    let x: u128 = LEFT_MARGIN as u128 + i as u128 * column + (MACHINE_WIDTH / 2) as u128;
    if x > usize::MAX as u128 {
        None
    } else {
        Some(x as usize)
    }
}

/// The box of a job on one processor.
pub struct JobBox {
    pub x: usize,
    pub y: usize,
    pub width: usize,
    pub height: usize,
}

/// The box of a job that starts at `start` and runs for `duration` on
/// `processor`: as wide as a column, in the processor's column, from the
/// start down for the duration.
pub open spec fn box_of(processor: int, start: int, duration: int) -> (int, int, int, int) {
    (
        LEFT_MARGIN + processor * (MACHINE_WIDTH + MACHINE_SPACING),
        TOP_MARGIN + start * MACHINE_HEIGHT_SCALE,
        MACHINE_WIDTH as int,
        MACHINE_HEIGHT_SCALE * duration,
    )
}

/// The box fits the machine's integers and starts no earlier than 0.
pub open spec fn box_fits(processor: int, start: int, duration: int) -> bool {
    &&& start >= 0
    &&& duration >= 0
    &&& box_of(processor, start, duration).0 <= usize::MAX
    &&& box_of(processor, start, duration).1 <= usize::MAX
    &&& box_of(processor, start, duration).3 <= usize::MAX
}

/// The box of a job on one processor, if it fits.
pub fn job_box(processor: usize, start: i32, duration: i32) -> (made: Option<JobBox>)
    ensures
        made is Some == box_fits(processor as int, start as int, duration as int),
        made matches Some(b) ==> (b.x as int, b.y as int, b.width as int, b.height as int) == box_of(
            processor as int,
            start as int,
            duration as int,
        ),
{
    if start < 0 || duration < 0 {
        return None;
    }
    let column: u128 = 160;
    let unit: u128 = 15;
    assert(column == MACHINE_WIDTH + MACHINE_SPACING && unit == MACHINE_HEIGHT_SCALE);
    let x: u128 = LEFT_MARGIN as u128 + processor as u128 * column;
    let y: u128 = TOP_MARGIN as u128 + start as u128 * unit;
    let height: u128 = unit * duration as u128;
    if x > usize::MAX as u128 || y > usize::MAX as u128 || height > usize::MAX as u128 {
        None
    } else {
        Some(JobBox { x: x as usize, y: y as usize, width: MACHINE_WIDTH, height: height as usize })
    }
}

/// The size of the chart for `m` processors and a latest completion time.
pub open spec fn chart_size(m: int, latest: int) -> (int, int) {
    (
        LEFT_MARGIN + m * (MACHINE_WIDTH + MACHINE_SPACING) - MACHINE_SPACING + RIGHT_MARGIN,
        TOP_MARGIN + latest * MACHINE_HEIGHT_SCALE + BOTTOM_MARGIN,
    )
}

/// The width and the height of the chart, if there is a processor and the
/// size fits.
pub fn document_size(m: usize, latest: usize) -> (size: Option<(usize, usize)>)
    ensures
        size is Some == (m >= 1 && chart_size(m as int, latest as int).0 <= usize::MAX && chart_size(
            m as int,
            latest as int,
        ).1 <= usize::MAX),
        size matches Some(size) ==> (size.0 as int, size.1 as int) == chart_size(m as int, latest as int),
{
    if m < 1 {
        return None;
    }
    let column: u128 = 160;
    let unit: u128 = 15;
    assert(column == MACHINE_WIDTH + MACHINE_SPACING && unit == MACHINE_HEIGHT_SCALE);
    let width: u128 = LEFT_MARGIN as u128 + m as u128 * column - MACHINE_SPACING as u128
        + RIGHT_MARGIN as u128;
    let height: u128 = TOP_MARGIN as u128 + latest as u128 * unit + BOTTOM_MARGIN as u128;
    if width > usize::MAX as u128 || height > usize::MAX as u128 {
        None
    } else {
        Some((width as usize, height as usize))
    }
}

/// A mark on the time scale.
pub struct Tick {
    /// The instant marked.
    pub time: usize,
    /// How far down the mark stands.
    pub y: usize,
    /// How long the mark is: 10 for every fifth instant, else 5.
    pub length: usize,
    /// The mark bears its instant: every fifth does, and the last.
    pub labelled: bool,
}

/// The mark of instant `t` on a scale that ends at `last`.
pub open spec fn tick_of(t: int, last: int) -> (int, int, int, bool) {
    (
        t,
        TOP_MARGIN + t * MACHINE_HEIGHT_SCALE,
        if t % 5 == 0 {
            10
        } else {
            5
        },
        t % 5 == 0 || t == last,
    )
}

/// The marks of the time scale from 0 to `last`, if they fit.
pub fn time_scale(last: usize) -> (ticks: Option<Vec<Tick>>)
    ensures
        ticks is Some == (TOP_MARGIN + last * MACHINE_HEIGHT_SCALE <= usize::MAX && last < usize::MAX),
        ticks matches Some(ticks) ==> ticks.len() == last + 1 && forall|t: int|
            0 <= t <= last ==> ((#[trigger] ticks[t]).time as int, ticks[t].y as int, ticks[t].length as int, ticks[t].labelled)
                == tick_of(t, last as int),
{
    let unit: u128 = 15;
    assert(unit == MACHINE_HEIGHT_SCALE);
    let end: u128 = TOP_MARGIN as u128 + last as u128 * unit;
    if end > usize::MAX as u128 || last == usize::MAX {
        return None;
    }
    let mut ticks: Vec<Tick> = Vec::new();
    let mut t: usize = 0;
    while t <= last
        invariant
            t <= last + 1,
            last < usize::MAX,
            TOP_MARGIN + last * MACHINE_HEIGHT_SCALE <= usize::MAX,
            ticks.len() == t,
            forall|u: int|
                0 <= u < t ==> ((#[trigger] ticks[u]).time as int, ticks[u].y as int, ticks[u].length as int, ticks[u].labelled)
                    == tick_of(u, last as int),
        decreases last + 1 - t,
    {
        let big = t % 5 == 0;
        assert(t * 15 <= last * 15);
        ticks.push(
            Tick {
                time: t,
                y: TOP_MARGIN + t * 15,
                length: if big {
                    10
                } else {
                    5
                },
                labelled: big || t == last,
            },
        );
        t += 1;
    }
    Some(ticks)
}


/// The instants until which the processors are held once those of `taken`
/// are held until `until`.
pub open spec fn held_after(used: Seq<i32>, taken: Seq<int>, until: i32) -> Seq<i32> {
    Seq::new(used.len(), |q: int| if taken.contains(q) {
        until
    } else {
        used[q]
    })
}

/// The instants until which the `m` processors are held after the first
/// `upto` jobs of the order are drawn, each on the first processors that are
/// free when it starts.
pub open spec fn used_after(jobs: Seq<ScheduledJob>, m: int, order: Seq<usize>, upto: int) -> Seq<i32>
    decreases upto, 0int,
{
    if upto <= 0 {
        Seq::new(m as nat, |q: int| 0i32)
    } else {
        let job = jobs[order[upto - 1] as int];
        held_after(
            used_after(jobs, m, order, upto - 1),
            drawn_on(jobs, m, order, upto - 1),
            job@.completion() as i32,
        )
    }
}

/// The processors on which job `k` of the order is drawn: the first of its
/// allotment that are free when it starts, or as many as there are.
pub open spec fn drawn_on(jobs: Seq<ScheduledJob>, m: int, order: Seq<usize>, k: int) -> Seq<int>
    decreases k, 1int,
{
    if k < 0 {
        Seq::empty()
    } else {
        let job = jobs[order[k] as int];
        first_free(used_after(jobs, m, order, k), job@.start, job@.allotment, 0)
    }
}

/// Every job finds as many free processors as it is allotted.
pub open spec fn drawable(jobs: Seq<ScheduledJob>, m: int, order: Seq<usize>) -> bool {
    forall|k: int|
        0 <= k < order.len() ==> (#[trigger] drawn_on(jobs, m, order, k)).len() == jobs[order[k] as int]@.allotment
}

/// The processors on which each job of the order is drawn, if every job
/// finds as many free processors as it is allotted.
pub fn assign_processors(schedule: &Schedule, order: &Vec<usize>) -> (assigned: Option<Vec<Vec<usize>>>)
    requires
        timed(schedule.jobs@),
        forall|k: int| 0 <= k < order.len() ==> #[trigger] order[k] < schedule.jobs.len(),
    ensures
        assigned is Some == drawable(schedule.jobs@, schedule.processor_count as int, order@),
        assigned matches Some(rows) ==> rows.len() == order.len() && forall|k: int|
            0 <= k < order.len() ==> processors_of((#[trigger] rows[k])@) == drawn_on(
                schedule.jobs@,
                schedule.processor_count as int,
                order@,
                k,
            ),
{
    let m = schedule.processor_count;
    let ghost jobs = schedule.jobs@;
    let mut used: Vec<i32> = Vec::new();
    while used.len() < m
        invariant
            used.len() <= m,
            forall|q: int| 0 <= q < used.len() ==> #[trigger] used[q] == 0,
        decreases m - used.len(),
    {
        used.push(0);
    }
    assert(used@ =~= used_after(jobs, m as int, order@, 0));
    let mut rows: Vec<Vec<usize>> = Vec::new();
    let mut k: usize = 0;
    while k < order.len()
        invariant
            k <= order.len(),
            m == schedule.processor_count,
            jobs == schedule.jobs@,
            timed(jobs),
            forall|k: int| 0 <= k < order.len() ==> #[trigger] order[k] < schedule.jobs.len(),
            used@ == used_after(jobs, m as int, order@, k as int),
            used.len() == m,
            rows.len() == k,
            forall|l: int|
                0 <= l < k ==> processors_of((#[trigger] rows[l])@) == drawn_on(jobs, m as int, order@, l),
            forall|l: int|
                0 <= l < k ==> (#[trigger] drawn_on(jobs, m as int, order@, l)).len() == jobs[order[l] as int]@.allotment,
        decreases order.len() - k,
    {
        let job = &schedule.jobs[order[k]];
        let found = free_processors(&used, job.start_time, job.allotment);
        assert(processors_of(found@) == drawn_on(jobs, m as int, order@, k as int));
        if found.len() != job.allotment {
            return None;
        }
        let until = job.completion_time();
        let ghost before = used@;
        let mut f: usize = 0;
        while f < found.len()
            invariant
                f <= found.len(),
                used.len() == before.len(),
                forall|l: int| 0 <= l < found.len() ==> #[trigger] found[l] < used.len(),
                forall|q: int|
                    0 <= q < used.len() ==> #[trigger] used[q] == if processors_of(found@).subrange(
                        0,
                        f as int,
                    ).contains(q) {
                        until
                    } else {
                        before[q]
                    },
            decreases found.len() - f,
        {
            let ghost taken = processors_of(found@).subrange(0, f as int);
            let ghost more = processors_of(found@).subrange(0, f + 1);
            used.set(found[f], until);
            proof {
                assert(more =~= taken.push(found[f as int] as int));
                assert forall|q: int| 0 <= q < used.len() implies #[trigger] used[q] == if more.contains(
                    q,
                ) {
                    until
                } else {
                    before[q]
                } by {
                    if q == found[f as int] {
                        assert(more[f as int] == q);
                    } else if taken.contains(q) {
                        let at = choose|at: int| 0 <= at < taken.len() && taken[at] == q;
                        assert(more[at] == q);
                    } else if more.contains(q) {
                        let at = choose|at: int| 0 <= at < more.len() && more[at] == q;
                        assert(taken[at] == q);
                    }
                }
            }
            f += 1;
        }
        assert(processors_of(found@).subrange(0, found.len() as int) =~= processors_of(found@));
        assert(used@ =~= used_after(jobs, m as int, order@, k + 1));
        rows.push(found);
        k += 1;
    }
    Some(rows)
}

/// The name of the file that a schedule is written to: in the directory
/// `schedules`, the stem of the file of jobs, then that of the file of
/// constraints.
pub fn generate_filename(job_stem: &str, constraint_stem: &str) -> (name: String)
    ensures
        name@ == "./schedules/"@ + job_stem@ + "_"@ + constraint_stem@ + "_schedule.svg"@,
{
    let mut name = String::from_str("./schedules/");
    name.append(job_stem);
    name.append("_");
    name.append(constraint_stem);
    name.append("_schedule.svg");
    name
}

} // verus!
