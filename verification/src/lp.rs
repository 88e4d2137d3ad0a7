//! Scheduling by a linear program over continuous processing times: the
//! program is solved, its virtual processing times are rounded to an
//! allotment, and the list scheduler does the rest.
//!
//! The variables are numbered: the makespan `M`, the total work `W`, then
//! for each job its completion time `C[j]` and its processing time `x[j]`,
//! then for each job and each allotment `i` its virtual processing time
//! `y[j, i]`, then for each job and each allotment `i` below `m` the share
//! `z[j, i]` that the step from `i` to `i + 1` processors adds to the work:
//! `z[j, i] * p[j, i] = (w[j, i + 1] - w[j, i]) * (p[j, i] - y[j, i])`, with
//! the work `w[j, a] = a * p[j, a]`.

use vstd::prelude::*;
use crate::algo::{yields, Instance, InstanceView, Schedule, ScheduleView, single_upto};
use crate::error::SchedulingError;
use crate::critical_path::{critical, critical_length, critical_path_length, float_bound, lemma_critical_covers_jobs, lemma_critical_unique};
use crate::ieee::{finite, reaches, reaches_ratio, round_to_i32, rounded};
use crate::list::{ListInput, horizon_fits, list_input, list_schedule};
use crate::program::{LinearProgram, ProgramView, Row, RowView, all_finite, rows_of, rows_wf, solved_by, solve, whole};

verus! {

/// The rounding threshold, in millionths.
pub const RHO_MILLIONTHS: u64 = 430_991;

/// The number of the makespan.
pub open spec fn makespan_var() -> int {
    0
}

/// The number of the total work.
pub open spec fn work_var() -> int {
    1
}

/// The number of the completion time of job `j`.
pub open spec fn completion_var(j: int) -> int {
    2 + j
}

/// The number of the processing time of job `j`.
pub open spec fn time_var(instance: InstanceView, j: int) -> int {
    2 + instance.jobs.len() + j
}

/// The number of the virtual processing time of job `j` on `i` processors.
pub open spec fn virtual_var(instance: InstanceView, j: int, i: int) -> int {
    2 + 2 * instance.jobs.len() + j * instance.processors + (i - 1)
}

/// The number of the first share.
pub open spec fn share_base(instance: InstanceView) -> int {
    2 + 2 * instance.jobs.len() + instance.jobs.len() * instance.processors
}

/// The number of the share of job `j` for the step from `i` processors.
pub open spec fn share_var(instance: InstanceView, j: int, i: int) -> int {
    share_base(instance) + j * (instance.processors - 1) + (i - 1)
}

/// The number of variables.
pub open spec fn variable_count(instance: InstanceView) -> int {
    share_base(instance) + instance.jobs.len() * (instance.processors - 1)
}

/// The work of job `j` on `a` processors.
pub open spec fn work(instance: InstanceView, j: int, a: int) -> int {
    a * instance.time(j, a)
}

/// The work that the step from `i` to `i + 1` processors adds.
pub open spec fn work_step(instance: InstanceView, j: int, i: int) -> int {
    work(instance, j, i + 1) - work(instance, j, i)
}

/// A row of one term.
pub open spec fn one(variable: int, coefficient: int, bound: int) -> RowView {
    RowView { terms: seq![(variable, coefficient)], bound }
}

/// A row of two terms.
pub open spec fn two(first: (int, int), second: (int, int), bound: int) -> RowView {
    RowView { terms: seq![first, second], bound }
}

/// The rows on the virtual processing time of job `j` on `i` processors: it
/// is at most the job's processing time and, for `i` from 2 to `m - 1`, at
/// most the processing time on `i` processors.
pub open spec fn level_rows(instance: InstanceView, j: int, i: int) -> Seq<RowView> {
    let y = virtual_var(instance, j, i);
    let basic = seq![two((y, 1), (time_var(instance, j), -1), 0)];
    if 2 <= i <= instance.processors - 1 {
        basic.push(one(y, 1, instance.time(j, i)))
    } else {
        basic
    }
}

/// The rows on the virtual processing times of job `j` on up to `upto`
/// processors.
pub open spec fn levels_upto(instance: InstanceView, j: int, upto: int) -> Seq<RowView>
    decreases upto,
{
    if upto <= 0 {
        Seq::empty()
    } else {
        levels_upto(instance, j, upto - 1) + level_rows(instance, j, upto)
    }
}

/// The rows of job `j`: its completion time is at most the critical-path
/// length and at most the makespan, its processing time is at most that on
/// one processor, and the rows on its virtual processing times.
pub open spec fn job_rows(instance: InstanceView, length: int, j: int) -> Seq<RowView> {
    let c = completion_var(j);
    let x = time_var(instance, j);
    seq![one(c, 1, length), one(x, 1, instance.time(j, 1)), two((c, 1), (makespan_var(), -1), 0)]
        + levels_upto(instance, j, instance.processors)
}

/// The rows of the jobs before `upto`.
pub open spec fn jobs_upto(instance: InstanceView, length: int, upto: int) -> Seq<RowView>
    decreases upto,
{
    if upto <= 0 {
        Seq::empty()
    } else {
        jobs_upto(instance, length, upto - 1) + job_rows(instance, length, upto - 1)
    }
}

/// The row of a constraint: the completion time of its first job and the
/// processing time of its second are at most the completion time of the
/// second.
pub open spec fn order_row(instance: InstanceView, pair: (int, int)) -> RowView {
    RowView {
        terms: seq![
            (completion_var(pair.0), 1),
            (time_var(instance, pair.1), 1),
            (completion_var(pair.1), -1),
        ],
        bound: 0,
    }
}

/// The row of the total work: the single-processor times and the shares are
/// at most the total work.
pub open spec fn work_row(instance: InstanceView) -> RowView {
    let shares = instance.jobs.len() * (instance.processors - 1);
    RowView {
        terms: Seq::new(shares as nat, |k: int| (share_base(instance) + k, 1int)).push(
            (work_var(), -1),
        ),
        bound: -single_upto(instance, instance.jobs.len() as int),
    }
}

/// The rows that bound a sum from above: the makespan is at least the
/// critical-path length and at least the total work over the processors;
/// then the rows of the jobs, then those of the constraints, then that of
/// the total work.
pub open spec fn rows_at_most(instance: InstanceView, length: int) -> Seq<RowView> {
    seq![
        one(makespan_var(), -1, -length),
        two((work_var(), 1), (makespan_var(), -instance.processors), 0),
    ] + jobs_upto(instance, length, instance.jobs.len() as int) + Seq::new(
        instance.constraints.len(),
        |c: int| order_row(instance, instance.constraints[c]),
    ).push(work_row(instance))
}

/// The row that defines the share of job `j` for the step from `i`
/// processors.
pub open spec fn share_row(instance: InstanceView, j: int, i: int) -> RowView {
    two(
        (share_var(instance, j, i), instance.time(j, i)),
        (virtual_var(instance, j, i), work_step(instance, j, i)),
        work_step(instance, j, i) * instance.time(j, i),
    )
}

/// The rows with an exact bound for job `j`: its shares and, with two
/// processors or more, its virtual processing time on `m - 1` processors,
/// which is the processing time on `m`.
pub open spec fn job_equal(instance: InstanceView, j: int) -> Seq<RowView> {
    let m = instance.processors;
    let shares = Seq::new((m - 1) as nat, |k: int| share_row(instance, j, k + 1));
    if m >= 2 {
        shares.push(one(virtual_var(instance, j, m - 1), 1, instance.time(j, m)))
    } else {
        shares
    }
}

/// The rows with an exact bound for the jobs before `upto`.
pub open spec fn equal_upto(instance: InstanceView, upto: int) -> Seq<RowView>
    decreases upto,
{
    if upto <= 0 {
        Seq::empty()
    } else {
        equal_upto(instance, upto - 1) + job_equal(instance, upto - 1)
    }
}

/// The least share of job `j` for the step from `i` processors: the step of
/// the work taken against the job, for the longest of its processing times.
pub open spec fn share_floor(instance: InstanceView, j: int, i: int) -> int {
    if work_step(instance, j, i) >= 0 {
        -(work_step(instance, j, i) * instance.time(j, 1))
    } else {
        work_step(instance, j, i) * instance.time(j, 1)
    }
}

/// The least shares of the jobs before `upto`.
pub open spec fn share_floors_upto(instance: InstanceView, upto: int) -> Seq<int>
    decreases upto,
{
    if upto <= 0 {
        Seq::empty()
    } else {
        share_floors_upto(instance, upto - 1) + Seq::new(
            (instance.processors - 1) as nat,
            |k: int| share_floor(instance, upto - 1, k + 1),
        )
    }
}

/// The least value of each variable: makespan, total work, completion
/// times and virtual processing times are not negative, a processing time
/// is at least that on `m` processors, and a share at least its floor.
pub open spec fn lower_bounds(instance: InstanceView) -> Seq<int> {
    let n = instance.jobs.len();
    seq![0int, 0int] + Seq::new(n, |j: int| 0int) + Seq::new(
        n,
        |j: int| instance.time(j, instance.processors),
    ) + Seq::new((n * instance.processors) as nat, |k: int| 0int) + share_floors_upto(
        instance,
        n as int,
    )
}

/// The linear program of the instance: minimise the makespan.
pub open spec fn lp_program(instance: InstanceView, length: int) -> ProgramView {
    ProgramView {
        lower: lower_bounds(instance),
        objective: makespan_var(),
        at_most: rows_at_most(instance, length),
        equal: equal_upto(instance, instance.jobs.len() as int),
    }
}

/// The numbers of the program fit the machine's integers: the number of
/// variables, the number of processors as a coefficient, the steps of the
/// work, their products with the processing times and the floors of the
/// shares, and the sum of the single-processor times.
pub open spec fn lp_fits(instance: InstanceView) -> bool {
    &&& variable_count(instance) <= usize::MAX
    &&& instance.processors <= i32::MAX
    &&& single_upto(instance, instance.jobs.len() as int) <= i32::MAX
    &&& forall|j: int, i: int|
        0 <= j < instance.jobs.len() && 1 <= i < instance.processors ==> {
            &&& i32::MIN <= #[trigger] work_step(instance, j, i) <= i32::MAX
            &&& i32::MIN <= work_step(instance, j, i) * instance.time(j, i) <= i32::MAX
            &&& i32::MIN <= share_floor(instance, j, i)
        }
}


/// The variables of job `j` lie within those of the `count` jobs, each with
/// `width` of them.
pub proof fn lemma_layout(count: int, width: int, j: int, i: int)
    requires
        0 <= j < count,
        1 <= i <= width,
    ensures
        0 <= j * width + (i - 1) < count * width,
        j * width + width <= count * width,
{
    assert(j * width + width <= count * width) by (nonlinear_arith)
        requires
            0 <= j < count,
            width >= 1,
    ;
    assert(0 <= j * width) by (nonlinear_arith)
        requires
            0 <= j,
            width >= 1,
    ;
}

pub(crate) fn row_one(variable: usize, coefficient: i32, bound: i32) -> (row: Row)
    ensures
        row@ == one(variable as int, coefficient as int, bound as int),
{
    let mut terms: Vec<(usize, i32)> = Vec::new();
    terms.push((variable, coefficient));
    let row = Row { terms, bound };
    assert(row@.terms =~= seq![(variable as int, coefficient as int)]);
    row
}

pub(crate) fn row_two(first: (usize, i32), second: (usize, i32), bound: i32) -> (row: Row)
    ensures
        row@ == two(
            (first.0 as int, first.1 as int),
            (second.0 as int, second.1 as int),
            bound as int,
        ),
{
    let mut terms: Vec<(usize, i32)> = Vec::new();
    terms.push(first);
    terms.push(second);
    let row = Row { terms, bound };
    assert(row@.terms =~= seq![(first.0 as int, first.1 as int), (second.0 as int, second.1 as int)]);
    row
}

pub(crate) fn push_row(rows: &mut Vec<Row>, row: Row, Ghost(variables): Ghost<int>)
    requires
        rows_wf(rows_of(old(rows)@), variables),
        forall|k: int| 0 <= k < row@.terms.len() ==> 0 <= (#[trigger] row@.terms[k]).0 < variables,
    ensures
        rows_of(final(rows)@) == rows_of(old(rows)@).push(row@),
        rows_wf(rows_of(final(rows)@), variables),
{
    let ghost before = rows_of(rows@);
    let ghost added = row@;
    rows.push(row);
    assert(rows_of(rows@) =~= before.push(added));
    assert forall|r: int, k: int|
        0 <= r < rows_of(rows@).len() && 0 <= k < rows_of(rows@)[r].terms.len() implies 0 <= (
    #[trigger] rows_of(rows@)[r].terms[k]).0 < variables by {
        if r < before.len() {
            assert(rows_of(rows@)[r] == before[r]);
        } else {
            assert(rows_of(rows@)[r] == added);
        }
    }
}

/// Adds the rows of job `j` that bound a sum from above.
fn push_job_rows(instance: &Instance, length: i32, j: usize, rows: &mut Vec<Row>)
    requires
        instance@.wf(),
        variable_count(instance@) <= usize::MAX,
        j < instance.jobs.len(),
        rows_wf(rows_of(old(rows)@), variable_count(instance@)),
    ensures
        rows_of(final(rows)@) == rows_of(old(rows)@) + job_rows(instance@, length as int, j as int),
        rows_wf(rows_of(final(rows)@), variable_count(instance@)),
{
    let n = instance.jobs.len();
    let m = instance.processor_count;
    let ghost inst = instance@;
    let ghost count = variable_count(inst);
    let ghost before = rows_of(rows@);
    proof {
        lemma_layout(n as int, m as int, j as int, 1);
        assert(0 <= n * (m - 1)) by (nonlinear_arith)
            requires
                n >= 0,
                m >= 1,
        ;
        assert(inst.jobs[j as int].times.len() == m);
        assert(inst.time(j as int, 1) >= 1);
        assert(inst.time(j as int, m as int) >= 1);
    }
    let c = 2 + j;
    let x = 2 + n + j;
    push_row(rows, row_one(c, 1, length), Ghost(count));
    push_row(rows, row_one(x, 1, instance.jobs[j].processing_time(1)), Ghost(count));
    push_row(rows, row_two((c, 1), (0, -1), 0), Ghost(count));
    let ghost head = rows_of(rows@);
    assert(head =~= before + seq![
        one(completion_var(j as int), 1, length as int),
        one(time_var(inst, j as int), 1, inst.time(j as int, 1)),
        two((completion_var(j as int), 1), (makespan_var(), -1), 0),
    ]);
    let base = 2 + 2 * n + j * m;
    let mut i: usize = 0;
    assert(head + levels_upto(inst, j as int, 0) =~= head);
    while i < m
        invariant
            i <= m,
            n == instance.jobs.len(),
            m == instance.processor_count,
            j < n,
            inst == instance@,
            inst.wf(),
            count == variable_count(inst),
            count <= usize::MAX,
            x == time_var(inst, j as int),
            base == 2 + 2 * n + j * m,
            base + m <= share_base(inst),
            share_base(inst) <= count,
            rows_of(rows@) == head + levels_upto(inst, j as int, i as int),
            rows_wf(rows_of(rows@), count),
        decreases m - i,
    {
        let level = i + 1;
        let y = base + i;
        assert(y == virtual_var(inst, j as int, level as int));
        let ghost so_far = rows_of(rows@);
        push_row(rows, row_two((y, 1), (x, -1), 0), Ghost(count));
        if 2 <= level && level < m {
            assert(inst.jobs[j as int].times.len() == m);
            push_row(rows, row_one(y, 1, instance.jobs[j].processing_time(level)), Ghost(count));
        }
        assert(rows_of(rows@) =~= so_far + level_rows(inst, j as int, level as int));
        assert(rows_of(rows@) =~= head + levels_upto(inst, j as int, level as int));
        i += 1;
    }
    assert(rows_of(rows@) =~= before + job_rows(inst, length as int, j as int));
}


/// The steps of the work of job `j`, their products with the processing
/// times and the floors of the shares fit 32 bits.
pub open spec fn steps_fit(instance: InstanceView, j: int) -> bool {
    forall|i: int|
        1 <= i < instance.processors ==> {
            &&& i32::MIN <= #[trigger] work_step(instance, j, i) <= i32::MAX
            &&& i32::MIN <= work_step(instance, j, i) * instance.time(j, i) <= i32::MAX
            &&& i32::MIN <= share_floor(instance, j, i)
        }
}

/// Adds the rows of job `j` that have an exact bound, unless one of their
/// numbers does not fit.
fn push_job_equal(instance: &Instance, j: usize, rows: &mut Vec<Row>, floors: &mut Vec<i32>) -> (fits:
    bool)
    requires
        instance@.wf(),
        variable_count(instance@) <= usize::MAX,
        instance@.processors <= i32::MAX,
        j < instance.jobs.len(),
        rows_wf(rows_of(old(rows)@), variable_count(instance@)),
    ensures
        fits == steps_fit(instance@, j as int),
        fits ==> rows_of(final(rows)@) == rows_of(old(rows)@) + job_equal(instance@, j as int),
        fits ==> rows_wf(rows_of(final(rows)@), variable_count(instance@)),
        fits ==> whole(final(floors)@) == whole(old(floors)@) + Seq::new(
            (instance@.processors - 1) as nat,
            |k: int| share_floor(instance@, j as int, k + 1),
        ),
{
    let ghost low = whole(floors@);
    let n = instance.jobs.len();
    let m = instance.processor_count;
    let ghost inst = instance@;
    let ghost count = variable_count(inst);
    let ghost before = rows_of(rows@);
    proof {
        lemma_layout(n as int, m as int, j as int, 1);
        if m >= 2 {
            lemma_layout(n as int, m - 1, j as int, 1);
        }
        assert(0 <= n * (m - 1)) by (nonlinear_arith)
            requires
                n >= 0,
                m >= 1,
        ;
        assert(0 <= j * (m - 1) <= n * (m - 1)) by (nonlinear_arith)
            requires
                0 <= j < n,
                m >= 1,
        ;
        assert(inst.jobs[j as int].times.len() == m);
    }
    let virtual_base = 2 + 2 * n + j * m;
    let shares = 2 + 2 * n + n * m + j * (m - 1);
    let mut i: usize = 1;
    assert(rows_of(rows@) =~= before + Seq::new(0, |k: int| share_row(inst, j as int, k + 1)));
    assert(whole(floors@) =~= low + Seq::new(0, |k: int| share_floor(inst, j as int, k + 1)));
    let slowest = instance.jobs[j].processing_time(1);
    assert(inst.time(j as int, 1) >= 1);
    while i < m
        invariant
            1 <= i <= m || (m == 0 && i == 1),
            m >= 1,
            slowest == inst.time(j as int, 1),
            slowest >= 1,
            whole(floors@) == low + Seq::new((i - 1) as nat, |k: int| share_floor(inst, j as int, k + 1)),
            n == instance.jobs.len(),
            m == instance.processor_count,
            m <= i32::MAX,
            j < n,
            inst == instance@,
            inst.wf(),
            inst.jobs[j as int].times.len() == m,
            count == variable_count(inst),
            count <= usize::MAX,
            virtual_base == 2 + 2 * n + j * m,
            virtual_base + m <= share_base(inst),
            shares == share_base(inst) + j * (m - 1),
            shares + (m - 1) <= count,
            rows_of(rows@) == before + Seq::new((i - 1) as nat, |k: int| share_row(inst, j as int, k + 1)),
            rows_wf(rows_of(rows@), count),
            forall|l: int|
                1 <= l < i ==> {
                    &&& i32::MIN <= #[trigger] work_step(inst, j as int, l) <= i32::MAX
                    &&& i32::MIN <= work_step(inst, j as int, l) * inst.time(j as int, l) <= i32::MAX
                    &&& i32::MIN <= share_floor(inst, j as int, l)
                },
        decreases m - i,
    {
        let here = instance.jobs[j].processing_time(i);
        let next = instance.jobs[j].processing_time(i + 1);
        assert(inst.time(j as int, i as int) >= 1);
        assert(inst.time(j as int, i + 1) >= 1);
        assert((i + 1) * next <= 0x8000_0000 * 0x8000_0000 && i * here <= 0x8000_0000 * 0x8000_0000
            && (i + 1) * next >= 0 && i * here >= 0) by (nonlinear_arith)
            requires
                1 <= i < 0x8000_0000,
                1 <= next < 0x8000_0000,
                1 <= here < 0x8000_0000,
        ;
        let step: i64 = (i as i64 + 1) * next as i64 - i as i64 * here as i64;
        assert(step == work_step(inst, j as int, i as int));
        if step < i32::MIN as i64 || step > i32::MAX as i64 {
            return false;
        }
        assert(-0x8000_0000 * 0x8000_0000 <= step * here <= 0x8000_0000 * 0x8000_0000)
            by (nonlinear_arith)
            requires
                -0x8000_0000 <= step < 0x8000_0000,
                1 <= here < 0x8000_0000,
        ;
        let product: i64 = step * here as i64;
        if product < i32::MIN as i64 || product > i32::MAX as i64 {
            return false;
        }
        assert(-0x8000_0000 * 0x8000_0000 <= step * slowest <= 0x8000_0000 * 0x8000_0000)
            by (nonlinear_arith)
            requires
                -0x8000_0000 <= step < 0x8000_0000,
                1 <= slowest < 0x8000_0000,
        ;
        let floor: i64 = if step >= 0 {
            0 - step * slowest as i64
        } else {
            step * slowest as i64
        };
        assert(floor == share_floor(inst, j as int, i as int));
        assert(floor <= 0) by (nonlinear_arith)
            requires
                floor == if step >= 0 {
                    0 - step * slowest
                } else {
                    step * slowest
                },
                slowest >= 1,
        ;
        if floor < i32::MIN as i64 {
            return false;
        }
        let ghost floors_before = whole(floors@);
        floors.push(floor as i32);
        assert(whole(floors@) =~= floors_before.push(floor as int));
        assert(Seq::new(i as nat, |k: int| share_floor(inst, j as int, k + 1)) =~= Seq::new(
            (i - 1) as nat,
            |k: int| share_floor(inst, j as int, k + 1),
        ).push(share_floor(inst, j as int, i as int)));
        assert(whole(floors@) =~= low + Seq::new(i as nat, |k: int| share_floor(inst, j as int, k + 1)));
        let z = shares + (i - 1);
        let y = virtual_base + (i - 1);
        assert(z == share_var(inst, j as int, i as int));
        assert(y == virtual_var(inst, j as int, i as int));
        push_row(rows, row_two((z, here), (y, step as i32), product as i32), Ghost(count));
        assert(rows_of(rows@) =~= before + Seq::new(i as nat, |k: int| share_row(inst, j as int, k + 1)));
        i += 1;
    }
    if m >= 2 {
        let y = virtual_base + (m - 2);
        assert(y == virtual_var(inst, j as int, m - 1));
        push_row(rows, row_one(y, 1, instance.jobs[j].processing_time(m)), Ghost(count));
    }
    assert(rows_of(rows@) =~= before + job_equal(inst, j as int));
    true
}

/// The single-processor times added up, if the sum fits 32 bits.
fn single_total(instance: &Instance) -> (total: Option<i32>)
    requires
        instance@.wf(),
    ensures
        match total {
            Some(sum) => sum == single_upto(instance@, instance@.jobs.len() as int),
            None => single_upto(instance@, instance@.jobs.len() as int) > i32::MAX,
        },
{
    let n = instance.jobs.len();
    let mut sum: i32 = 0;
    let mut j: usize = 0;
    while j < n
        invariant
            j <= n,
            n == instance.jobs.len(),
            instance@.wf(),
            sum == single_upto(instance@, j as int),
            sum >= 0,
        decreases n - j,
    {
        assert(instance@.jobs[j as int].times.len() == instance@.processors);
        assert(instance@.time(j as int, 1) >= 1);
        let time = instance.jobs[j].processing_time(1);
        if time > i32::MAX - sum {
            proof {
                lemma_single_rises(instance@, j + 1, n as int);
            }
            return None;
        }
        sum += time;
        j += 1;
    }
    Some(sum)
}

proof fn lemma_single_rises(instance: InstanceView, fewer: int, more: int)
    requires
        instance.wf(),
        0 <= fewer <= more <= instance.jobs.len(),
    ensures
        single_upto(instance, fewer) <= single_upto(instance, more),
    decreases more - fewer,
{
    if fewer < more {
        lemma_single_rises(instance, fewer, more - 1);
        assert(instance.time(more - 1, 1) >= 1);
    }
}

/// The row of the total work.
fn make_work_row(instance: &Instance, single: i32) -> (row: Row)
    requires
        instance@.wf(),
        variable_count(instance@) <= usize::MAX,
        single == single_upto(instance@, instance@.jobs.len() as int),
        single >= 0,
    ensures
        row@ == work_row(instance@),
        forall|k: int|
            0 <= k < row@.terms.len() ==> 0 <= (#[trigger] row@.terms[k]).0 < variable_count(instance@),
{
    let n = instance.jobs.len();
    let m = instance.processor_count;
    let ghost inst = instance@;
    proof {
        lemma_layout(n as int, m as int, 0, 1);
        assert(0 <= n * (m - 1)) by (nonlinear_arith)
            requires
                n >= 0,
                m >= 1,
        ;
    }
    let base = 2 + 2 * n + n * m;
    let shares = n * (m - 1);
    let mut terms: Vec<(usize, i32)> = Vec::new();
    let mut k: usize = 0;
    while k < shares
        invariant
            k <= shares,
            base == share_base(inst),
            base + shares == variable_count(inst),
            variable_count(inst) <= usize::MAX,
            terms.len() == k,
            forall|l: int| 0 <= l < k ==> #[trigger] terms[l] == ((base + l) as usize, 1i32),
        decreases shares - k,
    {
        terms.push((base + k, 1));
        k += 1;
    }
    terms.push((1, -1));
    let row = Row { terms, bound: -single };
    assert(row@.terms =~= work_row(inst).terms);
    row
}


pub(crate) fn row_three(
    first: (usize, i32),
    second: (usize, i32),
    third: (usize, i32),
    bound: i32,
) -> (row: Row)
    ensures
        row@ == (RowView {
            terms: seq![
                (first.0 as int, first.1 as int),
                (second.0 as int, second.1 as int),
                (third.0 as int, third.1 as int),
            ],
            bound: bound as int,
        }),
{
    let mut terms: Vec<(usize, i32)> = Vec::new();
    terms.push(first);
    terms.push(second);
    terms.push(third);
    let row = Row { terms, bound };
    assert(row@.terms =~= seq![
        (first.0 as int, first.1 as int),
        (second.0 as int, second.1 as int),
        (third.0 as int, third.1 as int),
    ]);
    row
}

proof fn lemma_steps_fit(instance: InstanceView)
    ensures
        lp_fits(instance) <==> {
            &&& variable_count(instance) <= usize::MAX
            &&& instance.processors <= i32::MAX
            &&& single_upto(instance, instance.jobs.len() as int) <= i32::MAX
            &&& forall|j: int| 0 <= j < instance.jobs.len() ==> #[trigger] steps_fit(instance, j)
        },
{
    if lp_fits(instance) {
        assert forall|j: int| 0 <= j < instance.jobs.len() implies #[trigger] steps_fit(instance, j) by {
            assert forall|i: int| 1 <= i < instance.processors implies {
                &&& i32::MIN <= #[trigger] work_step(instance, j, i) <= i32::MAX
                &&& i32::MIN <= work_step(instance, j, i) * instance.time(j, i) <= i32::MAX
                &&& i32::MIN <= share_floor(instance, j, i)
            } by {}
        }
    }
    if forall|j: int| 0 <= j < instance.jobs.len() ==> #[trigger] steps_fit(instance, j) {
        assert forall|j: int, i: int|
            0 <= j < instance.jobs.len() && 1 <= i < instance.processors implies {
            &&& i32::MIN <= #[trigger] work_step(instance, j, i) <= i32::MAX
            &&& i32::MIN <= work_step(instance, j, i) * instance.time(j, i) <= i32::MAX
            &&& i32::MIN <= share_floor(instance, j, i)
        } by {
            assert(steps_fit(instance, j));
        }
    }
}

proof fn lemma_floors_length(instance: InstanceView, upto: int)
    requires
        instance.processors >= 1,
        0 <= upto,
    ensures
        share_floors_upto(instance, upto).len() == upto * (instance.processors - 1),
    decreases upto,
{
    if upto > 0 {
        lemma_floors_length(instance, upto - 1);
        let width = instance.processors - 1;
        let added = Seq::new(width as nat, |k: int| share_floor(instance, upto - 1, k + 1));
        assert(added.len() == width);
        assert(share_floors_upto(instance, upto) == share_floors_upto(instance, upto - 1) + added);
        assert(upto * width == (upto - 1) * width + width) by (nonlinear_arith);
    } else {
        assert(upto * (instance.processors - 1) == 0) by (nonlinear_arith)
            requires
                upto == 0,
        ;
    }
}

/// The linear program of the instance, for its critical-path length, unless
/// one of its numbers does not fit the machine's integers.
pub fn build_program(instance: &Instance, length: i32) -> (built: Result<LinearProgram, SchedulingError>)
    requires
        instance@.wf(),
        length >= 0,
    ensures
        match built {
            Ok(program) => {
                &&& lp_fits(instance@)
                &&& program@ == lp_program(instance@, length as int)
                &&& program@.wf()
            },
            Err(error) => error == SchedulingError::TooLong && !lp_fits(instance@),
        },
{
    let n = instance.jobs.len();
    let m = instance.processor_count;
    let ghost inst = instance@;
    let ghost count = variable_count(inst);
    proof {
        lemma_steps_fit(inst);
        assert(0 <= n * m <= 0xffff_ffff_ffff_ffff * 0xffff_ffff_ffff_ffff && 0 <= n * (m - 1) <= n
            * m) by (nonlinear_arith)
            requires
                0 <= n <= 0xffff_ffff_ffff_ffff,
                1 <= m <= 0xffff_ffff_ffff_ffff,
        ;
    }
    let product: u128 = n as u128 * m as u128;
    if product > usize::MAX as u128 {
        return Err(SchedulingError::TooLong);
    }
    let total: u128 = 2 + 2 * n as u128 + product + n as u128 * (m as u128 - 1);
    assert(total == count);
    if total > usize::MAX as u128 || m > i32::MAX as usize {
        return Err(SchedulingError::TooLong);
    }
    let single = match single_total(instance) {
        Some(single) => single,
        None => {
            return Err(SchedulingError::TooLong);
        },
    };
    proof {
        lemma_single_rises(inst, 0, n as int);
    }
    let mut at_most: Vec<Row> = Vec::new();
    assert(rows_wf(rows_of(at_most@), count));
    push_row(&mut at_most, row_one(0, -1, -length), Ghost(count));
    push_row(&mut at_most, row_two((1, 1), (0, -(m as i32)), 0), Ghost(count));
    let ghost head = rows_of(at_most@);
    assert(head =~= seq![
        one(makespan_var(), -1, -length),
        two((work_var(), 1), (makespan_var(), -inst.processors), 0),
    ]);
    let mut j: usize = 0;
    assert(head + jobs_upto(inst, length as int, 0) =~= head);
    while j < n
        invariant
            j <= n,
            n == instance.jobs.len(),
            inst == instance@,
            inst.wf(),
            count == variable_count(inst),
            count <= usize::MAX,
            rows_of(at_most@) == head + jobs_upto(inst, length as int, j as int),
            rows_wf(rows_of(at_most@), count),
        decreases n - j,
    {
        push_job_rows(instance, length, j, &mut at_most);
        assert(rows_of(at_most@) =~= head + jobs_upto(inst, length as int, j + 1));
        j += 1;
    }
    let ghost with_jobs = rows_of(at_most@);
    let ghost pairs = inst.constraints;
    let mut c: usize = 0;
    assert(with_jobs + Seq::new(0, |c: int| order_row(inst, pairs[c])) =~= with_jobs);
    proof {
        let rank = choose|rank: Seq<int>| #[trigger] crate::algo::ranks(rank, n as int, pairs);
        assert forall|k: int| 0 <= k < pairs.len() implies 0 <= (#[trigger] pairs[k]).0 < n && 0
            <= pairs[k].1 < n by {}
        assert(0 <= n * m) by (nonlinear_arith)
            requires
                n >= 0,
                m >= 1,
        ;
    }
    while c < instance.constraints.len()
        invariant
            c <= instance.constraints.len(),
            n == instance.jobs.len(),
            inst == instance@,
            pairs == inst.constraints,
            count == variable_count(inst),
            count <= usize::MAX,
            2 + 2 * n <= count,
            forall|k: int| 0 <= k < pairs.len() ==> 0 <= (#[trigger] pairs[k]).0 < n && 0 <= pairs[k].1 < n,
            rows_of(at_most@) == with_jobs + Seq::new(c as nat, |c: int| order_row(inst, pairs[c])),
            rows_wf(rows_of(at_most@), count),
        decreases instance.constraints.len() - c,
    {
        let first = instance.constraints[c].0;
        let second = instance.constraints[c].1;
        assert(pairs[c as int] == (first as int, second as int));
        let row = row_three((2 + first, 1), (2 + n + second, 1), (2 + second, -1), 0);
        assert(row@ == order_row(inst, pairs[c as int]));
        push_row(&mut at_most, row, Ghost(count));
        assert(rows_of(at_most@) =~= with_jobs + Seq::new((c + 1) as nat, |c: int| order_row(inst, pairs[c])));
        c += 1;
    }
    push_row(&mut at_most, make_work_row(instance, single), Ghost(count));
    assert(rows_of(at_most@) =~= rows_at_most(inst, length as int));
    let mut lower: Vec<i32> = Vec::new();
    lower.push(0);
    lower.push(0);
    let mut j: usize = 0;
    while j < n
        invariant
            j <= n,
            lower.len() == 2 + j,
            forall|v: int| 0 <= v < lower.len() ==> #[trigger] lower[v] == 0,
        decreases n - j,
    {
        lower.push(0);
        j += 1;
    }
    let mut j: usize = 0;
    while j < n
        invariant
            j <= n,
            n == instance.jobs.len(),
            m == instance.processor_count,
            inst == instance@,
            inst.wf(),
            lower.len() == 2 + n + j,
            forall|v: int| 0 <= v < 2 + n ==> #[trigger] lower[v] == 0,
            forall|i: int| 0 <= i < j ==> #[trigger] lower[2 + n + i] == inst.time(i, m as int),
        decreases n - j,
    {
        assert(inst.jobs[j as int].times.len() == m);
        lower.push(instance.jobs[j].processing_time(m));
        j += 1;
    }
    let mut k: usize = 0;
    while k < product as usize
        invariant
            k <= product,
            product == n * m,
            n == instance.jobs.len(),
            m == instance.processor_count,
            lower.len() == 2 + 2 * n + k,
            forall|v: int| 0 <= v < 2 + n ==> #[trigger] lower[v] == 0,
            forall|i: int| 0 <= i < n ==> #[trigger] lower[2 + n + i] == inst.time(i, m as int),
            forall|v: int| 2 + 2 * n <= v < lower.len() ==> #[trigger] lower[v] == 0,
        decreases product - k,
    {
        lower.push(0);
        k += 1;
    }
    let ghost base = whole(lower@);
    proof {
        let first = seq![0int, 0int] + Seq::new(n as nat, |j: int| 0int);
        let second = first + Seq::new(n as nat, |j: int| inst.time(j, inst.processors));
        let third = second + Seq::new((n * inst.processors) as nat, |k: int| 0int);
        assert(first.len() == 2 + n);
        assert(second.len() == 2 + 2 * n);
        assert(third.len() == 2 + 2 * n + n * m);
        assert forall|v: int| 0 <= v < base.len() implies base[v] == third[v] by {
            if v < 2 + n {
                assert(third[v] == first[v]);
                assert(lower[v] == 0);
            } else if v < 2 + 2 * n {
                assert(third[v] == second[v]);
                assert(lower[2 + n + (v - 2 - n)] == inst.time(v - 2 - n, m as int));
            } else {
                assert(lower[v] == 0);
            }
        }
        assert(base =~= third);
    }
    let mut equal: Vec<Row> = Vec::new();
    let mut j: usize = 0;
    assert(rows_of(equal@) =~= equal_upto(inst, 0));
    assert(whole(lower@) =~= base + share_floors_upto(inst, 0));
    while j < n
        invariant
            j <= n,
            n == instance.jobs.len(),
            inst == instance@,
            inst.wf(),
            count == variable_count(inst),
            count <= usize::MAX,
            inst.processors <= i32::MAX,
            rows_of(equal@) == equal_upto(inst, j as int),
            rows_wf(rows_of(equal@), count),
            whole(lower@) == base + share_floors_upto(inst, j as int),
            forall|i: int| 0 <= i < j ==> #[trigger] steps_fit(inst, i),
        decreases n - j,
    {
        if !push_job_equal(instance, j, &mut equal, &mut lower) {
            return Err(SchedulingError::TooLong);
        }
        assert(whole(lower@) =~= base + share_floors_upto(inst, j + 1));
        j += 1;
    }
    proof {
        lemma_floors_length(inst, n as int);
        assert(whole(lower@) == lower_bounds(inst));
        assert(lower.len() == count);
    }
    let program = LinearProgram { lower, objective: 0, at_most, equal };
    assert(program@.lower == lower_bounds(inst));
    assert(program@.wf()) by {
        assert forall|r: int| 0 <= r < program@.at_most.len() implies program@.row_wf(
            #[trigger] program@.at_most[r],
        ) by {
            let row = program@.at_most[r];
            assert forall|k: int| 0 <= k < row.terms.len() implies 0 <= (#[trigger] row.terms[k]).0
                < program@.variables() by {
                assert(0 <= rows_of(program.at_most@)[r].terms[k].0 < count);
            }
        }
        assert forall|r: int| 0 <= r < program@.equal.len() implies program@.row_wf(
            #[trigger] program@.equal[r],
        ) by {
            let row = program@.equal[r];
            assert forall|k: int| 0 <= k < row.terms.len() implies 0 <= (#[trigger] row.terms[k]).0
                < program@.variables() by {
                assert(0 <= rows_of(program.equal@)[r].terms[k].0 < count);
            }
        }
    }
    Ok(program)
}


/// The virtual processing time of job `j` on `i` processors is at least the
/// threshold's share of the processing time.
pub open spec fn qualifies(instance: InstanceView, values: Seq<u64>, j: int, i: int) -> bool {
    reaches(values[virtual_var(instance, j, i)], RHO_MILLIONTHS * instance.time(j, i), 1_000_000)
}

/// Among the allotments up to `upto` that qualify, the first of those with
/// the largest processing time; 0 if none qualifies.
pub open spec fn chosen_upto(instance: InstanceView, values: Seq<u64>, j: int, upto: int) -> int
    decreases upto,
{
    if upto <= 0 {
        0
    } else {
        let best = chosen_upto(instance, values, j, upto - 1);
        if qualifies(instance, values, j, upto) && (best == 0 || instance.time(j, upto)
            > instance.time(j, best)) {
            upto
        } else {
            best
        }
    }
}

/// The allotment of job `j`: among the allotments that qualify, the first
/// of those with the largest processing time; 1 if none qualifies.
pub open spec fn rounded_allotment(instance: InstanceView, values: Seq<u64>, j: int) -> int {
    let chosen = chosen_upto(instance, values, j, instance.processors);
    if chosen == 0 {
        1
    } else {
        chosen
    }
}

/// The values can be used: there is one for each variable, and each is a
/// number.
pub open spec fn usable(instance: InstanceView, values: Seq<u64>) -> bool {
    values.len() == variable_count(instance) && all_finite(values)
}

/// What the list scheduler is given: for each job the rounded allotment and,
/// as its target, the completion time rounded to the nearest integer.
pub open spec fn lp_input(instance: InstanceView, values: Seq<u64>, compress: bool) -> ListInput {
    ListInput {
        instance,
        allotment: Seq::new(instance.jobs.len(), |j: int| rounded_allotment(instance, values, j)),
        target: Seq::new(instance.jobs.len(), |j: int| rounded(values[completion_var(j)])),
        compress,
    }
}

proof fn lemma_chosen(instance: InstanceView, values: Seq<u64>, j: int, upto: int)
    requires
        0 <= upto,
    ensures
        0 <= chosen_upto(instance, values, j, upto) <= upto,
    decreases upto,
{
    if upto > 0 {
        lemma_chosen(instance, values, j, upto - 1);
    }
}

/// The number of variables, if it fits.
fn count_variables(instance: &Instance) -> (count: Option<usize>)
    requires
        instance@.wf(),
    ensures
        match count {
            Some(count) => count == variable_count(instance@),
            None => variable_count(instance@) > usize::MAX,
        },
{
    let n = instance.jobs.len();
    let m = instance.processor_count;
    proof {
        assert(0 <= n * m <= 0xffff_ffff_ffff_ffff * 0xffff_ffff_ffff_ffff && 0 <= n * (m - 1) <= n
            * m) by (nonlinear_arith)
            requires
                0 <= n <= 0xffff_ffff_ffff_ffff,
                1 <= m <= 0xffff_ffff_ffff_ffff,
        ;
    }
    let product: u128 = n as u128 * m as u128;
    if product > usize::MAX as u128 {
        return None;
    }
    let total: u128 = 2 + 2 * n as u128 + product + n as u128 * (m as u128 - 1);
    if total > usize::MAX as u128 {
        return None;
    }
    Some(total as usize)
}

/// The allotment of job `j`.
fn round_allotment(instance: &Instance, values: &Vec<u64>, j: usize) -> (allotment: usize)
    requires
        instance@.wf(),
        usable(instance@, values@),
        j < instance.jobs.len(),
    ensures
        allotment == rounded_allotment(instance@, values@, j as int),
        1 <= allotment <= instance@.processors,
{
    let n = instance.jobs.len();
    let m = instance.processor_count;
    let ghost inst = instance@;
    proof {
        lemma_layout(n as int, m as int, j as int, 1);
        assert(0 <= n * (m - 1)) by (nonlinear_arith)
            requires
                n >= 0,
                m >= 1,
        ;
        assert(inst.jobs[j as int].times.len() == m);
        assert(variable_count(inst) == values.len());
        assert(0 <= n * m) by (nonlinear_arith)
            requires
                n >= 0,
                m >= 1,
        ;
    }
    let base = 2 + 2 * n + j * m;
    let mut chosen: usize = 0;
    let mut i: usize = 0;
    while i < m
        invariant
            i <= m,
            n == instance.jobs.len(),
            m == instance.processor_count,
            j < n,
            inst == instance@,
            inst.wf(),
            inst.jobs[j as int].times.len() == m,
            usable(inst, values@),
            base == 2 + 2 * n + j * m,
            base + m <= values.len(),
            chosen == chosen_upto(inst, values@, j as int, i as int),
            0 <= chosen <= i,
        decreases m - i,
    {
        let level = i + 1;
        let time = instance.jobs[j].processing_time(level);
        assert(inst.time(j as int, level as int) >= 1);
        assert(base + i == virtual_var(inst, j as int, level as int));
        assert(finite(values[base + i]));
        assert(RHO_MILLIONTHS * time <= 430_991 * 0x8000_0000) by (nonlinear_arith)
            requires
                RHO_MILLIONTHS == 430_991,
                1 <= time < 0x8000_0000,
        ;
        let enough = reaches_ratio(values[base + i], RHO_MILLIONTHS * time as u64, 1_000_000);
        assert(enough == qualifies(inst, values@, j as int, level as int));
        if enough && (chosen == 0 || time > instance.jobs[j].processing_time(chosen)) {
            chosen = level;
        }
        i += 1;
    }
    if chosen == 0 {
        1
    } else {
        chosen
    }
}

/// Schedules the instance from the values that the linear program's
/// variables have: each job gets the rounded allotment and, as its target,
/// its completion time rounded to the nearest integer, and the list
/// scheduler does the rest.
pub fn schedule_solution(instance: &Instance, values: &Vec<u64>, compress: bool) -> (result: Result<
    Schedule,
    SchedulingError,
>)
    requires
        instance@.wf(),
    ensures
        match result {
            Ok(schedule) => {
                &&& usable(instance@, values@)
                &&& lp_input(instance@, values@, compress).horizon() <= i32::MAX
                &&& schedule@ == lp_input(instance@, values@, compress).schedule()
                &&& schedule@.feasible(instance@)
            },
            Err(error) => {
                &&& error == SchedulingError::SolverFailure || error == SchedulingError::TooLong
                &&& error == SchedulingError::SolverFailure <==> !usable(instance@, values@)
                &&& error == SchedulingError::TooLong ==> lp_input(
                    instance@,
                    values@,
                    compress,
                ).horizon() > i32::MAX
            },
        },
{
    let n = instance.jobs.len();
    let ghost inst = instance@;
    match count_variables(instance) {
        Some(count) => {
            if values.len() != count {
                return Err(SchedulingError::SolverFailure);
            }
        },
        None => {
            assert(values.len() <= usize::MAX);
            return Err(SchedulingError::SolverFailure);
        },
    }
    let mut v: usize = 0;
    while v < values.len()
        invariant
            v <= values.len(),
            forall|u: int| 0 <= u < v ==> finite(#[trigger] values[u]),
        decreases values.len() - v,
    {
        if !crate::ieee::is_finite(values[v]) {
            assert(!finite(values@[v as int]));
            assert(!all_finite(values@));
            return Err(SchedulingError::SolverFailure);
        }
        v += 1;
    }
    assert(usable(inst, values@));
    let ghost input = lp_input(inst, values@, compress);
    let mut allotments: Vec<usize> = Vec::new();
    let mut targets: Vec<i32> = Vec::new();
    let mut j: usize = 0;
    proof {
        assert(0 <= n * inst.processors && 0 <= n * (inst.processors - 1)) by (nonlinear_arith)
            requires
                n >= 0,
                inst.processors >= 1,
        ;
    }
    while j < n
        invariant
            j <= n,
            n == instance.jobs.len(),
            inst == instance@,
            inst.wf(),
            usable(inst, values@),
            2 + 2 * n <= values.len(),
            input == lp_input(inst, values@, compress),
            allotments.len() == j,
            targets.len() == j,
            forall|i: int| 0 <= i < j ==> #[trigger] allotments[i] == input.allotment[i],
            forall|i: int| 0 <= i < j ==> 1 <= #[trigger] input.allotment[i] <= inst.processors,
            forall|i: int| 0 <= i < j ==> #[trigger] targets[i] == input.target[i],
        decreases n - j,
    {
        allotments.push(round_allotment(instance, values, j));
        assert(finite(values[2 + j]));
        targets.push(round_to_i32(values[2 + j]));
        j += 1;
    }
    assert(list_input(*instance, allotments@, targets@, compress) =~= input) by {
        let given = list_input(*instance, allotments@, targets@, compress);
        assert(given.allotment =~= input.allotment);
        assert(given.target =~= input.target);
    }
    if !horizon_fits(instance, &allotments, &targets, compress) {
        return Err(SchedulingError::TooLong);
    }
    Ok(list_schedule(instance, &allotments, &targets, compress))
}

/// The solution of the instance's linear program, built for its
/// critical-path length.
pub open spec fn lp_solution(instance: InstanceView) -> Option<Seq<u64>> {
    solved_by(lp_program(instance, critical_length(instance)))
}

/// The linear program has a solution for the instance that can be used.
pub open spec fn lp_solved(instance: InstanceView) -> bool {
    lp_solution(instance) matches Some(values) && usable(instance, values)
}

/// What the linear program gives for the instance. An instance that is not
/// well formed is invalid. Then, where the critical-path length cannot be
/// computed or a number of the program does not fit, a number is too long.
/// Then the solver fails where the program has no solution that can be
/// used. Then the list scheduler's horizon may be too long. Else the jobs
/// are scheduled from the solver's values.
pub open spec fn lp_outcome(instance: InstanceView, compress: bool) -> Result<
    ScheduleView,
    SchedulingError,
> {
    if !instance.wf() {
        Err(SchedulingError::InvalidInstance)
    } else if float_bound(instance) > i32::MAX || !lp_fits(instance) {
        Err(SchedulingError::TooLong)
    } else if !lp_solved(instance) {
        Err(SchedulingError::SolverFailure)
    } else if lp_input(instance, lp_solution(instance).unwrap(), compress).horizon() > i32::MAX {
        Err(SchedulingError::TooLong)
    } else {
        Ok(lp_input(instance, lp_solution(instance).unwrap(), compress).schedule())
    }
}

/// Schedules the instance by the linear program: the program is built for
/// the instance's critical-path length and solved, and the jobs are
/// scheduled from the solver's values.
pub fn schedule(instance: Instance, compress: bool) -> (result: Result<Schedule, SchedulingError>)
    ensures
        yields(result, lp_outcome(instance@, compress)),
        result matches Ok(schedule) ==> schedule@.feasible(instance@),
{
    if instance.validate().is_err() {
        return Err(SchedulingError::InvalidInstance);
    }
    let length = match critical_path_length(&instance) {
        Ok(length) => length,
        Err(error) => {
            return Err(error);
        },
    };
    proof {
        lemma_critical_covers_jobs(instance@, length as int, 0);
        assert(instance@.time(0, 1) >= 1);
        assert(critical(instance@, critical_length(instance@)));
        lemma_critical_unique(instance@, length as int, critical_length(instance@));
    }
    let program = match build_program(&instance, length) {
        Ok(program) => program,
        Err(error) => {
            return Err(error);
        },
    };
    let values = match solve(&program) {
        Ok(values) => values,
        Err(error) => {
            return Err(error);
        },
    };
    schedule_solution(&instance, &values, compress)
}

} // verus!
