//! Scheduling by a linear program with secant bounds on the work: the
//! program is solved, each job gets the allotment whose processing time is
//! closest to the solved one, capped by `mu`, and the list scheduler does the
//! rest.
//!
//! The variables are numbered: the makespan `M`, then for each job its
//! completion time `C[j]`, its processing time `x[j]` and its work `w[j]`.

use vstd::prelude::*;
use crate::algo::{yields, Instance, InstanceView, Schedule, ScheduleView, closest_upto};
use crate::critical_path::{critical, critical_length, critical_path_length, float_bound, lemma_critical_covers_jobs, lemma_critical_unique};
use crate::error::SchedulingError;
use crate::ieee::{finite, round_to_i32, rounded};
use crate::list::{ListInput, horizon_fits, list_input, list_schedule};
use crate::lp::{one, two, push_row, row_one, row_two, row_three};
use crate::program::{LinearProgram, ProgramView, Row, RowView, all_finite, rows_of, rows_wf, solved_by, solve};

verus! {

/// `cap` is at most `0.01 * (113 * count - sqrt(6469 * count^2 - 6300 *
/// count))`.
pub open spec fn under_mu(count: int, cap: int) -> bool {
    &&& 100 * cap <= 113 * count
    &&& 6469 * count * count - 6300 * count <= (113 * count - 100 * cap) * (113 * count - 100 * cap)
}

/// The largest cap from `cap` on that is under `mu`.
pub open spec fn mu_from(count: int, cap: int) -> int
    decreases 113 * count - 100 * cap,
{
    if 113 * count - 100 * cap > 0 && under_mu(count, cap + 1) {
        mu_from(count, cap + 1)
    } else {
        cap
    }
}

/// The allotment cap for `count` jobs: `0.01 * (113 * count - sqrt(6469 *
/// count^2 - 6300 * count))`, rounded down.
pub open spec fn mu(count: int) -> int {
    mu_from(count, 0)
}

proof fn lemma_mu_from(count: int, cap: int)
    ensures
        mu_from(count, cap) >= cap,
    decreases 113 * count - 100 * cap,
{
    if 113 * count - 100 * cap > 0 && under_mu(count, cap + 1) {
        lemma_mu_from(count, cap + 1);
    }
}

/// The cap is at least 1.
pub proof fn lemma_mu_positive(count: int)
    requires
        count >= 1,
    ensures
        mu(count) >= 1,
{
    assert((count - 1) * (63 * count - 100) >= 0) by (nonlinear_arith)
        requires
            count >= 1,
    ;
    assert(under_mu(count, 1)) by (nonlinear_arith)
        requires
            count >= 1,
            (count - 1) * (63 * count - 100) >= 0,
    ;
    lemma_mu_from(count, 1);
}

/// The allotment cap for `count` jobs.
pub fn compute_my(count: usize) -> (cap: usize)
    requires
        1 <= count <= i32::MAX,
    ensures
        cap == mu(count as int),
        cap >= 1,
{
    let n = count as i128;
    assert(0 <= n * n <= 0x8000_0000 * 0x8000_0000 && 6469 * n * n == 6469 * (n * n)) by (nonlinear_arith)
        requires
            1 <= n <= 0x8000_0000,
    ;
    let bound: i128 = 6469 * (n * n) - 6300 * n;
    let mut cap: usize = 0;
    let mut more = true;
    proof {
        lemma_mu_positive(count as int);
    }
    while more
        invariant
            n == count,
            1 <= count <= i32::MAX,
            bound == 6469 * n * n - 6300 * n,
            100 * cap <= 113 * n,
            mu(count as int) == mu_from(count as int, cap as int),
            !more ==> !under_mu(count as int, cap + 1),
        decreases 113 * n - 100 * cap + if more { 1int } else { 0int },
    {
        let next = cap as i128 + 1;
        let rest: i128 = 113 * n - 100 * next;
        if rest < 0 {
            more = false;
        } else {
            assert(rest * rest <= 0x1_0000_0000_0000 * 0x1_0000_0000_0000) by (nonlinear_arith)
                requires
                    0 <= rest <= 0x1_0000_0000_0000,
            ;
            if bound > rest * rest {
                more = false;
            } else {
                cap += 1;
            }
        }
    }
    cap
}

/// `a / b`, rounded towards zero.
pub open spec fn quotient(a: int, b: int) -> int {
    if a >= 0 && b > 0 {
        a / b
    } else if a < 0 && b > 0 {
        -((-a) / b)
    } else if a >= 0 {
        -(a / (-b))
    } else {
        (-a) / (-b)
    }
}

fn divide(a: i64, b: i64) -> (q: i64)
    requires
        b != 0,
        a > i64::MIN,
        b > i64::MIN,
    ensures
        q == quotient(a as int, b as int),
{
    let wide_a: u64 = if a < 0 {
        (0 - a) as u64
    } else {
        a as u64
    };
    let wide_b: u64 = if b < 0 {
        (0 - b) as u64
    } else {
        b as u64
    };
    let wide_q = wide_a / wide_b;
    assert(wide_q <= wide_a) by (nonlinear_arith)
        requires
            wide_q == wide_a / wide_b,
            wide_b >= 1,
            wide_a >= 0,
    ;
    if (a < 0) != (b < 0) {
        0 - (wide_q as i64)
    } else {
        wide_q as i64
    }
}

/// The number of the makespan.
pub open spec fn makespan_var() -> int {
    0
}

/// The number of the completion time of job `j`.
pub open spec fn completion_var(j: int) -> int {
    1 + j
}

/// The number of the processing time of job `j`.
pub open spec fn time_var(instance: InstanceView, j: int) -> int {
    1 + instance.jobs.len() + j
}

/// The number of the work of job `j`.
pub open spec fn work_var(instance: InstanceView, j: int) -> int {
    1 + 2 * instance.jobs.len() + j
}

/// The number of variables.
pub open spec fn variable_count(instance: InstanceView) -> int {
    1 + 3 * (instance.jobs.len() as int)
}

/// The slope of the secant of the work of job `j` between `i` and `i + 1`
/// processors.
pub open spec fn slope(instance: InstanceView, j: int, i: int) -> int {
    quotient(
        (i + 1) * instance.time(j, i + 1) - i * instance.time(j, i),
        instance.time(j, i + 1) - instance.time(j, i),
    )
}

/// The offset of the secant of the work of job `j` between `i` and `i + 1`
/// processors.
pub open spec fn offset(instance: InstanceView, j: int, i: int) -> int {
    quotient(
        instance.time(j, i) * instance.time(j, i + 1),
        instance.time(j, i + 1) - instance.time(j, i),
    )
}

/// The secant row of job `j` between `i` and `i + 1` processors: the slope
/// times the processing time, less the offset, is at most the work.
pub open spec fn secant_row(instance: InstanceView, j: int, i: int) -> RowView {
    two((time_var(instance, j), slope(instance, j, i)), (work_var(instance, j), -1), offset(instance, j, i))
}

/// The rows of job `j`: its completion time is at most the critical-path
/// length and at most the makespan, its processing time is at most that on
/// one processor, and its secant rows.
pub open spec fn job_rows(instance: InstanceView, length: int, j: int) -> Seq<RowView> {
    let c = completion_var(j);
    let x = time_var(instance, j);
    seq![one(c, 1, length), one(x, 1, instance.time(j, 1)), two((c, 1), (makespan_var(), -1), 0)]
        + Seq::new((instance.processors - 1) as nat, |k: int| secant_row(instance, j, k + 1))
}

/// The rows of the jobs before `upto`.
pub open spec fn jobs_upto(instance: InstanceView, length: int, upto: int) -> Seq<RowView>
    decreases upto,
{
    if upto <= 0 {
        Seq::empty()
    } else {
        jobs_upto(instance, length, upto - 1) + job_rows(instance, length, upto - 1)
    }
}

/// The row of a constraint.
pub open spec fn ilp_order_row(instance: InstanceView, pair: (int, int)) -> RowView {
    RowView {
        terms: seq![
            (completion_var(pair.0), 1),
            (time_var(instance, pair.1), 1),
            (completion_var(pair.1), -1),
        ],
        bound: 0,
    }
}

/// The row of the work: the mean work of the jobs is at most the makespan.
pub open spec fn mean_row(instance: InstanceView) -> RowView {
    let n = instance.jobs.len();
    RowView {
        terms: Seq::new(n, |j: int| (work_var(instance, j), 1int)).push((makespan_var(), -n)),
        bound: 0,
    }
}

/// The rows: the makespan is at least the critical-path length; then the
/// rows of the jobs, then those of the constraints, then that of the work.
pub open spec fn ilp_rows(instance: InstanceView, length: int) -> Seq<RowView> {
    seq![one(makespan_var(), -1, -length)] + jobs_upto(
        instance,
        length,
        instance.jobs.len() as int,
    ) + Seq::new(
        instance.constraints.len(),
        |c: int| ilp_order_row(instance, instance.constraints[c]),
    ).push(mean_row(instance))
}

/// The least value of each variable: makespan, completion times and works
/// are not negative, and a processing time is at least that on `m`
/// processors.
pub open spec fn lower_bounds(instance: InstanceView) -> Seq<int> {
    let n = instance.jobs.len();
    seq![0int] + Seq::new(n, |j: int| 0int) + Seq::new(
        n,
        |j: int| instance.time(j, instance.processors),
    ) + Seq::new(n, |j: int| 0int)
}

/// The linear program of the instance: minimise the makespan.
pub open spec fn ilp_program(instance: InstanceView, length: int) -> ProgramView {
    ProgramView {
        lower: lower_bounds(instance),
        objective: makespan_var(),
        at_most: ilp_rows(instance, length),
        equal: Seq::empty(),
    }
}

/// The secants are defined: no job has the same processing time on two
/// successive allotments.
pub open spec fn secants_defined(instance: InstanceView) -> bool {
    forall|j: int, i: int|
        0 <= j < instance.jobs.len() && 1 <= i < instance.processors ==> #[trigger] instance.time(
            j,
            i + 1,
        ) != instance.time(j, i)
}

/// The secants of job `j` fit 32 bits.
pub open spec fn secants_fit(instance: InstanceView, j: int) -> bool {
    forall|i: int|
        1 <= i < instance.processors ==> {
            &&& i32::MIN <= #[trigger] slope(instance, j, i) <= i32::MAX
            &&& i32::MIN <= offset(instance, j, i) <= i32::MAX
        }
}

/// The numbers of the program fit the machine's integers.
pub open spec fn ilp_fits(instance: InstanceView) -> bool {
    &&& instance.jobs.len() <= i32::MAX
    &&& instance.processors <= i32::MAX
    &&& variable_count(instance) <= usize::MAX
    &&& forall|j: int| 0 <= j < instance.jobs.len() ==> #[trigger] secants_fit(instance, j)
}


/// No two successive allotments give job `j` the same processing time.
pub open spec fn job_secants_defined(instance: InstanceView, j: int) -> bool {
    forall|i: int| 1 <= i < instance.processors ==> #[trigger] instance.time(j, i + 1) != instance.time(j, i)
}

/// The slope and the offset of the secant of job `j` between `i` and
/// `i + 1` processors, unless it is not defined or does not fit.
fn secant(instance: &Instance, j: usize, i: usize) -> (found: Result<(i32, i32), SchedulingError>)
    requires
        instance@.wf(),
        instance@.processors <= i32::MAX,
        j < instance.jobs.len(),
        1 <= i < instance.processor_count,
    ensures
        match found {
            Ok((r, s)) => {
                &&& instance@.time(j as int, i + 1) != instance@.time(j as int, i as int)
                &&& r == slope(instance@, j as int, i as int)
                &&& s == offset(instance@, j as int, i as int)
            },
            Err(error) => if instance@.time(j as int, i + 1) == instance@.time(j as int, i as int) {
                error == SchedulingError::InvalidInstance
            } else {
                &&& error == SchedulingError::TooLong
                &&& !(i32::MIN <= slope(instance@, j as int, i as int) <= i32::MAX && i32::MIN
                    <= offset(instance@, j as int, i as int) <= i32::MAX)
            },
        },
{
    let ghost inst = instance@;
    assert(inst.jobs[j as int].times.len() == instance.processor_count);
    let here = instance.jobs[j].processing_time(i);
    let next = instance.jobs[j].processing_time(i + 1);
    assert(here == inst.time(j as int, i as int));
    assert(next == inst.time(j as int, i + 1));
    assert(inst.time(j as int, i as int) >= 1);
    assert(inst.time(j as int, i + 1) >= 1);
    if next == here {
        return Err(SchedulingError::InvalidInstance);
    }
    assert((i + 1) * next <= 0x8000_0000 * 0x8000_0000 && i * here <= 0x8000_0000 * 0x8000_0000
        && (i + 1) * next >= 0 && i * here >= 0 && 0 <= here * next <= 0x8000_0000 * 0x8000_0000)
        by (nonlinear_arith)
        requires
            1 <= i < 0x8000_0000,
            1 <= next < 0x8000_0000,
            1 <= here < 0x8000_0000,
    ;
    let gap: i64 = next as i64 - here as i64;
    let rise: i64 = (i as i64 + 1) * next as i64 - i as i64 * here as i64;
    let product: i64 = here as i64 * next as i64;
    let r = divide(rise, gap);
    let s = divide(product, gap);
    assert(r == slope(inst, j as int, i as int));
    assert(s == offset(inst, j as int, i as int));
    if r < i32::MIN as i64 || r > i32::MAX as i64 || s < i32::MIN as i64 || s > i32::MAX as i64 {
        return Err(SchedulingError::TooLong);
    }
    Ok((r as i32, s as i32))
}

/// Whether the secants are defined.
fn has_secants(instance: &Instance) -> (yes: bool)
    requires
        instance@.wf(),
    ensures
        yes == secants_defined(instance@),
{
    let ghost inst = instance@;
    let n = instance.jobs.len();
    let m = instance.processor_count;
    let mut j: usize = 0;
    while j < n
        invariant
            j <= n,
            n == instance.jobs.len(),
            m == instance.processor_count,
            inst == instance@,
            inst.wf(),
            forall|k: int, l: int|
                0 <= k < j && 1 <= l < m ==> #[trigger] inst.time(k, l + 1) != inst.time(k, l),
        decreases n - j,
    {
        assert(inst.jobs[j as int].times.len() == m);
        let mut i: usize = 1;
        while i < m
            invariant
                1 <= i,
                j < n,
                n == instance.jobs.len(),
                m == instance.processor_count,
                inst == instance@,
                inst.wf(),
                inst.jobs[j as int].times.len() == m,
                forall|k: int, l: int|
                    (0 <= k < j && 1 <= l < m) || (k == j && 1 <= l < i) ==> #[trigger] inst.time(
                        k,
                        l + 1,
                    ) != inst.time(k, l),
            decreases m - i,
        {
            let here = instance.jobs[j].processing_time(i);
            let next = instance.jobs[j].processing_time(i + 1);
            assert(here == inst.time(j as int, i as int));
            assert(next == inst.time(j as int, i + 1));
            if next == here {
                return false;
            }
            i += 1;
        }
        j += 1;
    }
    true
}

/// Adds the rows of job `j`, unless a secant is not defined or does not fit.
fn push_job_rows(instance: &Instance, length: i32, j: usize, rows: &mut Vec<Row>) -> (added: Result<
    (),
    SchedulingError,
>)
    requires
        instance@.wf(),
        variable_count(instance@) <= usize::MAX,
        instance@.processors <= i32::MAX,
        j < instance.jobs.len(),
        rows_wf(rows_of(old(rows)@), variable_count(instance@)),
    ensures
        match added {
            Ok(_) => {
                &&& job_secants_defined(instance@, j as int)
                &&& secants_fit(instance@, j as int)
                &&& rows_of(final(rows)@) == rows_of(old(rows)@) + job_rows(
                    instance@,
                    length as int,
                    j as int,
                )
                &&& rows_wf(rows_of(final(rows)@), variable_count(instance@))
            },
            Err(error) => {
                &&& error == SchedulingError::InvalidInstance || error == SchedulingError::TooLong
                &&& error == SchedulingError::InvalidInstance ==> !job_secants_defined(instance@, j as int)
                &&& error == SchedulingError::TooLong ==> !secants_fit(instance@, j as int)
            },
        },
{
    let n = instance.jobs.len();
    let m = instance.processor_count;
    let ghost inst = instance@;
    let ghost count = variable_count(inst);
    let ghost before = rows_of(rows@);
    proof {
        assert(inst.jobs[j as int].times.len() == m);
        assert(inst.time(j as int, 1) >= 1);
        assert(inst.time(j as int, m as int) >= 1);
    }
    let c = 1 + j;
    let x = 1 + n + j;
    let w = 1 + 2 * n + j;
    push_row(rows, row_one(c, 1, length), Ghost(count));
    push_row(rows, row_one(x, 1, instance.jobs[j].processing_time(1)), Ghost(count));
    push_row(rows, row_two((c, 1), (0, -1), 0), Ghost(count));
    let ghost head = rows_of(rows@);
    assert(head =~= before + seq![
        one(completion_var(j as int), 1, length as int),
        one(time_var(inst, j as int), 1, inst.time(j as int, 1)),
        two((completion_var(j as int), 1), (makespan_var(), -1), 0),
    ]);
    let mut i: usize = 1;
    assert(head + Seq::new(0, |k: int| secant_row(inst, j as int, k + 1)) =~= head);
    while i < m
        invariant
            1 <= i <= m,
            n == instance.jobs.len(),
            m == instance.processor_count,
            m <= i32::MAX,
            j < n,
            inst == instance@,
            inst.wf(),
            inst.jobs[j as int].times.len() == m,
            count == variable_count(inst),
            count <= usize::MAX,
            x == time_var(inst, j as int),
            w == work_var(inst, j as int),
            rows_of(rows@) == head + Seq::new((i - 1) as nat, |k: int| secant_row(inst, j as int, k + 1)),
            rows_wf(rows_of(rows@), count),
            forall|l: int| 1 <= l < i ==> #[trigger] inst.time(j as int, l + 1) != inst.time(j as int, l),
            forall|l: int|
                1 <= l < i ==> {
                    &&& i32::MIN <= #[trigger] slope(inst, j as int, l) <= i32::MAX
                    &&& i32::MIN <= offset(inst, j as int, l) <= i32::MAX
                },
        decreases m - i,
    {
        let (r, s) = match secant(instance, j, i) {
            Ok(found) => found,
            Err(error) => {
                return Err(error);
            },
        };
        push_row(rows, row_two((x, r), (w, -1), s), Ghost(count));
        assert(rows_of(rows@) =~= head + Seq::new(i as nat, |k: int| secant_row(inst, j as int, k + 1)));
        i += 1;
    }
    assert(rows_of(rows@) =~= before + job_rows(inst, length as int, j as int));
    Ok(())
}

/// The row of the work.
fn make_mean_row(instance: &Instance) -> (row: Row)
    requires
        instance@.wf(),
        variable_count(instance@) <= usize::MAX,
        instance@.jobs.len() <= i32::MAX,
    ensures
        row@ == mean_row(instance@),
        forall|k: int|
            0 <= k < row@.terms.len() ==> 0 <= (#[trigger] row@.terms[k]).0 < variable_count(instance@),
{
    let n = instance.jobs.len();
    let ghost inst = instance@;
    let base = 1 + 2 * n;
    let mut terms: Vec<(usize, i32)> = Vec::new();
    let mut j: usize = 0;
    while j < n
        invariant
            j <= n,
            n == inst.jobs.len(),
            base == 1 + 2 * n,
            base + n == variable_count(inst),
            variable_count(inst) <= usize::MAX,
            terms.len() == j,
            forall|l: int| 0 <= l < j ==> #[trigger] terms[l] == ((base + l) as usize, 1i32),
        decreases n - j,
    {
        terms.push((base + j, 1));
        j += 1;
    }
    terms.push((0, -(n as i32)));
    let row = Row { terms, bound: 0 };
    assert(row@.terms =~= mean_row(inst).terms);
    row
}

/// The linear program of the instance, for its critical-path length. An
/// instance with a secant that is not defined is invalid; one with a number
/// that does not fit the machine's integers is too long.
pub fn build_program(instance: &Instance, length: i32) -> (built: Result<LinearProgram, SchedulingError>)
    requires
        instance@.wf(),
        length >= 0,
    ensures
        match built {
            Ok(program) => {
                &&& secants_defined(instance@)
                &&& ilp_fits(instance@)
                &&& program@ == ilp_program(instance@, length as int)
                &&& program@.wf()
            },
            Err(error) => {
                &&& error == SchedulingError::InvalidInstance || error == SchedulingError::TooLong
                &&& error == SchedulingError::InvalidInstance <==> !secants_defined(instance@)
                &&& error == SchedulingError::TooLong ==> !ilp_fits(instance@)
            },
        },
{
    let n = instance.jobs.len();
    let m = instance.processor_count;
    let ghost inst = instance@;
    let ghost count = variable_count(inst);
    if !has_secants(instance) {
        return Err(SchedulingError::InvalidInstance);
    }
    if n > i32::MAX as usize || m > i32::MAX as usize || 1 + 3 * n as u128 > usize::MAX as u128 {
        return Err(SchedulingError::TooLong);
    }
    let mut rows: Vec<Row> = Vec::new();
    assert(rows_wf(rows_of(rows@), count));
    push_row(&mut rows, row_one(0, -1, -length), Ghost(count));
    let ghost head = rows_of(rows@);
    assert(head =~= seq![one(makespan_var(), -1, -length)]);
    let mut j: usize = 0;
    assert(head + jobs_upto(inst, length as int, 0) =~= head);
    while j < n
        invariant
            j <= n,
            n == instance.jobs.len(),
            n <= i32::MAX,
            inst == instance@,
            inst.wf(),
            inst.processors <= i32::MAX,
            count == variable_count(inst),
            count <= usize::MAX,
            rows_of(rows@) == head + jobs_upto(inst, length as int, j as int),
            rows_wf(rows_of(rows@), count),
            secants_defined(inst),
            forall|i: int| 0 <= i < j ==> #[trigger] secants_fit(inst, i),
        decreases n - j,
    {
        assert(job_secants_defined(inst, j as int));
        match push_job_rows(instance, length, j, &mut rows) {
            Ok(_) => {},
            Err(error) => {
                return Err(error);
            },
        }
        assert(rows_of(rows@) =~= head + jobs_upto(inst, length as int, j + 1));
        j += 1;
    }
    let ghost with_jobs = rows_of(rows@);
    let ghost pairs = inst.constraints;
    let mut c: usize = 0;
    assert(with_jobs + Seq::new(0, |c: int| ilp_order_row(inst, pairs[c])) =~= with_jobs);
    proof {
        let rank = choose|rank: Seq<int>| #[trigger] crate::algo::ranks(rank, n as int, pairs);
        assert forall|k: int| 0 <= k < pairs.len() implies 0 <= (#[trigger] pairs[k]).0 < n && 0
            <= pairs[k].1 < n by {}
    }
    while c < instance.constraints.len()
        invariant
            c <= instance.constraints.len(),
            n == instance.jobs.len(),
            inst == instance@,
            pairs == inst.constraints,
            count == variable_count(inst),
            count <= usize::MAX,
            forall|k: int| 0 <= k < pairs.len() ==> 0 <= (#[trigger] pairs[k]).0 < n && 0 <= pairs[k].1 < n,
            rows_of(rows@) == with_jobs + Seq::new(c as nat, |c: int| ilp_order_row(inst, pairs[c])),
            rows_wf(rows_of(rows@), count),
        decreases instance.constraints.len() - c,
    {
        let first = instance.constraints[c].0;
        let second = instance.constraints[c].1;
        assert(pairs[c as int] == (first as int, second as int));
        let row = row_three((1 + first, 1), (1 + n + second, 1), (1 + second, -1), 0);
        assert(row@ == ilp_order_row(inst, pairs[c as int]));
        push_row(&mut rows, row, Ghost(count));
        assert(rows_of(rows@) =~= with_jobs + Seq::new((c + 1) as nat, |c: int| ilp_order_row(inst, pairs[c])));
        c += 1;
    }
    push_row(&mut rows, make_mean_row(instance), Ghost(count));
    assert(rows_of(rows@) =~= ilp_rows(inst, length as int));
    let equal: Vec<Row> = Vec::new();
    let mut lower: Vec<i32> = Vec::new();
    let mut v: usize = 0;
    while v < 1 + 3 * n
        invariant
            v <= 1 + 3 * n,
            n == instance.jobs.len(),
            1 + 3 * n <= usize::MAX,
            m == instance.processor_count,
            inst == instance@,
            inst.wf(),
            lower.len() == v,
            forall|u: int|
                0 <= u < v ==> #[trigger] lower[u] == if 1 + n <= u < 1 + 2 * n {
                    inst.time(u - 1 - n, inst.processors)
                } else {
                    0
                },
        decreases 1 + 3 * n - v,
    {
        if 1 + n <= v && v < 1 + 2 * n {
            let at = v - 1 - n;
            assert(inst.jobs[at as int].times.len() == inst.processors);
            lower.push(instance.jobs[at].processing_time(m));
        } else {
            lower.push(0);
        }
        v += 1;
    }
    let program = LinearProgram { lower, objective: 0, at_most: rows, equal };
    assert(program@.lower =~= lower_bounds(inst));
    assert(program@.equal =~= Seq::<RowView>::empty());
    assert(program@.wf()) by {
        assert forall|r: int| 0 <= r < program@.at_most.len() implies program@.row_wf(
            #[trigger] program@.at_most[r],
        ) by {
            let row = program@.at_most[r];
            assert forall|k: int| 0 <= k < row.terms.len() implies 0 <= (#[trigger] row.terms[k]).0
                < program@.variables() by {
                assert(0 <= rows_of(program.at_most@)[r].terms[k].0 < count);
            }
        }
    }
    Ok(program)
}

/// The values can be used: there is one for each variable, and each is a
/// number.
pub open spec fn usable(instance: InstanceView, values: Seq<u64>) -> bool {
    values.len() == variable_count(instance) && all_finite(values)
}

/// The allotment of job `j`: the first of those whose processing time is
/// closest to the solved one, rounded to the nearest integer; but no more
/// than the cap.
pub open spec fn rounded_allotment(instance: InstanceView, values: Seq<u64>, j: int) -> int {
    let closest = closest_upto(
        instance.jobs[j],
        rounded(values[time_var(instance, j)]),
        instance.processors,
    );
    if closest <= mu(instance.jobs.len() as int) {
        closest
    } else {
        mu(instance.jobs.len() as int)
    }
}

/// What the list scheduler is given: for each job the rounded allotment and,
/// as its target, the completion time rounded to the nearest integer.
pub open spec fn ilp_input(instance: InstanceView, values: Seq<u64>, compress: bool) -> ListInput {
    ListInput {
        instance,
        allotment: Seq::new(instance.jobs.len(), |j: int| rounded_allotment(instance, values, j)),
        target: Seq::new(instance.jobs.len(), |j: int| rounded(values[completion_var(j)])),
        compress,
    }
}

/// Schedules the instance from the values that the linear program's
/// variables have: each job gets the allotment whose processing time is
/// closest to the solved one, capped by `mu`, and, as its target, its
/// completion time rounded to the nearest integer, and the list scheduler
/// does the rest.
pub fn schedule_solution(instance: &Instance, values: &Vec<u64>, compress: bool) -> (result: Result<
    Schedule,
    SchedulingError,
>)
    requires
        instance@.wf(),
    ensures
        match result {
            Ok(schedule) => {
                &&& usable(instance@, values@)
                &&& instance@.jobs.len() <= i32::MAX
                &&& ilp_input(instance@, values@, compress).horizon() <= i32::MAX
                &&& schedule@ == ilp_input(instance@, values@, compress).schedule()
                &&& schedule@.feasible(instance@)
            },
            Err(error) => {
                &&& error == SchedulingError::SolverFailure || error == SchedulingError::TooLong
                &&& error == SchedulingError::SolverFailure <==> !usable(instance@, values@)
                &&& error == SchedulingError::TooLong <==> usable(instance@, values@) && (
                instance@.jobs.len() > i32::MAX || ilp_input(instance@, values@, compress).horizon()
                    > i32::MAX)
            },
        },
{
    let n = instance.jobs.len();
    let m = instance.processor_count;
    let ghost inst = instance@;
    if n as u128 * 3 + 1 != values.len() as u128 {
        return Err(SchedulingError::SolverFailure);
    }
    let mut v: usize = 0;
    while v < values.len()
        invariant
            v <= values.len(),
            forall|u: int| 0 <= u < v ==> finite(#[trigger] values[u]),
        decreases values.len() - v,
    {
        if !crate::ieee::is_finite(values[v]) {
            assert(!finite(values@[v as int]));
            assert(!all_finite(values@));
            return Err(SchedulingError::SolverFailure);
        }
        v += 1;
    }
    assert(usable(inst, values@));
    if n > i32::MAX as usize {
        return Err(SchedulingError::TooLong);
    }
    let cap = compute_my(n);
    let ghost input = ilp_input(inst, values@, compress);
    let mut allotments: Vec<usize> = Vec::new();
    let mut targets: Vec<i32> = Vec::new();
    let mut j: usize = 0;
    while j < n
        invariant
            j <= n,
            n == instance.jobs.len(),
            m == instance.processor_count,
            inst == instance@,
            inst.wf(),
            usable(inst, values@),
            1 + 3 * n == values.len(),
            cap == mu(n as int),
            cap >= 1,
            input == ilp_input(inst, values@, compress),
            allotments.len() == j,
            targets.len() == j,
            forall|i: int| 0 <= i < j ==> #[trigger] allotments[i] == input.allotment[i],
            forall|i: int| 0 <= i < j ==> 1 <= #[trigger] input.allotment[i] <= inst.processors,
            forall|i: int| 0 <= i < j ==> #[trigger] targets[i] == input.target[i],
        decreases n - j,
    {
        assert(inst.jobs[j as int].times.len() == m);
        assert(finite(values[1 + n + j]));
        assert(instance.jobs[j as int]@ == inst.jobs[j as int]);
        let closest = instance.jobs[j].closest_allotment(round_to_i32(values[1 + n + j]));
        allotments.push(if closest <= cap {
            closest
        } else {
            cap
        });
        assert(finite(values[1 + j]));
        targets.push(round_to_i32(values[1 + j]));
        j += 1;
    }
    assert(list_input(*instance, allotments@, targets@, compress) =~= input) by {
        let given = list_input(*instance, allotments@, targets@, compress);
        assert(given.allotment =~= input.allotment);
        assert(given.target =~= input.target);
    }
    if !horizon_fits(instance, &allotments, &targets, compress) {
        return Err(SchedulingError::TooLong);
    }
    Ok(list_schedule(instance, &allotments, &targets, compress))
}

/// The solution of the instance's linear program with secant bounds, built
/// for its critical-path length.
pub open spec fn ilp_solution(instance: InstanceView) -> Option<Seq<u64>> {
    solved_by(ilp_program(instance, critical_length(instance)))
}

/// The program has a solution for the instance that can be used.
pub open spec fn ilp_solved(instance: InstanceView) -> bool {
    ilp_solution(instance) matches Some(values) && usable(instance, values)
}

/// What the linear program with secant bounds gives for the instance. An
/// instance that is not well formed is invalid. Then, where the
/// critical-path length cannot be computed, a number is too long. Then an
/// instance with a secant that is not defined is invalid. Then a number of
/// the program may not fit. Then the solver fails where the program has no
/// solution that can be used. Then the list scheduler's horizon may be too
/// long. Else the jobs are scheduled from the solver's values.
pub open spec fn ilp_outcome(instance: InstanceView, compress: bool) -> Result<
    ScheduleView,
    SchedulingError,
> {
    if !instance.wf() {
        Err(SchedulingError::InvalidInstance)
    } else if float_bound(instance) > i32::MAX {
        Err(SchedulingError::TooLong)
    } else if !secants_defined(instance) {
        Err(SchedulingError::InvalidInstance)
    } else if !ilp_fits(instance) {
        Err(SchedulingError::TooLong)
    } else if !ilp_solved(instance) {
        Err(SchedulingError::SolverFailure)
    } else if ilp_input(instance, ilp_solution(instance).unwrap(), compress).horizon() > i32::MAX {
        Err(SchedulingError::TooLong)
    } else {
        Ok(ilp_input(instance, ilp_solution(instance).unwrap(), compress).schedule())
    }
}

/// Schedules the instance by the linear program with secant bounds: the
/// program is built for the instance's critical-path length and solved, and
/// the jobs are scheduled from the solver's values.
pub fn schedule(instance: Instance, compress: bool) -> (result: Result<Schedule, SchedulingError>)
    ensures
        yields(result, ilp_outcome(instance@, compress)),
        result matches Ok(schedule) ==> schedule@.feasible(instance@),
{
    if instance.validate().is_err() {
        return Err(SchedulingError::InvalidInstance);
    }
    let length = match critical_path_length(&instance) {
        Ok(length) => length,
        Err(error) => {
            return Err(error);
        },
    };
    proof {
        lemma_critical_covers_jobs(instance@, length as int, 0);
        assert(instance@.time(0, 1) >= 1);
        assert(critical(instance@, critical_length(instance@)));
        lemma_critical_unique(instance@, length as int, critical_length(instance@));
    }
    let program = match build_program(&instance, length) {
        Ok(program) => program,
        Err(error) => {
            return Err(error);
        },
    };
    let values = match solve(&program) {
        Ok(values) => values,
        Err(error) => {
            return Err(error);
        },
    };
    schedule_solution(&instance, &values, compress)
}

} // verus!
