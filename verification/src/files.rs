//! Instances as text: a table of jobs and a table of constraints, each in
//! comma-separated form.
//!
//! The table of jobs starts with the row `id,p1,...,pm` and holds one row per
//! job: its identifier and its processing times on 1 to `m` processors. The
//! table of constraints starts with the row `id0,id1` and holds one row per
//! constraint: the identifiers of the job that comes first and of the job
//! that comes second.

use vstd::prelude::*;
use crate::algo::{Constraint, Instance, Job};
use crate::error::SchedulingError;

verus! {

/// The byte is a decimal digit.
pub open spec fn is_digit(byte: u8) -> bool {
    48 <= byte <= 57
}

/// Every byte is a decimal digit.
pub open spec fn all_digits(text: Seq<u8>) -> bool {
    forall|i: int| 0 <= i < text.len() ==> is_digit(#[trigger] text[i])
}

/// The number that the digits stand for.
pub open spec fn digits_value(digits: Seq<u8>) -> int
    decreases digits.len(),
{
    if digits.len() == 0 {
        0
    } else {
        digits_value(digits.drop_last()) * 10 + (digits.last() - 48)
    }
}

/// The number that the text stands for: digits, after a sign or without
/// one; `None` for any other text.
pub open spec fn number_of(text: Seq<u8>) -> Option<int> {
    if text.len() >= 2 && (text[0] == 45 || text[0] == 43) && all_digits(text.subrange(1, text.len() as int)) {
        if text[0] == 45 {
            Some(-digits_value(text.subrange(1, text.len() as int)))
        } else {
            Some(digits_value(text.subrange(1, text.len() as int)))
        }
    } else if text.len() >= 1 && all_digits(text) {
        Some(digits_value(text))
    } else {
        None
    }
}

/// The digits of a number that is not negative, without leading zeros.
pub open spec fn digits_of(value: int) -> Seq<u8>
    decreases value,
{
    if value < 10 {
        seq![(48 + value) as u8]
    } else {
        digits_of(value / 10).push((48 + value % 10) as u8)
    }
}

/// The number in decimal, with a minus sign if it is negative.
pub open spec fn decimal(value: int) -> Seq<u8> {
    if value < 0 {
        seq![45u8] + digits_of(-value)
    } else {
        digits_of(value)
    }
}

proof fn lemma_digits_of(value: int)
    requires
        value >= 0,
    ensures
        digits_of(value).len() >= 1,
        all_digits(digits_of(value)),
        digits_value(digits_of(value)) == value,
    decreases value,
{
    if value < 10 {
        assert(digits_of(value).drop_last() =~= Seq::<u8>::empty());
        assert(digits_value(digits_of(value)) == value) by {
            reveal_with_fuel(digits_value, 2);
        }
    } else {
        lemma_digits_of(value / 10);
        assert(digits_of(value).drop_last() =~= digits_of(value / 10));
    }
}

/// The decimal form of a number stands for that number.
pub proof fn lemma_decimal_round_trip(value: int)
    ensures
        number_of(decimal(value)) == Some(value),
{
    if value < 0 {
        lemma_digits_of(-value);
        assert(decimal(value).subrange(1, decimal(value).len() as int) =~= digits_of(-value));
    } else {
        lemma_digits_of(value);
    }
}

/// The number that the digits stand for, if it is at most `limit`.
fn parse_digits(text: &Vec<u8>, from: usize, limit: u64) -> (value: Option<u64>)
    requires
        from <= text.len(),
        limit <= 0x8000_0000,
    ensures
        match value {
            Some(value) => all_digits(text@.subrange(from as int, text.len() as int)) && value
                == digits_value(text@.subrange(from as int, text.len() as int)) && value <= limit,
            None => !all_digits(text@.subrange(from as int, text.len() as int)) || digits_value(
                text@.subrange(from as int, text.len() as int),
            ) > limit,
        },
{
    let ghost digits = text@.subrange(from as int, text.len() as int);
    let mut value: u64 = 0;
    let mut over = false;
    let mut i: usize = from;
    assert(digits.subrange(0, 0) =~= Seq::<u8>::empty());
    while i < text.len()
        invariant
            from <= i <= text.len(),
            limit <= 0x8000_0000,
            digits == text@.subrange(from as int, text.len() as int),
            all_digits(digits.subrange(0, i - from)),
            !over ==> value == digits_value(digits.subrange(0, i - from)) && value <= limit,
            over ==> digits_value(digits.subrange(0, i - from)) > limit,
        decreases text.len() - i,
    {
        let byte = text[i];
        assert(byte == digits[i - from]);
        if byte < 48 || byte > 57 {
            assert(!is_digit(digits[i - from]));
            return None;
        }
        let ghost shorter = digits.subrange(0, i - from);
        let ghost longer = digits.subrange(0, i - from + 1);
        assert(longer.drop_last() =~= shorter);
        assert(longer.last() == byte);
        assert(digits_value(longer) == digits_value(shorter) * 10 + (byte - 48));
        if !over {
            value = value * 10 + (byte - 48) as u64;
            if value > limit {
                over = true;
            }
        }
        i += 1;
    }
    assert(digits.subrange(0, digits.len() as int) =~= digits);
    if over {
        None
    } else {
        Some(value)
    }
}

/// The 32-bit number that the text stands for: digits, after a sign or
/// without one.
pub fn parse_number(text: &Vec<u8>) -> (value: Option<i32>)
    ensures
        match value {
            Some(value) => number_of(text@) == Some(value as int),
            None => number_of(text@) matches Some(exact) ==> exact < i32::MIN || exact > i32::MAX,
        },
{
    if text.len() == 0 {
        return None;
    }
    if text[0] == 45 || text[0] == 43 {
        if text.len() < 2 {
            assert(!is_digit(text@[0]));
            return None;
        }
        let minus = text[0] == 45;
        match parse_digits(text, 1, if minus {
            0x8000_0000
        } else {
            0x7fff_ffff
        }) {
            Some(value) => Some(
                if minus {
                    (0 - value as i64) as i32
                } else {
                    value as i32
                },
            ),
            None => {
                assert(!is_digit(text@[0]));
                None
            },
        }
    } else {
        assert(text@.subrange(0, text.len() as int) =~= text@);
        match parse_digits(text, 0, 0x7fff_ffff) {
            Some(value) => Some(value as i32),
            None => None,
        }
    }
}

/// The number in decimal, with a minus sign if it is negative.
pub fn format_number(value: i32) -> (text: Vec<u8>)
    ensures
        text@ == decimal(value as int),
{
    let mut rest: u32 = if value < 0 {
        (0 - value as i64) as u32
    } else {
        value as u32
    };
    let ghost whole = rest as int;
    let mut digits: Vec<u8> = Vec::new();
    digits.push((48 + rest % 10) as u8);
    rest = rest / 10;
    while rest > 0
        invariant
            digits.len() >= 1,
            digits_of(whole) == if rest > 0 {
                digits_of(rest as int) + digits@.reverse()
            } else {
                digits@.reverse()
            },
        decreases rest,
    {
        let ghost before = digits@;
        let ghost longer = rest;
        digits.push((48 + rest % 10) as u8);
        rest = rest / 10;
        proof {
            let digit = (48 + longer % 10) as u8;
            assert(digits@.reverse() =~= seq![digit] + before.reverse());
            if longer >= 10 {
                assert(digits_of(longer as int) =~= digits_of(rest as int).push(digit));
                assert(digits_of(longer as int) + before.reverse() =~= digits_of(rest as int)
                    + digits@.reverse());
            } else {
                assert(digits_of(longer as int) =~= seq![digit]);
                assert(digits_of(longer as int) + before.reverse() =~= digits@.reverse());
            }
        }
    }
    let mut text: Vec<u8> = Vec::new();
    if value < 0 {
        text.push(45);
    }
    let ghost sign = text@;
    let mut k: usize = digits.len();
    while k > 0
        invariant
            k <= digits.len(),
            text@ == sign + digits@.reverse().subrange(0, digits.len() - k),
        decreases k,
    {
        k -= 1;
        text.push(digits[k]);
        assert(text@ =~= sign + digits@.reverse().subrange(0, digits.len() - k));
    }
    assert(digits@.reverse().subrange(0, digits.len() as int) =~= digits@.reverse());
    text
}


/// A table: rows of cells of bytes.
pub type Table = Seq<Seq<Seq<u8>>>;

/// The cells of a row.
pub open spec fn row_of(row: Seq<Vec<u8>>) -> Seq<Seq<u8>> {
    Seq::new(row.len(), |c: int| row[c]@)
}

/// The rows of a table.
pub open spec fn table_of(rows: Seq<Vec<Vec<u8>>>) -> Table {
    Seq::new(rows.len(), |r: int| row_of(rows[r]@))
}

/// The text `id`.
pub open spec fn id_text() -> Seq<u8> {
    seq![105u8, 100u8]
}

/// The text `id0` or `id1`.
pub open spec fn side_text(side: u8) -> Seq<u8> {
    seq![105u8, 100u8, (48 + side) as u8]
}

/// The cell stands for a 32-bit number.
pub open spec fn is_number(cell: Seq<u8>) -> bool {
    number_of(cell) matches Some(value) && i32::MIN <= value <= i32::MAX
}

/// The 32-bit number that the cell stands for.
pub open spec fn number(cell: Seq<u8>) -> int {
    number_of(cell).unwrap()
}

/// The table of jobs can be read: its first row starts with `id` and names
/// at least one processing time, and every other row holds as many cells,
/// each a number.
pub open spec fn jobs_readable(table: Table) -> bool {
    &&& table.len() >= 1
    &&& table[0].len() >= 2
    &&& table[0][0] == id_text()
    &&& forall|r: int| 1 <= r < table.len() ==> (#[trigger] table[r]).len() == table[0].len()
    &&& forall|r: int, c: int|
        1 <= r < table.len() && 0 <= c < table[0].len() ==> is_number(#[trigger] table[r][c])
}

/// The identifier of the job in row `r`.
pub open spec fn job_id(table: Table, r: int) -> int {
    number(table[r][0])
}

/// A job with the identifier `id` stands in a row from `from` on.
pub open spec fn has_id(table: Table, id: int, from: int) -> bool {
    exists|r: int| from <= r < table.len() && #[trigger] job_id(table, r) == id
}

/// The first row from `from` on whose job has the identifier `id`.
pub open spec fn row_with_id(table: Table, id: int, from: int) -> int
    decreases table.len() - from,
{
    if from >= table.len() || job_id(table, from) == id {
        from
    } else {
        row_with_id(table, id, from + 1)
    }
}

/// The table of constraints can be read: its first row is `id0,id1`, and
/// every other row holds the identifiers of two jobs.
pub open spec fn constraints_readable(jobs: Table, table: Table) -> bool {
    &&& table.len() >= 1
    &&& table[0].len() == 2
    &&& table[0][0] == side_text(0)
    &&& table[0][1] == side_text(1)
    &&& forall|r: int|
        1 <= r < table.len() ==> {
            &&& (#[trigger] table[r]).len() == 2
            &&& is_number(table[r][0])
            &&& is_number(table[r][1])
            &&& has_id(jobs, number(table[r][0]), 1)
            &&& has_id(jobs, number(table[r][1]), 1)
        }
}

/// `value` is the largest processing time of the table, 0 for a table
/// without jobs.
pub open spec fn is_largest(table: Table, value: int) -> bool {
    if table.len() <= 1 {
        value == 0
    } else {
        &&& exists|r: int, c: int|
            1 <= r < table.len() && 1 <= c < table[0].len() && number(#[trigger] table[r][c]) == value
        &&& forall|r: int, c: int|
            1 <= r < table.len() && 1 <= c < table[0].len() ==> number(#[trigger] table[r][c]) <= value
    }
}

/// The largest processing time of the table, 0 for a table without jobs.
pub open spec fn largest_time(table: Table) -> int {
    choose|value: int| is_largest(table, value)
}

/// The job of row `r`: its processing times are the cells after the first.
pub open spec fn job_of(table: Table, r: int) -> crate::algo::JobView {
    crate::algo::JobView {
        index: r - 1,
        times: Seq::new((table[0].len() - 1) as nat, |a: int| number(table[r][a + 1])),
    }
}

/// The constraint of row `r`: the jobs with the two identifiers, each by
/// the first row that holds it.
pub open spec fn pair_of(jobs: Table, table: Table, r: int) -> (int, int) {
    (
        row_with_id(jobs, number(table[r][0]), 1) - 1,
        row_with_id(jobs, number(table[r][1]), 1) - 1,
    )
}

/// The instance that the two tables describe: as many processors as the
/// jobs have processing times, the jobs in the order of their rows, the
/// constraints in the order of theirs, and as time bound the largest
/// processing time for each job in turn.
pub open spec fn instance_of(jobs: Table, constraints: Table) -> crate::algo::InstanceView {
    crate::algo::InstanceView {
        processors: jobs[0].len() - 1,
        jobs: Seq::new((jobs.len() - 1) as nat, |j: int| job_of(jobs, j + 1)),
        constraints: Seq::new((constraints.len() - 1) as nat, |c: int| pair_of(jobs, constraints, c + 1)),
        max_time: (jobs.len() - 1) * largest_time(jobs),
    }
}

/// Whether the cell holds the text `id`.
fn is_id(cell: &Vec<u8>) -> (yes: bool)
    ensures
        yes == (cell@ == id_text()),
{
    let yes = cell.len() == 2 && cell[0] == 105 && cell[1] == 100;
    proof {
        if yes {
            assert(cell@ =~= id_text());
        } else if cell.len() == 2 {
            assert(cell@[0] != id_text()[0] || cell@[1] != id_text()[1]);
        }
    }
    yes
}

/// Whether the cell holds the text `id0` or `id1`.
fn is_side(cell: &Vec<u8>, side: u8) -> (yes: bool)
    requires
        side <= 1,
    ensures
        yes == (cell@ == side_text(side)),
{
    let yes = cell.len() == 3 && cell[0] == 105 && cell[1] == 100 && cell[2] == 48 + side;
    proof {
        if yes {
            assert(cell@ =~= side_text(side));
        } else if cell.len() == 3 {
            assert(cell@[0] != side_text(side)[0] || cell@[1] != side_text(side)[1] || cell@[2]
                != side_text(side)[2]);
        }
    }
    yes
}

/// The jobs of the table, each with its identifier, if the table can be
/// read.
fn read_jobs(table: &Vec<Vec<Vec<u8>>>) -> (read: Option<(Vec<i32>, Vec<Job>)>)
    ensures
        read is Some == jobs_readable(table_of(table@)),
        read matches Some((ids, jobs)) ==> {
            &&& ids.len() == table.len() - 1
            &&& jobs.len() == table.len() - 1
            &&& forall|j: int| 0 <= j < ids.len() ==> #[trigger] ids[j] == job_id(table_of(table@), j + 1)
            &&& forall|j: int| 0 <= j < jobs.len() ==> (#[trigger] jobs[j])@ == job_of(table_of(table@), j + 1)
        },
{
    let ghost view = table_of(table@);
    if table.len() < 1 {
        return None;
    }
    assert(view[0] == row_of(table@[0]@));
    if table[0].len() < 2 {
        return None;
    }
    assert(view[0][0] == table@[0]@[0]@);
    if !is_id(&table[0][0]) {
        return None;
    }
    let width = table[0].len();
    let mut ids: Vec<i32> = Vec::new();
    let mut jobs: Vec<Job> = Vec::new();
    let mut r: usize = 1;
    while r < table.len()
        invariant
            1 <= r <= table.len(),
            view == table_of(table@),
            width == table[0].len(),
            width == view[0].len(),
            width >= 2,
            ids.len() == r - 1,
            jobs.len() == r - 1,
            forall|q: int| 1 <= q < r ==> (#[trigger] view[q]).len() == view[0].len(),
            forall|q: int, c: int| 1 <= q < r && 0 <= c < view[0].len() ==> is_number(#[trigger] view[q][c]),
            forall|j: int| 0 <= j < ids.len() ==> #[trigger] ids[j] == job_id(view, j + 1),
            forall|j: int| 0 <= j < jobs.len() ==> (#[trigger] jobs[j])@ == job_of(view, j + 1),
        decreases table.len() - r,
    {
        assert(view[r as int] == row_of(table@[r as int]@));
        if table[r].len() != width {
            assert(view[r as int].len() != view[0].len());
            return None;
        }
        let mut numbers: Vec<i32> = Vec::new();
        let mut c: usize = 0;
        while c < width
            invariant
                c <= width,
                1 <= r < table.len(),
                view == table_of(table@),
                view[r as int] == row_of(table@[r as int]@),
                table[r as int].len() == width,
                numbers.len() == c,
                forall|b: int| 0 <= b < c ==> is_number(#[trigger] view[r as int][b]),
                forall|b: int| 0 <= b < c ==> #[trigger] numbers[b] == number(view[r as int][b]),
            decreases width - c,
        {
            assert(view[r as int][c as int] == table@[r as int]@[c as int]@);
            match parse_number(&table[r][c]) {
                Some(value) => {
                    numbers.push(value);
                },
                None => {
                    assert(!is_number(view[r as int][c as int]));
                    return None;
                },
            }
            c += 1;
        }
        let mut processing_times: Vec<i32> = Vec::new();
        let mut a: usize = 1;
        while a < width
            invariant
                1 <= a <= width,
                numbers.len() == width,
                processing_times.len() == a - 1,
                forall|b: int| 0 <= b < a - 1 ==> #[trigger] processing_times[b] == numbers[b + 1],
            decreases width - a,
        {
            processing_times.push(numbers[a]);
            a += 1;
        }
        let job = Job { index: r - 1, processing_times };
        assert(job@.times =~= job_of(view, r as int).times);
        ids.push(numbers[0]);
        jobs.push(job);
        r += 1;
    }
    Some((ids, jobs))
}

/// The place of the first job with the identifier, if there is one.
fn find_id(ids: &Vec<i32>, id: i32, Ghost(table): Ghost<Table>) -> (found: Option<usize>)
    requires
        table.len() == ids.len() + 1,
        forall|j: int| 0 <= j < ids.len() ==> #[trigger] ids[j] == job_id(table, j + 1),
    ensures
        found is Some == has_id(table, id as int, 1),
        found matches Some(place) ==> place < ids.len() && place == row_with_id(table, id as int, 1) - 1,
{
    let mut j: usize = 0;
    while j < ids.len()
        invariant
            j <= ids.len(),
            table.len() == ids.len() + 1,
            forall|j: int| 0 <= j < ids.len() ==> #[trigger] ids[j] == job_id(table, j + 1),
            forall|r: int| 1 <= r < j + 1 ==> #[trigger] job_id(table, r) != id,
            row_with_id(table, id as int, 1) == row_with_id(table, id as int, j + 1),
        decreases ids.len() - j,
    {
        assert(ids[j as int] == job_id(table, j + 1));
        if ids[j] == id {
            return Some(j);
        }
        j += 1;
    }
    None
}


/// The constraints of the table, if the table can be read.
fn read_constraints(ids: &Vec<i32>, table: &Vec<Vec<Vec<u8>>>, Ghost(jobs): Ghost<Table>) -> (read:
    Option<Vec<Constraint>>)
    requires
        jobs.len() == ids.len() + 1,
        forall|j: int| 0 <= j < ids.len() ==> #[trigger] ids[j] == job_id(jobs, j + 1),
    ensures
        read is Some == constraints_readable(jobs, table_of(table@)),
        read matches Some(constraints) ==> {
            &&& constraints.len() == table.len() - 1
            &&& forall|c: int|
                0 <= c < constraints.len() ==> (#[trigger] constraints[c])@ == pair_of(
                    jobs,
                    table_of(table@),
                    c + 1,
                )
            &&& forall|c: int|
                0 <= c < constraints.len() ==> (#[trigger] constraints[c]).0 < ids.len()
                    && constraints[c].1 < ids.len()
        },
{
    let ghost view = table_of(table@);
    if table.len() < 1 {
        return None;
    }
    assert(view[0] == row_of(table@[0]@));
    if table[0].len() != 2 {
        return None;
    }
    assert(view[0][0] == table@[0]@[0]@);
    assert(view[0][1] == table@[0]@[1]@);
    if !is_side(&table[0][0], 0) || !is_side(&table[0][1], 1) {
        return None;
    }
    let mut constraints: Vec<Constraint> = Vec::new();
    let mut r: usize = 1;
    while r < table.len()
        invariant
            1 <= r <= table.len(),
            view == table_of(table@),
            jobs.len() == ids.len() + 1,
            forall|j: int| 0 <= j < ids.len() ==> #[trigger] ids[j] == job_id(jobs, j + 1),
            constraints.len() == r - 1,
            forall|q: int|
                1 <= q < r ==> {
                    &&& (#[trigger] view[q]).len() == 2
                    &&& is_number(view[q][0])
                    &&& is_number(view[q][1])
                    &&& has_id(jobs, number(view[q][0]), 1)
                    &&& has_id(jobs, number(view[q][1]), 1)
                },
            forall|c: int|
                0 <= c < constraints.len() ==> (#[trigger] constraints[c])@ == pair_of(jobs, view, c + 1),
            forall|c: int|
                0 <= c < constraints.len() ==> (#[trigger] constraints[c]).0 < ids.len()
                    && constraints[c].1 < ids.len(),
        decreases table.len() - r,
    {
        assert(view[r as int] == row_of(table@[r as int]@));
        if table[r].len() != 2 {
            assert(view[r as int].len() != 2);
            return None;
        }
        assert(view[r as int][0] == table@[r as int]@[0]@);
        assert(view[r as int][1] == table@[r as int]@[1]@);
        let left = match parse_number(&table[r][0]) {
            Some(left) => left,
            None => {
                assert(!is_number(view[r as int][0]));
                return None;
            },
        };
        let right = match parse_number(&table[r][1]) {
            Some(right) => right,
            None => {
                assert(!is_number(view[r as int][1]));
                return None;
            },
        };
        let first = match find_id(ids, left, Ghost(jobs)) {
            Some(first) => first,
            None => {
                assert(!has_id(jobs, number(view[r as int][0]), 1));
                return None;
            },
        };
        let second = match find_id(ids, right, Ghost(jobs)) {
            Some(second) => second,
            None => {
                assert(!has_id(jobs, number(view[r as int][1]), 1));
                return None;
            },
        };
        constraints.push(Constraint(first, second));
        r += 1;
    }
    Some(constraints)
}

/// The largest processing time of the jobs, 0 without jobs.
fn largest(jobs: &Vec<Job>, Ghost(table): Ghost<Table>) -> (value: i32)
    requires
        table.len() == jobs.len() + 1,
        table[0].len() >= 2,
        forall|j: int| 0 <= j < jobs.len() ==> (#[trigger] jobs[j])@ == job_of(table, j + 1),
        forall|r: int, c: int| 1 <= r < table.len() && 0 <= c < table[0].len() ==> is_number(#[trigger] table[r][c]),
    ensures
        is_largest(table, value as int),
{
    if jobs.len() == 0 {
        return 0;
    }
    let ghost width = table[0].len() as int;
    assert(jobs[0]@ == job_of(table, 1));
    assert(jobs[0]@.times.len() == width - 1);
    let mut value: i32 = jobs[0].processing_times[0];
    assert(value == jobs[0]@.times[0]);
    let mut j: usize = 0;
    while j < jobs.len()
        invariant
            j <= jobs.len(),
            jobs.len() >= 1,
            width == table[0].len(),
            width >= 2,
            table.len() == jobs.len() + 1,
            forall|j: int| 0 <= j < jobs.len() ==> (#[trigger] jobs[j])@ == job_of(table, j + 1),
            exists|r: int, c: int| 1 <= r < table.len() && 1 <= c < width && number(#[trigger] table[r][c]) == value,
            forall|r: int, c: int| 1 <= r < j + 1 && 1 <= c < width ==> number(#[trigger] table[r][c]) <= value,
        decreases jobs.len() - j,
    {
        assert(jobs[j as int]@ == job_of(table, j + 1));
        assert(jobs[j as int]@.times.len() == width - 1);
        let mut a: usize = 0;
        while a < jobs[j].processing_times.len()
            invariant
                a <= jobs[j as int].processing_times.len(),
                j < jobs.len(),
                width == table[0].len(),
                table.len() == jobs.len() + 1,
                jobs[j as int]@ == job_of(table, j + 1),
                jobs[j as int].processing_times.len() == width - 1,
                exists|r: int, c: int| 1 <= r < table.len() && 1 <= c < width && number(#[trigger] table[r][c]) == value,
                forall|r: int, c: int| 1 <= r < j + 1 && 1 <= c < width ==> number(#[trigger] table[r][c]) <= value,
                forall|c: int| 1 <= c < a + 1 ==> number(#[trigger] table[j + 1][c]) <= value,
            decreases jobs[j as int].processing_times.len() - a,
        {
            let time = jobs[j].processing_times[a];
            assert(time == jobs[j as int]@.times[a as int]);
            assert(time == number(table[j + 1][a + 1]));
            if time > value {
                value = time;
            }
            a += 1;
        }
        j += 1;
    }
    value
}

/// What two tables give: the instance that they describe, if they can be
/// read, its time bound fits 32 bits and it is well formed. Tables that
/// cannot be read are invalid; then a bound that does not fit is too long;
/// then an instance that is not well formed is invalid.
pub open spec fn from_tables(jobs: Table, constraints: Table) -> Result<
    crate::algo::InstanceView,
    SchedulingError,
> {
    let described = instance_of(jobs, constraints);
    if !jobs_readable(jobs) || !constraints_readable(jobs, constraints) {
        Err(SchedulingError::InvalidInstance)
    } else if !(i32::MIN <= described.max_time <= i32::MAX) {
        Err(SchedulingError::TooLong)
    } else if !described.wf() {
        Err(SchedulingError::InvalidInstance)
    } else {
        Ok(described)
    }
}

/// The result is the expected one: the same error, or an instance with the
/// expected content.
pub open spec fn gives(
    result: Result<Instance, SchedulingError>,
    expected: Result<crate::algo::InstanceView, SchedulingError>,
) -> bool {
    match (result, expected) {
        (Ok(instance), Ok(content)) => instance@ == content,
        (Err(error), Err(reason)) => error == reason,
        _ => false,
    }
}

/// The instance that the two tables describe, if they can be read, its time
/// bound fits and it is well formed.
pub fn instance_from_tables(jobs: &Vec<Vec<Vec<u8>>>, constraints: &Vec<Vec<Vec<u8>>>) -> (result:
    Result<Instance, SchedulingError>)
    ensures
        gives(result, from_tables(table_of(jobs@), table_of(constraints@))),
        result matches Ok(instance) ==> instance@.wf(),
{
    let ghost job_table = table_of(jobs@);
    let ghost constraint_table = table_of(constraints@);
    let (ids, read) = match read_jobs(jobs) {
        Some(read) => read,
        None => {
            return Err(SchedulingError::InvalidInstance);
        },
    };
    let pairs = match read_constraints(&ids, constraints, Ghost(job_table)) {
        Some(pairs) => pairs,
        None => {
            return Err(SchedulingError::InvalidInstance);
        },
    };
    assert(job_table[0] == row_of(jobs@[0]@));
    let processor_count = jobs[0].len() - 1;
    let most = largest(&read, Ghost(job_table));
    proof {
        lemma_largest_unique(job_table, most as int, largest_time(job_table));
        assert(read.len() * most <= 0xffff_ffff_ffff_ffff * 0x8000_0000 && read.len() * most
            >= -0xffff_ffff_ffff_ffff * 0x8000_0000) by (nonlinear_arith)
            requires
                0 <= read.len() <= 0xffff_ffff_ffff_ffff,
                -0x8000_0000 <= most <= 0x8000_0000,
        ;
    }
    let bound: i128 = read.len() as i128 * most as i128;
    if bound < i32::MIN as i128 || bound > i32::MAX as i128 {
        return Err(SchedulingError::TooLong);
    }
    let instance = Instance { processor_count, jobs: read, constraints: pairs, max_time: bound as i32 };
    assert(instance@ =~= instance_of(job_table, constraint_table)) by {
        assert(instance@.jobs =~= instance_of(job_table, constraint_table).jobs);
        assert(instance@.constraints =~= instance_of(job_table, constraint_table).constraints);
    }
    if instance.validate().is_err() {
        return Err(SchedulingError::InvalidInstance);
    }
    Ok(instance)
}

proof fn lemma_largest_unique(table: Table, left: int, right: int)
    requires
        is_largest(table, left),
    ensures
        is_largest(table, right) ==> left == right,
        is_largest(table, largest_time(table)),
{
}


/// The error of the outside reader and writer.
#[verifier::external_type_specification]
#[verifier::external_body]
pub struct ExCsvError(csv::Error);

/// The table that a comma-separated text holds: one row for each record,
/// the first one too, one cell for each field; or nothing where the text
/// cannot be read.
pub uninterp spec fn csv_table(text: Seq<u8>) -> Option<Seq<Seq<Seq<u8>>>>;

/// The comma-separated text of a table.
pub uninterp spec fn csv_text(table: Seq<Seq<Seq<u8>>>) -> Seq<u8>;

/// Reads the text with the crate `csv`: a reader made by `ReaderBuilder`
/// with `has_headers(false)` and `from_reader`, its `records`, each field
/// as its bytes. What the reader makes of a text, a table or a failure, is
/// named: it depends on the text alone. It fails where rows differ in
/// length or a field is not UTF-8.
#[verifier::external_body]
fn parse_table(text: &Vec<u8>) -> (parsed: Result<Vec<Vec<Vec<u8>>>, csv::Error>)
    ensures
        parsed is Ok == csv_table(text@) is Some,
        parsed matches Ok(rows) ==> Some(table_of(rows@)) == csv_table(text@),
{
    let mut reader = csv::ReaderBuilder::new().has_headers(false).from_reader(text.as_slice());
    let cells = |record: csv::StringRecord| record.iter().map(|cell| cell.as_bytes().to_vec()).collect();
    reader.records().map(|record| record.map(cells)).collect()
}

/// Every row has as many cells as the first.
pub open spec fn same_width(table: Table) -> bool {
    forall|r: int| 0 <= r < table.len() ==> (#[trigger] table[r]).len() == table[0].len()
}

/// Writes the table with the crate `csv`: a writer made by
/// `Writer::from_writer` on a vector of bytes, `write_record` for each row,
/// and the bytes from `into_inner`. What the writer makes of a table is
/// named. `write_record` fails where a row has another number of cells than
/// the first row, or where the underlying writer fails; a vector of bytes
/// takes whatever is written to it, so that the call succeeds exactly for
/// rows of one width.
#[verifier::external_body]
fn write_table(rows: &Vec<Vec<Vec<u8>>>) -> (written: Result<Vec<u8>, csv::Error>)
    ensures
        written is Ok == same_width(table_of(rows@)),
        written matches Ok(text) ==> text@ == csv_text(table_of(rows@)),
{
    let mut writer = csv::Writer::from_writer(Vec::new());
    for row in rows.iter() {
        writer.write_record(row)?;
    }
    writer.into_inner().map_err(|error| error.into_error().into())
}

/// What two texts give: what their tables give, if both can be read as
/// tables; else they are invalid.
pub open spec fn from_texts(job_text: Seq<u8>, constraint_text: Seq<u8>) -> Result<
    crate::algo::InstanceView,
    SchedulingError,
> {
    match (csv_table(job_text), csv_table(constraint_text)) {
        (Some(jobs), Some(constraints)) => from_tables(jobs, constraints),
        _ => Err(SchedulingError::InvalidInstance),
    }
}

/// Reads an instance from the text of its table of jobs and the text of its
/// table of constraints.
pub fn read(job_text: &Vec<u8>, constraint_text: &Vec<u8>) -> (result: Result<Instance, SchedulingError>)
    ensures
        gives(result, from_texts(job_text@, constraint_text@)),
        result matches Ok(instance) ==> instance@.wf(),
{
    let jobs = match parse_table(job_text) {
        Ok(jobs) => jobs,
        Err(_) => {
            return Err(SchedulingError::InvalidInstance);
        },
    };
    let constraints = match parse_table(constraint_text) {
        Ok(constraints) => constraints,
        Err(_) => {
            return Err(SchedulingError::InvalidInstance);
        },
    };
    instance_from_tables(&jobs, &constraints)
}

/// The first row of the table of jobs: `id`, then `p1` to `pm`.
pub open spec fn job_header(m: int) -> Seq<Seq<u8>> {
    Seq::new((m + 1) as nat, |c: int| if c == 0 {
        id_text()
    } else {
        seq![112u8] + decimal(c)
    })
}

/// The row of a job: its index, then its processing times.
pub open spec fn job_row(job: crate::algo::JobView) -> Seq<Seq<u8>> {
    Seq::new(job.times.len() + 1, |c: int| if c == 0 {
        decimal(job.index)
    } else {
        decimal(job.times[c - 1])
    })
}

/// The table of jobs of an instance.
pub open spec fn job_table(instance: crate::algo::InstanceView) -> Table {
    Seq::new(instance.jobs.len() + 1, |r: int| if r == 0 {
        job_header(instance.processors)
    } else {
        job_row(instance.jobs[r - 1])
    })
}

/// The table of constraints of an instance.
pub open spec fn constraint_table(instance: crate::algo::InstanceView) -> Table {
    Seq::new(instance.constraints.len() + 1, |r: int| if r == 0 {
        seq![side_text(0), side_text(1)]
    } else {
        seq![decimal(instance.constraints[r - 1].0), decimal(instance.constraints[r - 1].1)]
    })
}

/// The number in decimal, if it fits 32 bits.
fn format_count(value: usize) -> (text: Option<Vec<u8>>)
    ensures
        text is Some == (value <= i32::MAX),
        text matches Some(text) ==> text@ == decimal(value as int),
{
    if value > i32::MAX as usize {
        None
    } else {
        Some(format_number(value as i32))
    }
}

/// The numbers to write fit 32 bits: the number of processors, the index of
/// each job and the jobs that the constraints name.
pub open spec fn writable(instance: crate::algo::InstanceView) -> bool {
    &&& instance.processors <= i32::MAX
    &&& forall|j: int| 0 <= j < instance.jobs.len() ==> (#[trigger] instance.jobs[j]).index <= i32::MAX
    &&& forall|c: int|
        0 <= c < instance.constraints.len() ==> (#[trigger] instance.constraints[c]).0 <= i32::MAX
            && instance.constraints[c].1 <= i32::MAX
}

/// The tables of jobs and of constraints of an instance, if its numbers fit.
pub fn tables_of(instance: &Instance) -> (tables: Option<(Vec<Vec<Vec<u8>>>, Vec<Vec<Vec<u8>>>)>)
    ensures
        tables is Some == writable(instance@),
        tables matches Some((jobs, constraints)) ==> table_of(jobs@) == job_table(instance@) && table_of(
            constraints@,
        ) == constraint_table(instance@),
{
    let m = instance.processor_count;
    let mut header: Vec<Vec<u8>> = Vec::new();
    let mut id: Vec<u8> = Vec::new();
    id.push(105);
    id.push(100);
    assert(id@ =~= id_text());
    header.push(id);
    let mut c: usize = 1;
    while c <= m
        invariant
            1 <= c,
            header.len() == c,
            c <= m + 1,
            c - 1 <= i32::MAX,
            m == instance.processor_count,
            forall|b: int| 0 <= b < c ==> (#[trigger] header[b])@ == job_header(m as int)[b],
        decreases m + 1 - c,
    {
        let digits = match format_count(c) {
            Some(digits) => digits,
            None => {
                return None;
            },
        };
        let mut name: Vec<u8> = Vec::new();
        name.push(112);
        let mut d: usize = 0;
        while d < digits.len()
            invariant
                d <= digits.len(),
                name@ == seq![112u8] + digits@.subrange(0, d as int),
            decreases digits.len() - d,
        {
            name.push(digits[d]);
            d += 1;
            assert(name@ =~= seq![112u8] + digits@.subrange(0, d as int));
        }
        assert(digits@.subrange(0, digits.len() as int) =~= digits@);
        header.push(name);
        c += 1;
    }
    let mut jobs: Vec<Vec<Vec<u8>>> = Vec::new();
    assert(row_of(header@) =~= job_header(m as int));
    jobs.push(header);
    let mut j: usize = 0;
    while j < instance.jobs.len()
        invariant
            j <= instance.jobs.len(),
            jobs.len() == j + 1,
            m <= i32::MAX,
            m == instance.processor_count,
            forall|r: int| 0 <= r < jobs.len() ==> row_of((#[trigger] jobs[r])@) == job_table(instance@)[r],
            forall|i: int| 0 <= i < j ==> (#[trigger] instance@.jobs[i]).index <= i32::MAX,
        decreases instance.jobs.len() - j,
    {
        let job = &instance.jobs[j];
        assert(instance@.jobs[j as int].index == job.index);
        let mut row: Vec<Vec<u8>> = Vec::new();
        match format_count(job.index) {
            Some(digits) => {
                row.push(digits);
            },
            None => {
                return None;
            },
        }
        let mut a: usize = 0;
        while a < job.processing_times.len()
            invariant
                a <= job.processing_times.len(),
                row.len() == a + 1,
                forall|b: int| 0 <= b < row.len() ==> (#[trigger] row[b])@ == job_row(job@)[b],
            decreases job.processing_times.len() - a,
        {
            row.push(format_number(job.processing_times[a]));
            a += 1;
        }
        assert(row_of(row@) =~= job_row(job@));
        jobs.push(row);
        j += 1;
    }
    let mut constraints: Vec<Vec<Vec<u8>>> = Vec::new();
    let mut sides: Vec<Vec<u8>> = Vec::new();
    let mut side: u8 = 0;
    while side < 2
        invariant
            side <= 2,
            sides.len() == side,
            forall|b: int| 0 <= b < side ==> (#[trigger] sides[b])@ == side_text(b as u8),
        decreases 2 - side,
    {
        let mut name: Vec<u8> = Vec::new();
        name.push(105);
        name.push(100);
        name.push(48 + side);
        assert(name@ =~= side_text(side));
        sides.push(name);
        side += 1;
    }
    assert(row_of(sides@) =~= seq![side_text(0), side_text(1)]);
    constraints.push(sides);
    let mut k: usize = 0;
    while k < instance.constraints.len()
        invariant
            k <= instance.constraints.len(),
            constraints.len() == k + 1,
            forall|r: int|
                0 <= r < constraints.len() ==> row_of((#[trigger] constraints[r])@) == constraint_table(
                    instance@,
                )[r],
            forall|c: int|
                0 <= c < k ==> (#[trigger] instance@.constraints[c]).0 <= i32::MAX
                    && instance@.constraints[c].1 <= i32::MAX,
        decreases instance.constraints.len() - k,
    {
        assert(instance@.constraints[k as int] == instance.constraints@[k as int]@);
        let mut row: Vec<Vec<u8>> = Vec::new();
        match format_count(instance.constraints[k].0) {
            Some(digits) => {
                row.push(digits);
            },
            None => {
                return None;
            },
        }
        match format_count(instance.constraints[k].1) {
            Some(digits) => {
                row.push(digits);
            },
            None => {
                return None;
            },
        }
        assert(instance@.constraints[k as int] == instance.constraints@[k as int]@);
        assert(row_of(row@) =~= constraint_table(instance@)[k + 1]);
        constraints.push(row);
        k += 1;
    }
    assert(table_of(jobs@) =~= job_table(instance@));
    assert(table_of(constraints@) =~= constraint_table(instance@));
    Some((jobs, constraints))
}

/// Every job has as many processing times as there are processors.
pub open spec fn full_rows(instance: crate::algo::InstanceView) -> bool {
    forall|j: int| 0 <= j < instance.jobs.len() ==> (#[trigger] instance.jobs[j]).times.len() == instance.processors
}

/// The table of jobs has rows of one width exactly if every job has as many
/// processing times as there are processors; the table of constraints
/// always has.
pub proof fn lemma_table_widths(instance: crate::algo::InstanceView)
    requires
        instance.processors >= 0,
    ensures
        same_width(job_table(instance)) == full_rows(instance),
        same_width(constraint_table(instance)),
{
    let jobs = job_table(instance);
    assert(jobs[0] == job_header(instance.processors));
    if full_rows(instance) {
        assert forall|r: int| 0 <= r < jobs.len() implies (#[trigger] jobs[r]).len() == jobs[0].len() by {
            if r > 0 {
                assert(jobs[r] == job_row(instance.jobs[r - 1]));
            }
        }
    }
    if same_width(jobs) {
        assert forall|j: int| 0 <= j < instance.jobs.len() implies (#[trigger] instance.jobs[j]).times.len()
            == instance.processors by {
            assert(jobs[j + 1] == job_row(instance.jobs[j]));
            assert(jobs[j + 1].len() == jobs[0].len());
        }
    }
    let constraints = constraint_table(instance);
    assert forall|r: int| 0 <= r < constraints.len() implies (#[trigger] constraints[r]).len()
        == constraints[0].len() by {}
}

/// Writes an instance: the text of its table of jobs and the text of its
/// table of constraints. `None` if a number does not fit 32 bits or a job
/// has another number of processing times than there are processors.
pub fn write(instance: &Instance) -> (texts: Option<(Vec<u8>, Vec<u8>)>)
    ensures
        texts is Some == (writable(instance@) && full_rows(instance@)),
        texts matches Some((jobs, constraints)) ==> jobs@ == csv_text(job_table(instance@))
            && constraints@ == csv_text(constraint_table(instance@)),
{
    let (jobs, constraints) = match tables_of(instance) {
        Some(tables) => tables,
        None => {
            return None;
        },
    };
    proof {
        lemma_table_widths(instance@);
    }
    let job_text = match write_table(&jobs) {
        Ok(text) => text,
        Err(_) => {
            return None;
        },
    };
    let constraint_text = match write_table(&constraints) {
        Ok(text) => text,
        Err(_) => {
            return None;
        },
    };
    Some((job_text, constraint_text))
}


/// In the table of jobs of an instance whose jobs sit at their indices, the
/// first row from `from` on with the identifier of job `j` is the row of job
/// `j`.
proof fn lemma_row_with_id(instance: crate::algo::InstanceView, j: int, from: int)
    requires
        0 <= j < instance.jobs.len(),
        1 <= from <= j + 1,
        forall|i: int| 0 <= i < instance.jobs.len() ==> (#[trigger] instance.jobs[i]).index == i,
    ensures
        row_with_id(job_table(instance), j, from) == j + 1,
        has_id(job_table(instance), j, 1),
    decreases j + 1 - from,
{
    let table = job_table(instance);
    assert(table[j + 1] == job_row(instance.jobs[j]));
    lemma_decimal_round_trip(instance.jobs[j].index);
    assert(job_id(table, j + 1) == j);
    if from < j + 1 {
        assert(table[from] == job_row(instance.jobs[from - 1]));
        lemma_decimal_round_trip(instance.jobs[from - 1].index);
        assert(job_id(table, from) == from - 1);
        lemma_row_with_id(instance, j, from + 1);
    }
}

/// The tables of a well-formed instance describe its processors, its jobs
/// and its constraints again.
pub proof fn lemma_tables_round_trip(instance: crate::algo::InstanceView)
    requires
        instance.wf(),
        writable(instance),
        forall|j: int, a: int|
            0 <= j < instance.jobs.len() && 1 <= a <= instance.processors ==> #[trigger] instance.time(j, a)
                <= i32::MAX,
    ensures
        jobs_readable(job_table(instance)),
        constraints_readable(job_table(instance), constraint_table(instance)),
        instance_of(job_table(instance), constraint_table(instance)).processors == instance.processors,
        instance_of(job_table(instance), constraint_table(instance)).jobs == instance.jobs,
        instance_of(job_table(instance), constraint_table(instance)).constraints == instance.constraints,
{
    let jobs = job_table(instance);
    let constraints = constraint_table(instance);
    let n = instance.jobs.len() as int;
    let m = instance.processors;
    let rank = choose|rank: Seq<int>| #[trigger] crate::algo::ranks(rank, n, instance.constraints);
    assert(jobs[0] == job_header(m));
    assert forall|r: int, c: int| 1 <= r < jobs.len() && 0 <= c < jobs[0].len() implies is_number(
        #[trigger] jobs[r][c],
    ) && number(jobs[r][c]) == if c == 0 {
        r - 1
    } else {
        instance.time(r - 1, c)
    } by {
        assert(jobs[r] == job_row(instance.jobs[r - 1]));
        assert(instance.jobs[r - 1].index == r - 1);
        if c == 0 {
            lemma_decimal_round_trip(r - 1);
        } else {
            assert(instance.time(r - 1, c) >= 1);
            lemma_decimal_round_trip(instance.jobs[r - 1].times[c - 1]);
        }
    }
    assert forall|r: int| 1 <= r < jobs.len() implies (#[trigger] jobs[r]).len() == jobs[0].len() by {
        assert(jobs[r] == job_row(instance.jobs[r - 1]));
    }
    assert forall|r: int| 1 <= r < constraints.len() implies {
        &&& (#[trigger] constraints[r]).len() == 2
        &&& is_number(constraints[r][0])
        &&& is_number(constraints[r][1])
        &&& has_id(jobs, number(constraints[r][0]), 1)
        &&& has_id(jobs, number(constraints[r][1]), 1)
        &&& pair_of(jobs, constraints, r) == instance.constraints[r - 1]
    } by {
        let pair = instance.constraints[r - 1];
        assert(0 <= pair.0 < n && 0 <= pair.1 < n);
        lemma_decimal_round_trip(pair.0);
        lemma_decimal_round_trip(pair.1);
        lemma_row_with_id(instance, pair.0, 1);
        lemma_row_with_id(instance, pair.1, 1);
    }
    let again = instance_of(jobs, constraints);
    assert forall|j: int| 0 <= j < n implies #[trigger] again.jobs[j] == instance.jobs[j] by {
        assert(again.jobs[j] == job_of(jobs, j + 1));
        assert(instance.jobs[j].index == j);
        assert forall|a: int| 0 <= a < m implies job_of(jobs, j + 1).times[a] == instance.jobs[j].times[a] by {
            assert(is_number(jobs[j + 1][a + 1]));
            assert(number(jobs[j + 1][a + 1]) == instance.time(j, a + 1));
        }
        assert(job_of(jobs, j + 1).times =~= instance.jobs[j].times);
    }
    assert(again.jobs =~= instance.jobs);
    assert(again.constraints =~= instance.constraints);
}

} // verus!
