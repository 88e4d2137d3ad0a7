//! Linear programs with integer coefficients, and their solution by the
//! solver of the crate `good_lp`.

use vstd::prelude::*;
use good_lp::{default_solver, variable, Expression, ProblemVariables, ResolutionError, Solution, SolverModel};
use crate::error::SchedulingError;
use crate::ieee::finite;

verus! {

/// The mathematical content of a row: the sum of the terms, each a variable
/// times a coefficient, against a bound.
pub struct RowView {
    pub terms: Seq<(int, int)>,
    pub bound: int,
}

/// A row of a linear program: terms of a variable's number and its
/// coefficient, and the bound on their sum.
#[derive(Debug)]
pub struct Row {
    pub terms: Vec<(usize, i32)>,
    pub bound: i32,
}

impl View for Row {
    type V = RowView;

    open spec fn view(&self) -> RowView {
        RowView {
            terms: Seq::new(self.terms@.len(), |k: int| (self.terms@[k].0 as int, self.terms@[k].1 as int)),
            bound: self.bound as int,
        }
    }
}

/// The rows as mathematical values.
pub open spec fn rows_of(rows: Seq<Row>) -> Seq<RowView> {
    Seq::new(rows.len(), |r: int| rows[r]@)
}

/// The rows as plain pairs of terms and bound.
pub open spec fn plain(rows: Seq<RowView>) -> Seq<(Seq<(int, int)>, int)> {
    Seq::new(rows.len(), |r: int| (rows[r].terms, rows[r].bound))
}

/// The mathematical content of a linear program.
pub struct ProgramView {
    pub lower: Seq<int>,
    pub objective: int,
    pub at_most: Seq<RowView>,
    pub equal: Seq<RowView>,
}

impl ProgramView {
    /// The number of variables.
    pub open spec fn variables(self) -> int {
        self.lower.len() as int
    }

    /// The row names variables of the program only.
    pub open spec fn row_wf(self, row: RowView) -> bool {
        forall|k: int| 0 <= k < row.terms.len() ==> 0 <= (#[trigger] row.terms[k]).0 < self.variables()
    }

    /// The objective and the rows name variables of the program only.
    pub open spec fn wf(self) -> bool {
        &&& 0 <= self.objective < self.variables()
        &&& forall|r: int| 0 <= r < self.at_most.len() ==> self.row_wf(#[trigger] self.at_most[r])
        &&& forall|r: int| 0 <= r < self.equal.len() ==> self.row_wf(#[trigger] self.equal[r])
    }
}

/// A linear program over as many variables as `lower` has entries:
/// minimise the variable `objective` so that each variable is at least its
/// entry of `lower`, the sum of each row of `at_most` is at most its bound,
/// and the sum of each row of `equal` is its bound.
#[derive(Debug)]
pub struct LinearProgram {
    pub lower: Vec<i32>,
    pub objective: usize,
    pub at_most: Vec<Row>,
    pub equal: Vec<Row>,
}

impl View for LinearProgram {
    type V = ProgramView;

    open spec fn view(&self) -> ProgramView {
        ProgramView {
            lower: whole(self.lower@),
            objective: self.objective as int,
            at_most: rows_of(self.at_most@),
            equal: rows_of(self.equal@),
        }
    }
}

/// The error of the outside solver.
#[verifier::external_type_specification]
#[verifier::external_body]
pub struct ExResolutionError(good_lp::ResolutionError);

/// What the outside solver gives for a program: the values of the
/// variables, each as the 64 bits of a double-precision number, or nothing
/// where it fails. The program is given by the lower bounds of its
/// variables, its objective, its rows that bound a sum from above and its
/// rows with an exact bound.
pub uninterp spec fn minimiser(
    lower: Seq<int>,
    objective: int,
    at_most: Seq<(Seq<(int, int)>, int)>,
    equal: Seq<(Seq<(int, int)>, int)>,
) -> Option<Seq<u64>>;

/// Every row names variables below `variables` only.
pub open spec fn rows_wf(rows: Seq<RowView>, variables: int) -> bool {
    forall|r: int, k: int|
        0 <= r < rows.len() && 0 <= k < rows[r].terms.len() ==> 0 <= (#[trigger] rows[r].terms[k]).0
            < variables
}

/// Hands a program to `good_lp` with its default solver, here `microlp`:
/// each variable comes from `ProblemVariables::add` with its lower bound
/// (`variable().min`), the objective goes to `minimise`, each row becomes a
/// constraint by `Expression::leq` or `Expression::eq` and joins the model
/// by `SolverModel::with_all`. After `SolverModel::solve` the value of each
/// variable is read by `Solution::value` and returned as its bits
/// (`to_bits`). The solver works without chance or clock, so that what it
/// gives, values or a failure, is named as a function of the program;
/// nothing else is claimed of it but that there is a value for each
/// variable. The solver was seen not to return for a variable that can fall
/// without bound: here every variable has a lower bound. That it returns
/// for every program of this form is taken on trust.
#[verifier::external_body]
fn minimise(lower: &Vec<i32>, objective: usize, at_most: &Vec<Row>, equal: &Vec<Row>) -> (solved:
    Result<Vec<u64>, ResolutionError>)
    requires
        objective < lower.len(),
        rows_wf(rows_of(at_most@), lower.len() as int),
        rows_wf(rows_of(equal@), lower.len() as int),
    ensures
        solved is Ok == minimiser(
            whole(lower@),
            objective as int,
            plain(rows_of(at_most@)),
            plain(rows_of(equal@)),
        ) is Some,
        solved matches Ok(values) ==> Some(values@) == minimiser(
            whole(lower@),
            objective as int,
            plain(rows_of(at_most@)),
            plain(rows_of(equal@)),
        ),
        solved matches Ok(values) ==> values.len() == lower.len(),
{
    let mut vars = ProblemVariables::new();
    let xs: Vec<_> = lower.iter().map(|low| vars.add(variable().min(*low))).collect();
    let sum = |row: &Row| row.terms.iter().map(|t| t.1 * xs[t.0]).sum::<Expression>();
    let solved = vars
        .minimise(xs[objective])
        .using(default_solver)
        .with_all(at_most.iter().map(|row| sum(row).leq(row.bound)))
        .with_all(equal.iter().map(|row| sum(row).eq(row.bound)))
        .solve()?;
    Ok(xs.into_iter().map(|x| solved.value(x).to_bits()).collect())
}

/// What the solver gives for the program: the values of its variables, or
/// nothing where it fails.
pub open spec fn solution_of(program: ProgramView) -> Option<Seq<u64>> {
    minimiser(program.lower, program.objective, plain(program.at_most), plain(program.equal))
}

/// The numbers as mathematical integers.
pub open spec fn whole(numbers: Seq<i32>) -> Seq<int> {
    Seq::new(numbers.len(), |v: int| numbers[v] as int)
}

/// Every value is a number.
pub open spec fn all_finite(values: Seq<u64>) -> bool {
    forall|v: int| 0 <= v < values.len() ==> finite(#[trigger] values[v])
}

/// The solution of the program, if the solver gives one and each of its
/// values is a number.
pub open spec fn solved_by(program: ProgramView) -> Option<Seq<u64>> {
    match solution_of(program) {
        Some(values) => if all_finite(values) {
            Some(values)
        } else {
            None
        },
        None => None,
    }
}

proof fn lemma_rows_wf(program: ProgramView)
    requires
        program.wf(),
    ensures
        rows_wf(program.at_most, program.variables()),
        rows_wf(program.equal, program.variables()),
{
    assert forall|r: int, k: int|
        0 <= r < program.at_most.len() && 0 <= k < program.at_most[r].terms.len() implies 0 <= (
        #[trigger] program.at_most[r].terms[k]).0 < program.variables() by {
        assert(program.row_wf(program.at_most[r]));
    }
    assert forall|r: int, k: int|
        0 <= r < program.equal.len() && 0 <= k < program.equal[r].terms.len() implies 0 <= (
        #[trigger] program.equal[r].terms[k]).0 < program.variables() by {
        assert(program.row_wf(program.equal[r]));
    }
}

/// Solves the program: the value of each variable where the objective is
/// least, as the bits of a double-precision number. Fails where the solver
/// does or where it gives a value that is no number.
pub fn solve(program: &LinearProgram) -> (solved: Result<Vec<u64>, SchedulingError>)
    requires
        program@.wf(),
    ensures
        solved is Ok == solved_by(program@) is Some,
        solved matches Ok(values) ==> solved_by(program@) == Some(values@) && values.len()
            == program@.variables(),
        solved matches Err(error) ==> error == SchedulingError::SolverFailure,
{
    proof {
        lemma_rows_wf(program@);
    }
    match minimise(&program.lower, program.objective, &program.at_most, &program.equal) {
        Ok(values) => {
            let mut v: usize = 0;
            while v < values.len()
                invariant
                    v <= values.len(),
                    solution_of(program@) == Some(values@),
                    forall|u: int| 0 <= u < v ==> finite(#[trigger] values[u]),
                decreases values.len() - v,
            {
                if !crate::ieee::is_finite(values[v]) {
                    assert(!finite(values@[v as int]));
                    return Err(SchedulingError::SolverFailure);
                }
                v += 1;
            }
            Ok(values)
        },
        Err(_) => Err(SchedulingError::SolverFailure),
    }
}

} // verus!
