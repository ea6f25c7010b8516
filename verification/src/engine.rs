//! The pivot engine: runs the simplex iteration loop on a tableau.
//!
//! Each iteration picks the entering column by Bland's rule (the first
//! column with a strictly positive reduced cost — the anti-cycling rule),
//! picks the leaving row by the minimum-ratio test (ties broken towards the
//! smallest row index), and pivots. The loop ends in one of four terminal
//! states: no positive reduced cost and a positive Artificial variable left
//! in the basis (`Unfeasible`); no positive reduced cost otherwise
//! (`Feasible`, with the decision values read off the basis); a positive
//! column with no qualifying row (`Unbounded`); or an exhausted iteration
//! budget (`MaxIterationReached`).
//!
//! The whole loop is mirrored by the specification function `spec_run`, and
//! the executable `run` is proved to return exactly the mirrored outcome
//! (or `None` exactly when the checked rational arithmetic of a pivot
//! leaves the representable range).

use vstd::prelude::*;
use crate::rat::{
    Rat,
    rat_zero,
    spec_neg,
    spec_sub,
    spec_mul,
    spec_div,
    is_pos_val,
    is_neg_val,
    lt_val,
    le_val,
    lemma_spec_div_val,
    lemma_le_val_trans,
};
use crate::model::{Direction, VarKind, Variable, SolveState, Solution, SolModel, rats_wf};
use crate::standardize::TabModel;
use crate::standardize::Tableau;

verus! {

/// Bland's rule: the first column at or after `i` with a strictly positive
/// reduced cost.
pub open spec fn first_pos_col(obj: Seq<Rat>, i: int) -> Option<int>
    decreases obj.len() - i,
{
    if i < 0 || i >= obj.len() {
        None
    } else if is_pos_val(obj[i]) {
        Some(i)
    } else {
        first_pos_col(obj, i + 1)
    }
}

pub proof fn lemma_first_pos_skip(obj: Seq<Rat>, i: int)
    requires
        0 <= i <= obj.len(),
        forall|j: int| 0 <= j < i ==> !is_pos_val(obj[j]),
    ensures
        first_pos_col(obj, 0) == first_pos_col(obj, i),
    decreases i,
{
    if i > 0 {
        lemma_first_pos_skip(obj, i - 1);
    }
}

pub proof fn lemma_first_pos_props(obj: Seq<Rat>, i: int)
    ensures
        first_pos_col(obj, i) matches Some(x) ==> i <= x < obj.len() && is_pos_val(obj[x]),
    decreases obj.len() - i,
{
    if 0 <= i < obj.len() && !is_pos_val(obj[i]) {
        lemma_first_pos_props(obj, i + 1);
    }
}

/// A row qualifies for the minimum-ratio test when the entering column's
/// entry is strictly positive and the right-hand side is non-negative.
pub open spec fn qualifies(t: TabModel, x: int, i: int) -> bool {
    is_pos_val(t.matrix[i][x]) && !is_neg_val(t.rhs[i])
}

/// The minimum-ratio scan from row `i`, carrying the best (row, ratio) so
/// far. A strictly smaller ratio replaces the best, so ties keep the first
/// row. The outer `Option` is `None` when a ratio leaves the representable
/// range; the inner one is `None` when no row qualifies.
pub open spec fn min_ratio_scan(t: TabModel, x: int, i: int, best: Option<(int, Rat)>) -> Option<
    Option<(int, Rat)>,
>
    decreases t.rows() - i,
{
    if i < 0 || i >= t.rows() {
        Some(best)
    } else if qualifies(t, x, i) {
        match spec_div(t.rhs[i], t.matrix[i][x]) {
            Option::None => Option::None,
            Option::Some(ratio) => {
                let best2 = match best {
                    Option::None => Some((i, ratio)),
                    Option::Some(b) => if lt_val(ratio, b.1) {
                        Some((i, ratio))
                    } else {
                        best
                    },
                };
                min_ratio_scan(t, x, i + 1, best2)
            },
        }
    } else {
        min_ratio_scan(t, x, i + 1, best)
    }
}

/// The leaving row for entering column `x`.
pub open spec fn spec_min_ratio(t: TabModel, x: int) -> Option<Option<(int, Rat)>> {
    min_ratio_scan(t, x, 0, Option::None)
}

pub proof fn lemma_min_ratio_scan_props(t: TabModel, x: int, i: int, best: Option<(int, Rat)>)
    requires
        best matches Some(b) ==> 0 <= b.0 < t.rows(),
    ensures
        min_ratio_scan(t, x, i, best) matches Some(o) ==> (o matches Some(yr) ==> 0 <= yr.0
            < t.rows()),
    decreases t.rows() - i,
{
    if 0 <= i < t.rows() {
        if qualifies(t, x, i) {
            match spec_div(t.rhs[i], t.matrix[i][x]) {
                Option::None => {},
                Option::Some(ratio) => {
                    let best2 = match best {
                        Option::None => Some((i, ratio)),
                        Option::Some(b) => if lt_val(ratio, b.1) {
                            Some((i, ratio))
                        } else {
                            best
                        },
                    };
                    lemma_min_ratio_scan_props(t, x, i + 1, best2);
                },
            }
        } else {
            lemma_min_ratio_scan_props(t, x, i + 1, best);
        }
    }
}

/// The scan's result row carries its own ratio, and that ratio is minimal:
/// no qualifying row at or after `i` (nor the carried best) has a strictly
/// smaller one.
pub proof fn lemma_min_ratio_scan_min(t: TabModel, x: int, i: int, best: Option<(int, Rat)>)
    requires
        t.wf(),
        0 <= x < t.cols(),
        0 <= i,
        best matches Some(b) ==> 0 <= b.0 < t.rows() && qualifies(t, x, b.0) && spec_div(
            t.rhs[b.0],
            t.matrix[b.0][x],
        ) == Some(b.1) && b.1.wf(),
    ensures
        min_ratio_scan(t, x, i, best) matches Some(o) ==> (o matches Some(yr) ==> {
            &&& 0 <= yr.0 < t.rows()
            &&& qualifies(t, x, yr.0)
            &&& spec_div(t.rhs[yr.0], t.matrix[yr.0][x]) == Some(yr.1)
            &&& yr.1.wf()
            &&& (forall|j: int|
                i <= j < t.rows() && qualifies(t, x, j) ==> ((#[trigger] spec_div(
                    t.rhs[j],
                    t.matrix[j][x],
                )) matches Some(rj) && le_val(yr.1, rj)))
            &&& (best matches Some(b) ==> le_val(yr.1, b.1))
        }),
    decreases t.rows() - i,
{
    if 0 <= i < t.rows() {
        if qualifies(t, x, i) {
            match spec_div(t.rhs[i], t.matrix[i][x]) {
                Option::None => {},
                Option::Some(ratio) => {
                    lemma_spec_div_val(t.rhs[i], t.matrix[i][x]);
                    let best2 = match best {
                        Option::None => Some((i, ratio)),
                        Option::Some(b) => if lt_val(ratio, b.1) {
                            Some((i, ratio))
                        } else {
                            best
                        },
                    };
                    lemma_min_ratio_scan_min(t, x, i + 1, best2);
                    match min_ratio_scan(t, x, i, best) {
                        Option::None => {},
                        Option::Some(Option::None) => {},
                        Option::Some(Option::Some(yr)) => {
                            assert(le_val(yr.1, ratio)) by {
                                match best {
                                    Option::None => {},
                                    Option::Some(b) => {
                                        if !lt_val(ratio, b.1) {
                                            assert(le_val(b.1, ratio));
                                            lemma_le_val_trans(yr.1, b.1, ratio);
                                        }
                                    },
                                }
                            }
                            match best {
                                Option::None => {},
                                Option::Some(b) => {
                                    if lt_val(ratio, b.1) {
                                        assert(le_val(ratio, b.1));
                                        lemma_le_val_trans(yr.1, ratio, b.1);
                                    }
                                },
                            }
                        },
                    }
                },
            }
        } else {
            lemma_min_ratio_scan_min(t, x, i + 1, best);
        }
    }
}

/// One elimination step: `val - (factor * pv) / piv`.
pub open spec fn elim_entry(val: Rat, factor: Rat, pv: Rat, piv: Rat) -> Option<Rat> {
    match spec_mul(factor, pv) {
        Option::None => Option::None,
        Option::Some(t1) => match spec_div(t1, piv) {
            Option::None => Option::None,
            Option::Some(t2) => spec_sub(val, t2),
        },
    }
}

/// Matrix entry `(i, j)` after pivoting on `(y, x)`: the pivot row is
/// divided by the pivot entry, every other row has the entering column
/// eliminated.
pub open spec fn pivot_entry(t: TabModel, x: int, y: int, i: int, j: int) -> Option<Rat> {
    if i == y {
        spec_div(t.matrix[y][j], t.matrix[y][x])
    } else {
        elim_entry(t.matrix[i][j], t.matrix[i][x], t.matrix[y][j], t.matrix[y][x])
    }
}

/// Right-hand side entry `i` after pivoting on `(y, x)`.
pub open spec fn pivot_rhs_entry(t: TabModel, x: int, y: int, i: int) -> Option<Rat> {
    if i == y {
        spec_div(t.rhs[y], t.matrix[y][x])
    } else {
        elim_entry(t.rhs[i], t.matrix[i][x], t.rhs[y], t.matrix[y][x])
    }
}

/// Objective-row entry `j` after pivoting on `(y, x)`.
pub open spec fn pivot_obj_entry(t: TabModel, x: int, y: int, j: int) -> Option<Rat> {
    elim_entry(t.obj[j], t.obj[x], t.matrix[y][j], t.matrix[y][x])
}

/// Objective accumulator after pivoting on `(y, x)`.
pub open spec fn pivot_acc(t: TabModel, x: int, y: int) -> Option<Rat> {
    elim_entry(t.acc, t.obj[x], t.rhs[y], t.matrix[y][x])
}

/// Whether every checked operation of the pivot stays in range.
pub open spec fn pivot_ok(t: TabModel, x: int, y: int) -> bool {
    &&& forall|i: int, j: int|
        0 <= i < t.rows() && 0 <= j < t.cols() ==> (#[trigger] pivot_entry(t, x, y, i, j)) is Some
    &&& forall|i: int| 0 <= i < t.rows() ==> (#[trigger] pivot_rhs_entry(t, x, y, i)) is Some
    &&& forall|j: int| 0 <= j < t.cols() ==> (#[trigger] pivot_obj_entry(t, x, y, j)) is Some
    &&& pivot_acc(t, x, y) is Some
}

/// The tableau after pivoting on `(y, x)`: the basis entry of the pivot row
/// becomes the entering variable.
pub open spec fn spec_pivot(t: TabModel, x: int, y: int) -> TabModel {
    TabModel {
        matrix: Seq::new(
            t.matrix.len(),
            |i: int|
                Seq::new(t.obj.len(), |j: int| pivot_entry(t, x, y, i, j).unwrap_or(rat_zero())),
        ),
        rhs: Seq::new(t.rhs.len(), |i: int| pivot_rhs_entry(t, x, y, i).unwrap_or(rat_zero())),
        obj: Seq::new(t.obj.len(), |j: int| pivot_obj_entry(t, x, y, j).unwrap_or(rat_zero())),
        acc: pivot_acc(t, x, y).unwrap_or(rat_zero()),
        basis: t.basis.update(y, t.vars[x]),
        vars: t.vars,
        n_decision: t.n_decision,
    }
}

/// An Artificial variable left in the basis with a strictly positive value:
/// the Big-M penalty could not be driven out, so the problem is unfeasible.
pub open spec fn bad_artificial(t: TabModel) -> bool {
    exists|i: int|
        0 <= i < t.rows() && (#[trigger] t.basis[i]).kind == VarKind::Artificial && is_pos_val(
            t.rhs[i],
        )
}

/// The first basis row at or after `i` holding variable id `id`.
pub open spec fn find_basis_row(basis: Seq<Variable>, id: int, i: int) -> Option<int>
    decreases basis.len() - i,
{
    if i < 0 || i >= basis.len() {
        None
    } else if basis[i].id == id {
        Some(i)
    } else {
        find_basis_row(basis, id, i + 1)
    }
}

pub proof fn lemma_find_basis_row_skip(basis: Seq<Variable>, id: int, i: int)
    requires
        0 <= i <= basis.len(),
        forall|j: int| 0 <= j < i ==> (#[trigger] basis[j]).id != id,
    ensures
        find_basis_row(basis, id, 0) == find_basis_row(basis, id, i),
    decreases i,
{
    if i > 0 {
        lemma_find_basis_row_skip(basis, id, i - 1);
    }
}

pub proof fn lemma_find_basis_row_props(basis: Seq<Variable>, id: int, i: int)
    requires
        0 <= i,
    ensures
        find_basis_row(basis, id, i) matches Some(r) ==> i <= r < basis.len() && basis[r].id == id,
    decreases basis.len() - i,
{
    if i < basis.len() {
        lemma_find_basis_row_props(basis, id, i + 1);
    }
}

/// The value of decision variable `id` at the current basic solution: the
/// right-hand side of the first basis row holding it, 0 when it is not in
/// the basis.
pub open spec fn decision_value(t: TabModel, id: int) -> Rat {
    match find_basis_row(t.basis, id, 0) {
        Option::Some(r) => t.rhs[r],
        Option::None => rat_zero(),
    }
}

/// The reported decision-variable values, one per decision variable id.
pub open spec fn spec_extract(t: TabModel) -> Seq<Rat> {
    Seq::new(t.n_decision as nat, |id: int| decision_value(t, id))
}

/// How the pivot loop ends (before the direction is applied to the
/// accumulator).
pub ghost enum RunEnd {
    MaxIterations,
    Unbounded,
    Unfeasible,
    Feasible(Rat, Seq<Rat>),
}

/// What one iteration does to a tableau: end in a terminal state, pivot to
/// a next tableau, or fail because a checked rational operation left the
/// representable range.
pub ghost enum StepModel {
    Terminal(RunEnd),
    Next(TabModel),
    Fail,
}

/// One iteration: with no positive reduced cost the tableau is optimal
/// (then unfeasible exactly when a positive Artificial variable remains in
/// the basis); with a positive column but no qualifying row the problem is
/// unbounded; otherwise pivot on the minimum-ratio row.
pub open spec fn spec_step(t: TabModel) -> StepModel {
    match first_pos_col(t.obj, 0) {
        Option::None => {
            if bad_artificial(t) {
                StepModel::Terminal(RunEnd::Unfeasible)
            } else {
                StepModel::Terminal(RunEnd::Feasible(t.acc, spec_extract(t)))
            }
        },
        Option::Some(x) => {
            match spec_min_ratio(t, x) {
                Option::None => StepModel::Fail,
                Option::Some(Option::None) => StepModel::Terminal(RunEnd::Unbounded),
                Option::Some(Option::Some(yr)) => {
                    if pivot_ok(t, x, yr.0) {
                        StepModel::Next(spec_pivot(t, x, yr.0))
                    } else {
                        StepModel::Fail
                    }
                },
            }
        },
    }
}

/// The pivot loop: with no iterations left the cap is reached; otherwise
/// step, and recurse on a pivot. `None` when the checked rational
/// arithmetic leaves the representable range.
pub open spec fn spec_run(t: TabModel, fuel: nat) -> Option<RunEnd>
    decreases fuel,
{
    if fuel == 0 {
        Some(RunEnd::MaxIterations)
    } else {
        match spec_step(t) {
            StepModel::Terminal(end) => Some(end),
            StepModel::Next(t2) => spec_run(t2, (fuel - 1) as nat),
            StepModel::Fail => Option::None,
        }
    }
}

/// The reported solution: for `Feasible` the objective is the negated
/// accumulator for a maximization and the accumulator itself for a
/// minimization (undoing the sign flip of standardization); the other
/// states carry no objective and no values.
pub open spec fn spec_finish(direction: Direction, end: RunEnd) -> SolModel {
    match end {
        RunEnd::MaxIterations => SolModel {
            state: SolveState::MaxIterationReached,
            objective: rat_zero(),
            values: Seq::empty(),
        },
        RunEnd::Unbounded => SolModel {
            state: SolveState::Unbounded,
            objective: rat_zero(),
            values: Seq::empty(),
        },
        RunEnd::Unfeasible => SolModel {
            state: SolveState::Unfeasible,
            objective: rat_zero(),
            values: Seq::empty(),
        },
        RunEnd::Feasible(acc, values) => SolModel {
            state: SolveState::Feasible,
            objective: if direction == Direction::Maximize {
                spec_neg(acc)
            } else {
                acc
            },
            values,
        },
    }
}

/// Bland's rule: the first column with a strictly positive reduced cost.
#[verifier::loop_isolation(false)]
fn entering_column(obj: &Vec<Rat>) -> (r: Option<usize>)
    ensures
        first_pos_col(obj@, 0) is None <==> r is None,
        r matches Some(xe) ==> first_pos_col(obj@, 0) == Some(xe as int) && xe < obj@.len(),
{
    let n = obj.len();
    let mut i: usize = 0;
    while i < n
        invariant
            i <= n,
            forall|j: int| 0 <= j < i ==> !is_pos_val(obj@[j]),
        decreases n - i,
    {
        if obj[i].is_pos() {
            proof {
                lemma_first_pos_skip(obj@, i as int);
            }
            return Some(i);
        }
        i += 1;
    }
    proof {
        lemma_first_pos_skip(obj@, n as int);
    }
    None
}

/// The minimum-ratio test for entering column `x`: the qualifying row with
/// the smallest ratio, ties broken towards the smallest row index. `None`
/// when a ratio leaves the representable range; `Some(None)` when no row
/// qualifies (the problem is unbounded along `x`).
#[verifier::loop_isolation(false)]
fn leaving_row(t: &Tableau, x: usize) -> (r: Option<Option<usize>>)
    requires
        t.wf(),
        x < t@.cols(),
    ensures
        spec_min_ratio(t@, x as int) is None <==> r is None,
        r == Some(Option::<usize>::None) ==> spec_min_ratio(t@, x as int) == Some(
            Option::<(int, Rat)>::None,
        ),
        r matches Some(o) ==> (o matches Some(ye) ==> (spec_min_ratio(t@, x as int) matches Some(
            o2,
        ) && o2 matches Some(yr) && yr.0 == ye as int && ye < t@.rows() && is_pos_val(
            t@.matrix[ye as int][x as int],
        ))),
{
    let rows = t.matrix.len();
    let mut have: bool = false;
    let mut best_row: usize = 0;
    let mut best_ratio = Rat::zero();
    let mut i: usize = 0;
    while i < rows
        invariant
            i <= rows,
            rows == t@.rows(),
            have ==> best_row < i && best_ratio.wf() && is_pos_val(
                t@.matrix[best_row as int][x as int],
            ),
            min_ratio_scan(
                t@,
                x as int,
                i as int,
                if have {
                    Some((best_row as int, best_ratio))
                } else {
                    Option::<(int, Rat)>::None
                },
            ) == spec_min_ratio(t@, x as int),
        decreases rows - i,
    {
        let row = &t.matrix[i];
        let e = row[x];
        assert(e == t@.matrix[i as int][x as int]);
        if e.is_pos() && !t.rhs[i].is_neg() {
            match t.rhs[i].div(e) {
                Option::None => {
                    return None;
                },
                Option::Some(ratio) => {
                    if !have || ratio.lt(best_ratio) {
                        have = true;
                        best_row = i;
                        best_ratio = ratio;
                    }
                },
            }
        }
        i += 1;
    }
    if have {
        Some(Some(best_row))
    } else {
        Some(None)
    }
}

/// One pivot on row `y`, column `x`: a fresh tableau with the pivot row
/// divided by the pivot entry, the entering column eliminated from every
/// other row, the objective row and accumulator, and the basis updated.
#[verifier::loop_isolation(false)]
fn pivot(t: &Tableau, x: usize, y: usize) -> (r: Option<Tableau>)
    requires
        t.wf(),
        x < t@.cols(),
        y < t@.rows(),
        t@.matrix[y as int][x as int].num != 0,
    ensures
        r is Some <==> pivot_ok(t@, x as int, y as int),
        r matches Some(t2) ==> t2@ == spec_pivot(t@, x as int, y as int) && t2.wf(),
{
    let rows = t.matrix.len();
    let cols = t.obj.len();
    let piv = t.matrix[y][x];
    assert(piv == t@.matrix[y as int][x as int]);
    let mut matrix: Vec<Vec<Rat>> = Vec::new();
    let mut i: usize = 0;
    while i < rows
        invariant
            i <= rows,
            matrix@.len() == i,
            forall|i2: int, j2: int|
                0 <= i2 < i && 0 <= j2 < cols ==> (#[trigger] pivot_entry(
                    t@,
                    x as int,
                    y as int,
                    i2,
                    j2,
                )) is Some,
            forall|i2: int|
                0 <= i2 < i ==> (#[trigger] matrix@[i2])@ == Seq::new(
                    t@.obj.len(),
                    |j2: int| pivot_entry(t@, x as int, y as int, i2, j2).unwrap_or(rat_zero()),
                ),
            forall|i2: int, j2: int|
                0 <= i2 < i && 0 <= j2 < cols ==> (#[trigger] matrix@[i2]@[j2]).wf(),
        decreases rows - i,
    {
        let mut row: Vec<Rat> = Vec::new();
        let mut j: usize = 0;
        while j < cols
            invariant
                i < rows,
                j <= cols,
                row@.len() == j,
                forall|j2: int|
                    0 <= j2 < j ==> (#[trigger] pivot_entry(
                        t@,
                        x as int,
                        y as int,
                        i as int,
                        j2,
                    )) is Some,
                forall|j2: int|
                    0 <= j2 < j ==> row@[j2] == pivot_entry(
                        t@,
                        x as int,
                        y as int,
                        i as int,
                        j2,
                    ).unwrap_or(rat_zero()) && (#[trigger] row@[j2]).wf(),
            decreases cols - j,
        {
            let e: Rat;
            if i == y {
                let prow = &t.matrix[y];
                match prow[j].div(piv) {
                    Option::Some(v) => {
                        e = v;
                    },
                    Option::None => {
                        assert(pivot_entry(t@, x as int, y as int, i as int, j as int) is None);
                        return None;
                    },
                }
            } else {
                let irow = &t.matrix[i];
                let prow = &t.matrix[y];
                let factor = irow[x];
                let t1 = match factor.mul(prow[j]) {
                    Option::Some(v) => v,
                    Option::None => {
                        assert(pivot_entry(t@, x as int, y as int, i as int, j as int) is None);
                        return None;
                    },
                };
                let t2 = match t1.div(piv) {
                    Option::Some(v) => v,
                    Option::None => {
                        assert(pivot_entry(t@, x as int, y as int, i as int, j as int) is None);
                        return None;
                    },
                };
                match irow[j].sub(t2) {
                    Option::Some(v) => {
                        e = v;
                    },
                    Option::None => {
                        assert(pivot_entry(t@, x as int, y as int, i as int, j as int) is None);
                        return None;
                    },
                }
            }
            row.push(e);
            j += 1;
        }
        proof {
            assert(row@ =~= Seq::new(
                t@.obj.len(),
                |j2: int| pivot_entry(t@, x as int, y as int, i as int, j2).unwrap_or(rat_zero()),
            ));
        }
        matrix.push(row);
        i += 1;
    }
    let mut rhs: Vec<Rat> = Vec::new();
    let mut i2: usize = 0;
    while i2 < rows
        invariant
            i2 <= rows,
            rhs@.len() == i2,
            forall|i3: int|
                0 <= i3 < i2 ==> (#[trigger] pivot_rhs_entry(t@, x as int, y as int, i3)) is Some,
            forall|i3: int|
                0 <= i3 < i2 ==> rhs@[i3] == pivot_rhs_entry(t@, x as int, y as int, i3).unwrap_or(
                    rat_zero(),
                ) && (#[trigger] rhs@[i3]).wf(),
        decreases rows - i2,
    {
        let e: Rat;
        if i2 == y {
            match t.rhs[y].div(piv) {
                Option::Some(v) => {
                    e = v;
                },
                Option::None => {
                    assert(pivot_rhs_entry(t@, x as int, y as int, i2 as int) is None);
                    return None;
                },
            }
        } else {
            let irow = &t.matrix[i2];
            let t1 = match irow[x].mul(t.rhs[y]) {
                Option::Some(v) => v,
                Option::None => {
                    assert(pivot_rhs_entry(t@, x as int, y as int, i2 as int) is None);
                    return None;
                },
            };
            let t2 = match t1.div(piv) {
                Option::Some(v) => v,
                Option::None => {
                    assert(pivot_rhs_entry(t@, x as int, y as int, i2 as int) is None);
                    return None;
                },
            };
            match t.rhs[i2].sub(t2) {
                Option::Some(v) => {
                    e = v;
                },
                Option::None => {
                    assert(pivot_rhs_entry(t@, x as int, y as int, i2 as int) is None);
                    return None;
                },
            }
        }
        rhs.push(e);
        i2 += 1;
    }
    let mut obj: Vec<Rat> = Vec::new();
    let zx = t.obj[x];
    let mut j: usize = 0;
    while j < cols
        invariant
            j <= cols,
            obj@.len() == j,
            zx == t@.obj[x as int],
            forall|j2: int|
                0 <= j2 < j ==> (#[trigger] pivot_obj_entry(t@, x as int, y as int, j2)) is Some,
            forall|j2: int|
                0 <= j2 < j ==> obj@[j2] == pivot_obj_entry(t@, x as int, y as int, j2).unwrap_or(
                    rat_zero(),
                ) && (#[trigger] obj@[j2]).wf(),
        decreases cols - j,
    {
        let prow = &t.matrix[y];
        let t1 = match zx.mul(prow[j]) {
            Option::Some(v) => v,
            Option::None => {
                assert(pivot_obj_entry(t@, x as int, y as int, j as int) is None);
                return None;
            },
        };
        let t2 = match t1.div(piv) {
            Option::Some(v) => v,
            Option::None => {
                assert(pivot_obj_entry(t@, x as int, y as int, j as int) is None);
                return None;
            },
        };
        let e = match t.obj[j].sub(t2) {
            Option::Some(v) => v,
            Option::None => {
                assert(pivot_obj_entry(t@, x as int, y as int, j as int) is None);
                return None;
            },
        };
        obj.push(e);
        j += 1;
    }
    let acc: Rat;
    {
        let t1 = match zx.mul(t.rhs[y]) {
            Option::Some(v) => v,
            Option::None => {
                assert(pivot_acc(t@, x as int, y as int) is None);
                return None;
            },
        };
        let t2 = match t1.div(piv) {
            Option::Some(v) => v,
            Option::None => {
                assert(pivot_acc(t@, x as int, y as int) is None);
                return None;
            },
        };
        match t.acc.sub(t2) {
            Option::Some(v) => {
                acc = v;
            },
            Option::None => {
                assert(pivot_acc(t@, x as int, y as int) is None);
                return None;
            },
        }
    }
    let mut basis: Vec<Variable> = Vec::new();
    let mut b: usize = 0;
    while b < rows
        invariant
            b <= rows,
            basis@.len() == b,
            forall|b2: int| 0 <= b2 < b ==> basis@[b2] == t@.basis[b2],
        decreases rows - b,
    {
        basis.push(t.basis[b]);
        b += 1;
    }
    basis.set(y, t.vars[x]);
    assert(basis@ =~= t@.basis.update(y as int, t@.vars[x as int]));
    let mut vars: Vec<Variable> = Vec::new();
    let mut v: usize = 0;
    while v < cols
        invariant
            v <= cols,
            vars@.len() == v,
            forall|v2: int| 0 <= v2 < v ==> vars@[v2] == t@.vars[v2],
        decreases cols - v,
    {
        vars.push(t.vars[v]);
        v += 1;
    }
    assert(vars@ =~= t@.vars);
    let t2 = Tableau { matrix, rhs, obj, acc, basis, vars, n_decision: t.n_decision };
    proof {
        let spec_t = spec_pivot(t@, x as int, y as int);
        assert(t2@.matrix =~~= spec_t.matrix);
        assert(t2@.rhs =~= spec_t.rhs);
        assert(t2@.obj =~= spec_t.obj);
        assert(t2@ =~~= spec_t);
        assert(t2@.wf());
    }
    Some(t2)
}

/// Whether an Artificial variable remains in the basis with a strictly
/// positive value.
#[verifier::loop_isolation(false)]
fn has_bad_artificial(t: &Tableau) -> (r: bool)
    requires
        t.wf(),
    ensures
        r == bad_artificial(t@),
{
    let rows = t.basis.len();
    let mut i: usize = 0;
    while i < rows
        invariant
            i <= rows,
            forall|j: int|
                0 <= j < i ==> !((#[trigger] t@.basis[j]).kind == VarKind::Artificial && is_pos_val(
                    t@.rhs[j],
                )),
        decreases rows - i,
    {
        let is_artificial = match t.basis[i].kind {
            VarKind::Artificial => true,
            _ => false,
        };
        if is_artificial && t.rhs[i].is_pos() {
            return true;
        }
        i += 1;
    }
    false
}

/// The first basis row holding variable id `id`.
#[verifier::loop_isolation(false)]
fn find_row(basis: &Vec<Variable>, id: usize) -> (r: Option<usize>)
    ensures
        find_basis_row(basis@, id as int, 0) is None <==> r is None,
        r matches Some(i) ==> find_basis_row(basis@, id as int, 0) == Some(i as int) && i
            < basis@.len(),
{
    let rows = basis.len();
    let mut i: usize = 0;
    while i < rows
        invariant
            i <= rows,
            forall|j: int| 0 <= j < i ==> (#[trigger] basis@[j]).id != id,
        decreases rows - i,
    {
        if basis[i].id == id {
            proof {
                lemma_find_basis_row_skip(basis@, id as int, i as int);
            }
            return Some(i);
        }
        i += 1;
    }
    proof {
        lemma_find_basis_row_skip(basis@, id as int, rows as int);
    }
    None
}

/// Read the decision-variable values off the final basis: the right-hand
/// side of the first basis row holding the variable, 0 when it is absent.
#[verifier::loop_isolation(false)]
fn extract_values(t: &Tableau) -> (vals: Vec<Rat>)
    requires
        t.wf(),
    ensures
        vals@ == spec_extract(t@),
        rats_wf(vals@),
{
    let n = t.n_decision;
    let mut vals: Vec<Rat> = Vec::new();
    let mut id: usize = 0;
    while id < n
        invariant
            id <= n,
            vals@.len() == id,
            forall|id2: int|
                0 <= id2 < id ==> vals@[id2] == decision_value(t@, id2) && (
                #[trigger] vals@[id2]).wf(),
        decreases n - id,
    {
        match find_row(&t.basis, id) {
            Option::Some(r) => {
                assert(decision_value(t@, id as int) == t@.rhs[r as int]);
                vals.push(t.rhs[r]);
            },
            Option::None => {
                assert(decision_value(t@, id as int) == rat_zero());
                vals.push(Rat::zero());
            },
        }
        id += 1;
    }
    assert(vals@ =~= spec_extract(t@));
    vals
}

/// Outcome of one executable iteration.
enum StepOutcome {
    Done(Solution),
    Next(Tableau),
    Fail,
}

/// One executable iteration, mirroring `spec_step` exactly; a terminal
/// state is reported for a problem of the given direction.
fn step(t: &Tableau, direction: Direction) -> (r: StepOutcome)
    requires
        t.wf(),
    ensures
        match spec_step(t@) {
            StepModel::Fail => r is Fail,
            StepModel::Terminal(end) => r matches StepOutcome::Done(s) && s@ == spec_finish(
                direction,
                end,
            ) && s.wf(),
            StepModel::Next(t2) => r matches StepOutcome::Next(tn) && tn@ == t2 && tn.wf(),
        },
{
    match entering_column(&t.obj) {
        Option::None => {
            if has_bad_artificial(t) {
                let values: Vec<Rat> = Vec::new();
                let s = Solution { state: SolveState::Unfeasible, objective: Rat::zero(), values };
                assert(s@.values =~= Seq::<Rat>::empty());
                return StepOutcome::Done(s);
            }
            let values = extract_values(t);
            let objective = match direction {
                Direction::Maximize => t.acc.neg(),
                Direction::Minimize => t.acc,
            };
            let s = Solution { state: SolveState::Feasible, objective, values };
            StepOutcome::Done(s)
        },
        Option::Some(x) => {
            proof {
                assert(first_pos_col(t@.obj, 0) == Some(x as int));
            }
            match leaving_row(t, x) {
                Option::None => {
                    assert(spec_min_ratio(t@, x as int) is None);
                    StepOutcome::Fail
                },
                Option::Some(Option::None) => {
                    let values: Vec<Rat> = Vec::new();
                    let s = Solution {
                        state: SolveState::Unbounded,
                        objective: Rat::zero(),
                        values,
                    };
                    assert(s@.values =~= Seq::<Rat>::empty());
                    StepOutcome::Done(s)
                },
                Option::Some(Option::Some(y)) => {
                    proof {
                        let yr = spec_min_ratio(t@, x as int).unwrap().unwrap();
                        assert(yr.0 == y as int);
                    }
                    match pivot(t, x, y) {
                        Option::None => {
                            assert(!pivot_ok(t@, x as int, y as int));
                            StepOutcome::Fail
                        },
                        Option::Some(t_next) => StepOutcome::Next(t_next),
                    }
                },
            }
        },
    }
}

/// The pivot engine: consumes the tableau, runs the simplex loop to a
/// terminal state within `max_iterations` pivots, and reports the outcome
/// for a problem of the given direction. Returns exactly the mirrored
/// outcome `spec_run`, i.e. `None` exactly when the checked rational
/// arithmetic of a pivot leaves the representable range.
#[verifier::loop_isolation(false)]
pub fn run(tab: Tableau, direction: Direction, max_iterations: usize) -> (r: Option<Solution>)
    requires
        tab.wf(),
    ensures
        match spec_run(tab@, max_iterations as nat) {
            Option::None => r is None,
            Option::Some(end) => r matches Some(s) && s@ == spec_finish(direction, end) && s.wf(),
        },
{
    let ghost t0 = tab@;
    let mut t = tab;
    let mut remaining = max_iterations;
    loop
        invariant
            t.wf(),
            spec_run(t@, remaining as nat) == spec_run(t0, max_iterations as nat),
        decreases remaining,
    {
        if remaining == 0 {
            let values: Vec<Rat> = Vec::new();
            let s = Solution {
                state: SolveState::MaxIterationReached,
                objective: Rat::zero(),
                values,
            };
            assert(s@.values =~= Seq::<Rat>::empty());
            return Some(s);
        }
        match step(&t, direction) {
            StepOutcome::Fail => {
                return None;
            },
            StepOutcome::Done(s) => {
                return Some(s);
            },
            StepOutcome::Next(t_next) => {
                t = t_next;
                remaining = remaining - 1;
            },
        }
    }
}

} // verus!