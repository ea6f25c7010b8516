//! The solver: standardize, pivot to a terminal state, report.
//!
//! Also provides `satisfies`, the exact check that an assignment of the
//! decision variables meets every constraint of a problem — the check a
//! caller uses to confirm a `Feasible` solution against the problem it came
//! from.

use vstd::prelude::*;
use crate::rat::{Rat, rat_zero, spec_add, spec_mul, eq_val, le_val};
use crate::model::{Relation, ConModel, ProbModel, Problem, Solution, SolModel, rats_wf};
use crate::standardize::{standardize, spec_standardize};
use crate::engine::{run, spec_run, spec_finish};

verus! {

/// Iteration cap of the pivot loop (the safety valve against cycling).
pub const MAX_ITERATION: usize = 15;

/// The default Big-M penalty coefficient.
pub open spec fn big_m_default() -> Rat {
    Rat { num: 1000000000, den: 1 }
}

/// The default Big-M penalty coefficient, chosen to dominate realistic
/// coefficient magnitudes.
pub fn default_big_m() -> (r: Rat)
    ensures
        r == big_m_default(),
        r.wf(),
{
    Rat { num: 1000000000, den: 1 }
}

/// The solver's full mathematical mirror: standardize, run the pivot loop,
/// report for the problem's direction. `None` exactly when the checked
/// rational arithmetic leaves the representable range.
pub open spec fn spec_solve(p: ProbModel, m: Rat, fuel: nat) -> Option<SolModel> {
    match spec_standardize(p, m) {
        Option::None => Option::None,
        Option::Some(t) => match spec_run(t, fuel) {
            Option::None => Option::None,
            Option::Some(end) => Some(spec_finish(p.direction, end)),
        },
    }
}

/// Solve `p` with an explicit Big-M coefficient and iteration cap. The
/// result is exactly the mirrored outcome `spec_solve`.
pub fn solve_with(p: &Problem, big_m: Rat, max_iterations: usize) -> (r: Option<Solution>)
    requires
        p@.wf(),
        big_m.wf(),
        p@.objective.len() + 2 * p@.constraints.len() <= usize::MAX,
    ensures
        match spec_solve(p@, big_m, max_iterations as nat) {
            Option::None => r is None,
            Option::Some(s) => r matches Some(sol) && sol@ == s && sol.wf(),
        },
{
    let t = match standardize(p, big_m) {
        Option::Some(t) => t,
        Option::None => {
            return None;
        },
    };
    run(t, p.direction, max_iterations)
}

impl Problem {
    /// Solve with the default Big-M coefficient and iteration cap.
    pub fn solve(&self) -> (r: Option<Solution>)
        requires
            self@.wf(),
            self@.objective.len() + 2 * self@.constraints.len() <= usize::MAX,
        ensures
            match spec_solve(self@, big_m_default(), MAX_ITERATION as nat) {
                Option::None => r is None,
                Option::Some(s) => r matches Some(sol) && sol@ == s && sol.wf(),
            },
    {
        solve_with(self, default_big_m(), MAX_ITERATION)
    }
}

/// The checked dot product of the first `k` coefficient/value pairs.
pub open spec fn dot_acc(coeffs: Seq<Rat>, values: Seq<Rat>, k: int, acc: Rat) -> Option<Rat>
    decreases k,
{
    if k <= 0 {
        Some(acc)
    } else {
        match dot_acc(coeffs, values, k - 1, acc) {
            Option::None => Option::None,
            Option::Some(s) => match spec_mul(coeffs[k - 1], values[k - 1]) {
                Option::None => Option::None,
                Option::Some(t) => spec_add(s, t),
            },
        }
    }
}

/// A dot product that has failed stays failed.
pub proof fn lemma_dot_none(coeffs: Seq<Rat>, values: Seq<Rat>, k1: int, k2: int, acc: Rat)
    requires
        0 <= k1 <= k2,
        dot_acc(coeffs, values, k1, acc) is None,
    ensures
        dot_acc(coeffs, values, k2, acc) is None,
    decreases k2 - k1,
{
    if k1 < k2 {
        lemma_dot_none(coeffs, values, k1, k2 - 1, acc);
    }
}

/// Whether an assignment meets one constraint: its dot product stands in
/// the constraint's relation to the right-hand side. `None` when the
/// checked arithmetic leaves the representable range.
pub open spec fn con_holds(c: ConModel, values: Seq<Rat>) -> Option<bool> {
    match dot_acc(c.coefficients, values, c.coefficients.len() as int, rat_zero()) {
        Option::None => Option::None,
        Option::Some(lhs) => Some(
            match c.relation {
                Relation::LessEq => le_val(lhs, c.rhs),
                Relation::GreaterEq => le_val(c.rhs, lhs),
                Relation::Equal => eq_val(lhs, c.rhs),
            },
        ),
    }
}

/// Whether an assignment meets the first `k` constraints.
pub open spec fn spec_satisfies(p: ProbModel, values: Seq<Rat>, k: int) -> Option<bool>
    decreases k,
{
    if k <= 0 {
        Some(true)
    } else {
        match spec_satisfies(p, values, k - 1) {
            Option::None => Option::None,
            Option::Some(b) => match con_holds(p.constraints[k - 1], values) {
                Option::None => Option::None,
                Option::Some(h) => Some(b && h),
            },
        }
    }
}

/// The satisfaction fold is the conjunction over the single constraints.
pub proof fn lemma_satisfies_all(p: ProbModel, values: Seq<Rat>, k: int)
    ensures
        spec_satisfies(p, values, k) matches Some(b) ==> (b <==> forall|k2: int|
            0 <= k2 < k ==> con_holds(#[trigger] p.constraints[k2], values) == Some(true)),
    decreases k,
{
    if k > 0 {
        lemma_satisfies_all(p, values, k - 1);
    }
}

pub proof fn lemma_satisfies_none(p: ProbModel, values: Seq<Rat>, k1: int, k2: int)
    requires
        0 <= k1 <= k2,
        spec_satisfies(p, values, k1) is None,
    ensures
        spec_satisfies(p, values, k2) is None,
    decreases k2 - k1,
{
    if k1 < k2 {
        lemma_satisfies_none(p, values, k1, k2 - 1);
    }
}

/// Whether the assignment `values` of the decision variables meets every
/// constraint of `p`, by exact arithmetic. Returns `Some(true)` exactly
/// when every constraint holds, `Some(false)` exactly when some constraint
/// fails, and `None` exactly when a checked operation leaves the
/// representable range.
#[verifier::loop_isolation(false)]
pub fn satisfies(p: &Problem, values: &Vec<Rat>) -> (r: Option<bool>)
    requires
        p@.wf(),
        rats_wf(values@),
        values@.len() == p@.objective.len(),
    ensures
        r == spec_satisfies(p@, values@, p@.constraints.len() as int),
        r matches Some(b) ==> (b <==> forall|k: int|
            0 <= k < p@.constraints.len() ==> con_holds(#[trigger] p@.constraints[k], values@)
                == Some(true)),
{
    proof {
        lemma_satisfies_all(p@, values@, p@.constraints.len() as int);
    }
    let n_cons = p.constraints.len();
    let mut ok = true;
    let mut k: usize = 0;
    while k < n_cons
        invariant
            k <= n_cons,
            spec_satisfies(p@, values@, k as int) == Some(ok),
        decreases n_cons - k,
    {
        let c = &p.constraints[k];
        assert(c@ == p@.constraints[k as int]);
        let len = c.coefficients.len();
        let mut lhs = Rat::zero();
        let mut i: usize = 0;
        while i < len
            invariant
                i <= len,
                k < n_cons,
                c@ == p@.constraints[k as int],
                len == c@.coefficients.len(),
                lhs.wf(),
                dot_acc(c@.coefficients, values@, i as int, rat_zero()) == Some(lhs),
            decreases len - i,
        {
            let t = match c.coefficients[i].mul(values[i]) {
                Option::Some(t) => t,
                Option::None => {
                    proof {
                        lemma_dot_none(
                            c@.coefficients,
                            values@,
                            i + 1,
                            c@.coefficients.len() as int,
                            rat_zero(),
                        );
                        assert(con_holds(p@.constraints[k as int], values@) is None);
                        lemma_satisfies_none(
                            p@,
                            values@,
                            k + 1,
                            p@.constraints.len() as int,
                        );
                    }
                    return None;
                },
            };
            lhs = match lhs.add(t) {
                Option::Some(v) => v,
                Option::None => {
                    proof {
                        lemma_dot_none(
                            c@.coefficients,
                            values@,
                            i + 1,
                            c@.coefficients.len() as int,
                            rat_zero(),
                        );
                        assert(con_holds(p@.constraints[k as int], values@) is None);
                        lemma_satisfies_none(
                            p@,
                            values@,
                            k + 1,
                            p@.constraints.len() as int,
                        );
                    }
                    return None;
                },
            };
            i += 1;
        }
        let holds = match c.relation {
            Relation::LessEq => lhs.le(c.rhs),
            Relation::GreaterEq => c.rhs.le(lhs),
            Relation::Equal => lhs.eq_value(c.rhs),
        };
        ok = ok && holds;
        k += 1;
    }
    Some(ok)
}

} // verus!
