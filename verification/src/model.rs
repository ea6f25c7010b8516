//! The data model: problems, constraints, variables and solutions.

use vstd::prelude::*;
use crate::rat::{Rat, eq_val};

verus! {

/// Sense of the objective.
#[derive(Clone, Copy, Debug, PartialEq, Eq, Structural)]
pub enum Direction {
    Maximize,
    Minimize,
}

/// Kind of a constraint: `<=`, `>=` or `=`.
#[derive(Clone, Copy, Debug, PartialEq, Eq, Structural)]
pub enum Relation {
    LessEq,
    GreaterEq,
    Equal,
}

/// Kind of a tableau column.
#[derive(Clone, Copy, Debug, PartialEq, Eq, Structural)]
pub enum VarKind {
    Decision,
    Slack,
    Excess,
    Artificial,
}

/// A tableau column identity: kind and a globally unique id.
#[derive(Clone, Copy, Debug, PartialEq, Eq, Structural)]
pub struct Variable {
    pub kind: VarKind,
    pub id: usize,
}

/// One linear constraint: `coefficients . x  (relation)  rhs`.
#[derive(Clone, Debug)]
pub struct Constraint {
    pub relation: Relation,
    pub coefficients: Vec<Rat>,
    pub rhs: Rat,
}

/// A linear program over non-negative decision variables.
#[derive(Clone, Debug)]
pub struct Problem {
    pub direction: Direction,
    pub objective: Vec<Rat>,
    pub constraints: Vec<Constraint>,
}

/// Terminal state of a solve.
#[derive(Clone, Copy, Debug, PartialEq, Eq, Structural)]
pub enum SolveState {
    Feasible,
    Unfeasible,
    Unbounded,
    MaxIterationReached,
}

/// Outcome of a solve. `objective` and `values` carry information only in
/// the `Feasible` state; `values[id]` is the value of decision variable `id`.
#[derive(Clone, Debug)]
pub struct Solution {
    pub state: SolveState,
    pub objective: Rat,
    pub values: Vec<Rat>,
}

/// Every rational of a sequence is well-formed.
pub open spec fn rats_wf(s: Seq<Rat>) -> bool {
    forall|i: int| 0 <= i < s.len() ==> s[i].wf()
}

/// Mathematical model of a constraint.
#[verifier::ext_equal]
pub ghost struct ConModel {
    pub relation: Relation,
    pub coefficients: Seq<Rat>,
    pub rhs: Rat,
}

impl ConModel {
    /// Well-formed for a problem with `n` decision variables.
    pub open spec fn wf(self, n: int) -> bool {
        &&& self.coefficients.len() == n
        &&& rats_wf(self.coefficients)
        &&& self.rhs.wf()
    }
}

impl View for Constraint {
    type V = ConModel;

    open spec fn view(&self) -> ConModel {
        ConModel { relation: self.relation, coefficients: self.coefficients@, rhs: self.rhs }
    }
}

/// Mathematical model of a problem.
#[verifier::ext_equal]
pub ghost struct ProbModel {
    pub direction: Direction,
    pub objective: Seq<Rat>,
    pub constraints: Seq<ConModel>,
}

impl ProbModel {
    /// All coefficient rows have the objective's length and every number is
    /// well-formed.
    pub open spec fn wf(self) -> bool {
        &&& rats_wf(self.objective)
        &&& forall|k: int|
            0 <= k < self.constraints.len() ==> self.constraints[k].wf(self.objective.len() as int)
    }
}

impl View for Problem {
    type V = ProbModel;

    open spec fn view(&self) -> ProbModel {
        ProbModel {
            direction: self.direction,
            objective: self.objective@,
            constraints: Seq::new(self.constraints@.len(), |k: int| self.constraints@[k]@),
        }
    }
}

/// Mathematical model of a solution.
#[verifier::ext_equal]
pub ghost struct SolModel {
    pub state: SolveState,
    pub objective: Rat,
    pub values: Seq<Rat>,
}

impl View for Solution {
    type V = SolModel;

    open spec fn view(&self) -> SolModel {
        SolModel { state: self.state, objective: self.objective, values: self.values@ }
    }
}

impl SolModel {
    pub open spec fn wf(self) -> bool {
        &&& self.objective.wf()
        &&& rats_wf(self.values)
    }
}

/// Two solutions report the same outcome: the same terminal state and, for
/// `Feasible`, the same objective value and the same value for each decision
/// variable (compared by identity, i.e. by index, on the exact values).
pub open spec fn spec_same_outcome(a: SolModel, b: SolModel) -> bool {
    &&& a.state == b.state
    &&& (a.state == SolveState::Feasible ==> {
        &&& eq_val(a.objective, b.objective)
        &&& a.values.len() == b.values.len()
        &&& forall|i: int| 0 <= i < a.values.len() ==> eq_val(a.values[i], b.values[i])
    })
}

impl Solution {
    pub open spec fn wf(self) -> bool {
        self@.wf()
    }

    /// Whether `self` and `other` report the same outcome.
    pub fn same_outcome(&self, other: &Solution) -> (r: bool)
        requires
            self.wf(),
            other.wf(),
        ensures
            r == spec_same_outcome(self@, other@),
    {
        if self.state != other.state {
            return false;
        }
        if self.state != SolveState::Feasible {
            return true;
        }
        if !self.objective.eq_value(other.objective) {
            return false;
        }
        if self.values.len() != other.values.len() {
            return false;
        }
        let mut i: usize = 0;
        while i < self.values.len()
            invariant
                self.wf(),
                other.wf(),
                i <= self.values.len(),
                self.values.len() == other.values.len(),
                self.state == other.state,
                self.state == SolveState::Feasible,
                eq_val(self.objective, other.objective),
                forall|j: int| 0 <= j < i ==> eq_val(self.values@[j], other.values@[j]),
            decreases self.values.len() - i,
        {
            if !self.values[i].eq_value(other.values[i]) {
                assert(!eq_val(self@.values[i as int], other@.values[i as int]));
                return false;
            }
            i += 1;
        }
        true
    }
}

} // verus!
