//! The standardizer: turns a `Problem` into a canonical simplex tableau.
//!
//! Standardization (in order): negate the objective for a minimization;
//! multiply any constraint with a negative right-hand side by -1 and flip
//! its relation; inject one Slack column per `<=` row, an Excess and an
//! Artificial column per `>=` row, and an Artificial column per `=` row;
//! assemble the matrix; fold the Big-M penalty of the `>=` and `=` rows
//! into the objective row and the objective accumulator.
//!
//! The whole construction is mirrored by specification functions, and the
//! executable `standardize` is proved to produce exactly the mirrored
//! tableau (or `None` exactly when the checked rational arithmetic of the
//! Big-M fold leaves the representable range).

use vstd::prelude::*;
use crate::rat::{Rat, rat_zero, rat_one, spec_neg, spec_add, spec_mul, is_neg_val};
use crate::model::{
    Relation,
    Direction,
    VarKind,
    Variable,
    Constraint,
    ConModel,
    ProbModel,
    Problem,
    rats_wf,
};

verus! {

/// The mutable solver state: constraint matrix, right-hand sides, objective
/// row, objective accumulator, basis (one variable per row) and the catalog
/// of all column variables. `n_decision` is the number of decision columns.
pub struct Tableau {
    pub matrix: Vec<Vec<Rat>>,
    pub rhs: Vec<Rat>,
    pub obj: Vec<Rat>,
    pub acc: Rat,
    pub basis: Vec<Variable>,
    pub vars: Vec<Variable>,
    pub n_decision: usize,
}

/// Mathematical model of a tableau.
#[verifier::ext_equal]
pub ghost struct TabModel {
    pub matrix: Seq<Seq<Rat>>,
    pub rhs: Seq<Rat>,
    pub obj: Seq<Rat>,
    pub acc: Rat,
    pub basis: Seq<Variable>,
    pub vars: Seq<Variable>,
    pub n_decision: int,
}

impl TabModel {
    pub open spec fn rows(self) -> int {
        self.matrix.len() as int
    }

    pub open spec fn cols(self) -> int {
        self.obj.len() as int
    }

    /// Structural well-formedness: consistent dimensions, well-formed numbers.
    pub open spec fn wf(self) -> bool {
        &&& self.rhs.len() == self.rows()
        &&& self.basis.len() == self.rows()
        &&& self.vars.len() == self.cols()
        &&& 0 <= self.n_decision <= self.cols()
        &&& forall|i: int| 0 <= i < self.rows() ==> (#[trigger] self.matrix[i]).len() == self.cols()
        &&& forall|i: int, j: int|
            0 <= i < self.rows() && 0 <= j < self.cols() ==> (#[trigger] self.matrix[i][j]).wf()
        &&& rats_wf(self.rhs)
        &&& rats_wf(self.obj)
        &&& self.acc.wf()
    }
}

impl View for Tableau {
    type V = TabModel;

    open spec fn view(&self) -> TabModel {
        TabModel {
            matrix: Seq::new(self.matrix@.len(), |i: int| self.matrix@[i]@),
            rhs: self.rhs@,
            obj: self.obj@,
            acc: self.acc,
            basis: self.basis@,
            vars: self.vars@,
            n_decision: self.n_decision as int,
        }
    }
}

impl Tableau {
    pub open spec fn wf(self) -> bool {
        self@.wf()
    }
}

/// The objective the engine maximizes: negated for a minimization.
pub open spec fn eff_objective(p: ProbModel) -> Seq<Rat> {
    if p.direction == Direction::Minimize {
        Seq::new(p.objective.len(), |i: int| spec_neg(p.objective[i]))
    } else {
        p.objective
    }
}

/// Relation after multiplying a constraint by -1.
pub open spec fn flip(r: Relation) -> Relation {
    match r {
        Relation::LessEq => Relation::GreaterEq,
        Relation::GreaterEq => Relation::LessEq,
        Relation::Equal => Relation::Equal,
    }
}

/// Sign normalization: a constraint with a negative right-hand side is
/// multiplied by -1 and its relation flipped.
pub open spec fn norm_con(c: ConModel) -> ConModel {
    if is_neg_val(c.rhs) {
        ConModel {
            relation: flip(c.relation),
            coefficients: Seq::new(c.coefficients.len(), |i: int| spec_neg(c.coefficients[i])),
            rhs: spec_neg(c.rhs),
        }
    } else {
        c
    }
}

/// All constraints of a problem, sign-normalized.
pub open spec fn norm_cons(p: ProbModel) -> Seq<ConModel> {
    Seq::new(p.constraints.len(), |k: int| norm_con(p.constraints[k]))
}

/// How many auxiliary columns a (normalized) relation needs.
pub open spec fn aux_count(r: Relation) -> int {
    match r {
        Relation::LessEq => 1,
        Relation::GreaterEq => 2,
        Relation::Equal => 1,
    }
}

/// First auxiliary column id of constraint `k` (`n` decision columns).
pub open spec fn aux_base(ncons: Seq<ConModel>, n: int, k: int) -> int
    decreases k,
{
    if k <= 0 {
        n
    } else {
        aux_base(ncons, n, k - 1) + aux_count(ncons[k - 1].relation)
    }
}

/// Total number of tableau columns.
pub open spec fn total_cols(ncons: Seq<ConModel>, n: int) -> int {
    aux_base(ncons, n, ncons.len() as int)
}

pub proof fn lemma_aux_base_bounds(ncons: Seq<ConModel>, n: int, k: int)
    requires
        0 <= k,
        0 <= n,
    ensures
        n + k <= aux_base(ncons, n, k) <= n + 2 * k,
        k >= 1 ==> aux_base(ncons, n, k - 1) + 1 <= aux_base(ncons, n, k),
    decreases k,
{
    if k > 0 {
        lemma_aux_base_bounds(ncons, n, k - 1);
    }
}

/// Auxiliary column ids are assigned left to right, so the bases grow.
pub proof fn lemma_aux_base_monotonic(ncons: Seq<ConModel>, n: int, k1: int, k2: int)
    requires
        0 <= k1 <= k2,
        0 <= n,
    ensures
        aux_base(ncons, n, k1) <= aux_base(ncons, n, k2),
    decreases k2 - k1,
{
    if k1 < k2 {
        lemma_aux_base_monotonic(ncons, n, k1, k2 - 1);
        lemma_aux_base_bounds(ncons, n, k2);
    }
}

/// The auxiliary variables a (normalized) constraint introduces.
pub open spec fn con_aux_vars(r: Relation, base: int) -> Seq<Variable> {
    match r {
        Relation::LessEq => seq![Variable { kind: VarKind::Slack, id: base as usize }],
        Relation::GreaterEq => seq![
            Variable { kind: VarKind::Excess, id: base as usize },
            Variable { kind: VarKind::Artificial, id: (base + 1) as usize },
        ],
        Relation::Equal => seq![Variable { kind: VarKind::Artificial, id: base as usize }],
    }
}

/// The auxiliary part of the variable catalog, over the first `k` constraints.
pub open spec fn aux_vars_pre(ncons: Seq<ConModel>, n: int, k: int) -> Seq<Variable>
    decreases k,
{
    if k <= 0 {
        Seq::empty()
    } else {
        aux_vars_pre(ncons, n, k - 1) + con_aux_vars(
            ncons[k - 1].relation,
            aux_base(ncons, n, k - 1),
        )
    }
}

pub proof fn lemma_aux_vars_len(ncons: Seq<ConModel>, n: int, k: int)
    requires
        0 <= k,
        0 <= n,
    ensures
        aux_vars_pre(ncons, n, k).len() == aux_base(ncons, n, k) - n,
    decreases k,
{
    if k > 0 {
        lemma_aux_vars_len(ncons, n, k - 1);
    }
}

/// The whole variable catalog: decision columns, then auxiliary columns.
pub open spec fn spec_vars(ncons: Seq<ConModel>, n: int) -> Seq<Variable> {
    Seq::new(n as nat, |i: int| Variable { kind: VarKind::Decision, id: i as usize }) + aux_vars_pre(
        ncons,
        n,
        ncons.len() as int,
    )
}

/// The basis variable seeded for a (normalized) constraint: its Slack for
/// `<=`, its Artificial otherwise.
pub open spec fn con_basis_var(r: Relation, base: int) -> Variable {
    match r {
        Relation::LessEq => Variable { kind: VarKind::Slack, id: base as usize },
        Relation::GreaterEq => Variable { kind: VarKind::Artificial, id: (base + 1) as usize },
        Relation::Equal => Variable { kind: VarKind::Artificial, id: base as usize },
    }
}

/// The initial basis, one variable per constraint row.
pub open spec fn spec_basis(ncons: Seq<ConModel>, n: int) -> Seq<Variable> {
    Seq::new(ncons.len(), |k: int| con_basis_var(ncons[k].relation, aux_base(ncons, n, k)))
}

/// Entry `j` of the matrix row of (normalized) constraint `k`: its
/// coefficients on the decision columns, the 1 / -1 pattern on its own
/// auxiliary columns, 0 elsewhere.
pub open spec fn row_entry(c: ConModel, base: int, n: int, j: int) -> Rat {
    if j < n {
        c.coefficients[j]
    } else {
        match c.relation {
            Relation::LessEq => if j == base {
                rat_one()
            } else {
                rat_zero()
            },
            Relation::GreaterEq => if j == base {
                spec_neg(rat_one())
            } else if j == base + 1 {
                rat_one()
            } else {
                rat_zero()
            },
            Relation::Equal => if j == base {
                rat_one()
            } else {
                rat_zero()
            },
        }
    }
}

/// The constraint matrix.
pub open spec fn spec_matrix(ncons: Seq<ConModel>, n: int) -> Seq<Seq<Rat>> {
    Seq::new(
        ncons.len(),
        |k: int|
            Seq::new(
                total_cols(ncons, n) as nat,
                |j: int| row_entry(ncons[k], aux_base(ncons, n, k), n, j),
            ),
    )
}

/// The right-hand-side vector (non-negative after sign normalization).
pub open spec fn spec_rhs(ncons: Seq<ConModel>) -> Seq<Rat> {
    Seq::new(ncons.len(), |k: int| ncons[k].rhs)
}

/// Whether a (normalized) constraint contributes a Big-M penalty.
pub open spec fn penalized(r: Relation) -> bool {
    r == Relation::GreaterEq || r == Relation::Equal
}

/// Objective-row entry of decision column `j` after folding the penalties of
/// the first `k` constraints: each `>=` or `=` row adds `coefficient * m`.
pub open spec fn bigm_col(ncons: Seq<ConModel>, j: int, k: int, init: Rat, m: Rat) -> Option<Rat>
    decreases k,
{
    if k <= 0 {
        Some(init)
    } else {
        match bigm_col(ncons, j, k - 1, init, m) {
            Option::None => Option::None,
            Option::Some(v) => {
                if penalized(ncons[k - 1].relation) {
                    match spec_mul(ncons[k - 1].coefficients[j], m) {
                        Option::None => Option::None,
                        Option::Some(t) => spec_add(v, t),
                    }
                } else {
                    Option::Some(v)
                }
            },
        }
    }
}

/// Objective accumulator after folding the penalties of the first `k`
/// constraints: each `>=` or `=` row adds `rhs * m`.
pub open spec fn bigm_acc(ncons: Seq<ConModel>, k: int, m: Rat) -> Option<Rat>
    decreases k,
{
    if k <= 0 {
        Some(rat_zero())
    } else {
        match bigm_acc(ncons, k - 1, m) {
            Option::None => Option::None,
            Option::Some(v) => {
                if penalized(ncons[k - 1].relation) {
                    match spec_mul(ncons[k - 1].rhs, m) {
                        Option::None => Option::None,
                        Option::Some(t) => spec_add(v, t),
                    }
                } else {
                    Option::Some(v)
                }
            },
        }
    }
}

/// A fold that has failed stays failed.
pub proof fn lemma_bigm_col_none(ncons: Seq<ConModel>, j: int, k1: int, k2: int, init: Rat, m: Rat)
    requires
        0 <= k1 <= k2,
        bigm_col(ncons, j, k1, init, m) is None,
    ensures
        bigm_col(ncons, j, k2, init, m) is None,
    decreases k2 - k1,
{
    if k1 < k2 {
        lemma_bigm_col_none(ncons, j, k1, k2 - 1, init, m);
    }
}

pub proof fn lemma_bigm_acc_none(ncons: Seq<ConModel>, k1: int, k2: int, m: Rat)
    requires
        0 <= k1 <= k2,
        bigm_acc(ncons, k1, m) is None,
    ensures
        bigm_acc(ncons, k2, m) is None,
    decreases k2 - k1,
{
    if k1 < k2 {
        lemma_bigm_acc_none(ncons, k1, k2 - 1, m);
    }
}

/// Final objective-row entry of column `j`: the folded penalty on a decision
/// column, `-m` on an Excess column, 0 on any other auxiliary column.
pub open spec fn spec_obj_entry(p: ProbModel, m: Rat, j: int) -> Option<Rat> {
    let ncons = norm_cons(p);
    let n = p.objective.len() as int;
    if j < n {
        bigm_col(ncons, j, ncons.len() as int, eff_objective(p)[j], m)
    } else {
        if spec_vars(ncons, n)[j].kind == VarKind::Excess {
            Some(spec_neg(m))
        } else {
            Some(rat_zero())
        }
    }
}

/// Whether every checked operation of the Big-M fold stays in range.
pub open spec fn std_ok(p: ProbModel, m: Rat) -> bool {
    let ncons = norm_cons(p);
    let n = p.objective.len() as int;
    &&& forall|j: int| 0 <= j < n ==> (#[trigger] spec_obj_entry(p, m, j)) is Some
    &&& bigm_acc(ncons, ncons.len() as int, m) is Some
}

/// The tableau that standardization produces when every checked operation
/// stays in range.
pub open spec fn spec_tableau(p: ProbModel, m: Rat) -> TabModel {
    let ncons = norm_cons(p);
    let n = p.objective.len() as int;
    TabModel {
        matrix: spec_matrix(ncons, n),
        rhs: spec_rhs(ncons),
        obj: Seq::new(
            total_cols(ncons, n) as nat,
            |j: int| spec_obj_entry(p, m, j).unwrap_or(rat_zero()),
        ),
        acc: bigm_acc(ncons, ncons.len() as int, m).unwrap_or(rat_zero()),
        basis: spec_basis(ncons, n),
        vars: spec_vars(ncons, n),
        n_decision: n,
    }
}

/// The standardizer's full mathematical mirror.
pub open spec fn spec_standardize(p: ProbModel, m: Rat) -> Option<TabModel> {
    if std_ok(p, m) {
        Some(spec_tableau(p, m))
    } else {
        None
    }
}

/// Step 1: the objective row the engine maximizes.
fn effective_objective(p: &Problem) -> (r: Vec<Rat>)
    requires
        p@.wf(),
    ensures
        r@ == eff_objective(p@),
        rats_wf(r@),
{
    let mut r: Vec<Rat> = Vec::new();
    let n = p.objective.len();
    let minimize = match p.direction {
        Direction::Minimize => true,
        Direction::Maximize => false,
    };
    let mut i: usize = 0;
    while i < n
        invariant
            p@.wf(),
            n == p@.objective.len(),
            minimize == (p@.direction == Direction::Minimize),
            i <= n,
            r@.len() == i,
            forall|j: int| 0 <= j < i ==> r@[j] == eff_objective(p@)[j] && (#[trigger] r@[j]).wf(),
        decreases n - i,
    {
        if minimize {
            r.push(p.objective[i].neg());
        } else {
            r.push(p.objective[i]);
        }
        i += 1;
    }
    assert(r@ =~= eff_objective(p@));
    r
}

/// Step 2: sign normalization of every constraint.
fn normalize_constraints(p: &Problem) -> (r: Vec<Constraint>)
    requires
        p@.wf(),
    ensures
        r@.len() == norm_cons(p@).len(),
        forall|k: int| 0 <= k < r@.len() ==> (#[trigger] r@[k])@ == norm_cons(p@)[k],
        forall|k: int|
            0 <= k < r@.len() ==> (#[trigger] r@[k])@.wf(p@.objective.len() as int),
{
    let n_cons = p.constraints.len();
    let mut r: Vec<Constraint> = Vec::new();
    let mut k: usize = 0;
    while k < n_cons
        invariant
            p@.wf(),
            n_cons == p@.constraints.len(),
            k <= n_cons,
            r@.len() == k,
            forall|k2: int| 0 <= k2 < k ==> (#[trigger] r@[k2])@ == norm_cons(p@)[k2],
            forall|k2: int|
                0 <= k2 < k ==> (#[trigger] r@[k2])@.wf(p@.objective.len() as int),
        decreases n_cons - k,
    {
        let c = &p.constraints[k];
        assert(c@ == p@.constraints[k as int]);
        if c.rhs.is_neg() {
            let mut coeffs: Vec<Rat> = Vec::new();
            let len = c.coefficients.len();
            let mut i: usize = 0;
            while i < len
                invariant
                    c@.wf(p@.objective.len() as int),
                    len == c@.coefficients.len(),
                    i <= len,
                    coeffs@.len() == i,
                    forall|j: int|
                        0 <= j < i ==> coeffs@[j] == spec_neg(c@.coefficients[j]) && (
                        #[trigger] coeffs@[j]).wf(),
                decreases len - i,
            {
                coeffs.push(c.coefficients[i].neg());
                i += 1;
            }
            let relation = match c.relation {
                Relation::LessEq => Relation::GreaterEq,
                Relation::GreaterEq => Relation::LessEq,
                Relation::Equal => Relation::Equal,
            };
            let nc = Constraint { relation, coefficients: coeffs, rhs: c.rhs.neg() };
            proof {
                assert(nc@.coefficients =~= norm_con(c@).coefficients);
                assert(nc@ =~= norm_con(c@));
            }
            r.push(nc);
        } else {
            let mut coeffs: Vec<Rat> = Vec::new();
            let len = c.coefficients.len();
            let mut i: usize = 0;
            while i < len
                invariant
                    c@.wf(p@.objective.len() as int),
                    len == c@.coefficients.len(),
                    i <= len,
                    coeffs@.len() == i,
                    forall|j: int| 0 <= j < i ==> coeffs@[j] == c@.coefficients[j],
                decreases len - i,
            {
                coeffs.push(c.coefficients[i]);
                i += 1;
            }
            let nc = Constraint { relation: c.relation, coefficients: coeffs, rhs: c.rhs };
            proof {
                assert(nc@.coefficients =~= norm_con(c@).coefficients);
                assert(nc@ =~= norm_con(c@));
            }
            r.push(nc);
        }
        k += 1;
    }
    r
}

/// Step 3: the column layout: variable catalog, initial basis, and the first
/// auxiliary column of each constraint.
#[verifier::loop_isolation(false)]
fn build_layout(ncons: &Vec<Constraint>, n: usize, Ghost(ncs): Ghost<Seq<ConModel>>) -> (r: (
    Vec<Variable>,
    Vec<Variable>,
    Vec<usize>,
    usize,
))
    requires
        ncs.len() == ncons@.len(),
        forall|k: int| 0 <= k < ncs.len() ==> (#[trigger] ncons@[k])@ == ncs[k],
        n + 2 * ncons@.len() <= usize::MAX,
    ensures
        r.0@ == spec_vars(ncs, n as int),
        r.1@ == spec_basis(ncs, n as int),
        r.2@.len() == ncs.len(),
        forall|k: int| 0 <= k < ncs.len() ==> r.2@[k] == aux_base(ncs, n as int, k),
        r.3 == total_cols(ncs, n as int),
{
    let n_cons = ncons.len();
    let mut vars: Vec<Variable> = Vec::new();
    let mut i: usize = 0;
    while i < n
        invariant
            i <= n,
            vars@.len() == i,
            forall|j: int|
                0 <= j < i ==> vars@[j] == (Variable { kind: VarKind::Decision, id: j as usize }),
        decreases n - i,
    {
        vars.push(Variable { kind: VarKind::Decision, id: i });
        i += 1;
    }
    assert(vars@ =~= Seq::new(
        n as nat,
        |j: int| Variable { kind: VarKind::Decision, id: j as usize },
    ));
    let mut basis: Vec<Variable> = Vec::new();
    let mut bases: Vec<usize> = Vec::new();
    let mut next: usize = n;
    let mut k: usize = 0;
    while k < n_cons
        invariant
            k <= n_cons,
            next == aux_base(ncs, n as int, k as int),
            next <= n + 2 * k,
            vars@ == Seq::new(
                n as nat,
                |j: int| Variable { kind: VarKind::Decision, id: j as usize },
            ) + aux_vars_pre(ncs, n as int, k as int),
            basis@.len() == k,
            forall|k2: int|
                0 <= k2 < k ==> basis@[k2] == con_basis_var(
                    ncs[k2].relation,
                    aux_base(ncs, n as int, k2),
                ),
            bases@.len() == k,
            forall|k2: int| 0 <= k2 < k ==> bases@[k2] == aux_base(ncs, n as int, k2),
        decreases n_cons - k,
    {
        let ghost vars_before = vars@;
        let ghost base = next as int;
        bases.push(next);
        match ncons[k].relation {
            Relation::LessEq => {
                vars.push(Variable { kind: VarKind::Slack, id: next });
                basis.push(Variable { kind: VarKind::Slack, id: next });
                next += 1;
            },
            Relation::GreaterEq => {
                vars.push(Variable { kind: VarKind::Excess, id: next });
                vars.push(Variable { kind: VarKind::Artificial, id: next + 1 });
                basis.push(Variable { kind: VarKind::Artificial, id: next + 1 });
                next += 2;
            },
            Relation::Equal => {
                vars.push(Variable { kind: VarKind::Artificial, id: next });
                basis.push(Variable { kind: VarKind::Artificial, id: next });
                next += 1;
            },
        }
        proof {
            assert(ncons@[k as int]@.relation == ncs[k as int].relation);
            assert(vars@ =~= vars_before + con_aux_vars(ncs[k as int].relation, base));
            assert(aux_vars_pre(ncs, n as int, k + 1) == aux_vars_pre(ncs, n as int, k as int)
                + con_aux_vars(ncs[k as int].relation, base));
            assert(vars@ =~= Seq::new(
                n as nat,
                |j: int| Variable { kind: VarKind::Decision, id: j as usize },
            ) + aux_vars_pre(ncs, n as int, k + 1));
        }
        k += 1;
    }
    assert(basis@ =~= spec_basis(ncs, n as int));
    (vars, basis, bases, next)
}

/// Step 4: one matrix row per constraint.
#[verifier::loop_isolation(false)]
fn build_matrix(
    ncons: &Vec<Constraint>,
    n: usize,
    bases: &Vec<usize>,
    cols: usize,
    Ghost(ncs): Ghost<Seq<ConModel>>,
) -> (r: Vec<Vec<Rat>>)
    requires
        ncs.len() == ncons@.len(),
        forall|k: int| 0 <= k < ncs.len() ==> (#[trigger] ncons@[k])@ == ncs[k],
        forall|k: int| 0 <= k < ncs.len() ==> (#[trigger] ncs[k]).wf(n as int),
        bases@.len() == ncs.len(),
        forall|k: int| 0 <= k < ncs.len() ==> bases@[k] == aux_base(ncs, n as int, k),
        cols == total_cols(ncs, n as int),
        n + 2 * ncons@.len() <= usize::MAX,
    ensures
        r@.len() == ncs.len(),
        forall|k: int| 0 <= k < ncs.len() ==> (#[trigger] r@[k])@ == spec_matrix(ncs, n as int)[k],
{
    let n_cons = ncons.len();
    let mut r: Vec<Vec<Rat>> = Vec::new();
    let mut k: usize = 0;
    while k < n_cons
        invariant
            k <= n_cons,
            r@.len() == k,
            forall|k2: int|
                0 <= k2 < k ==> (#[trigger] r@[k2])@ == spec_matrix(ncs, n as int)[k2],
        decreases n_cons - k,
    {
        let c = &ncons[k];
        let base = bases[k];
        proof {
            lemma_aux_base_bounds(ncs, n as int, k as int);
            lemma_aux_base_bounds(ncs, n as int, k + 1);
            lemma_aux_base_monotonic(ncs, n as int, k + 1, ncs.len() as int);
        }
        let mut row: Vec<Rat> = Vec::new();
        let mut j: usize = 0;
        while j < cols
            invariant
                j <= cols,
                row@.len() == j,
                c@ == ncs[k as int],
                base == aux_base(ncs, n as int, k as int),
                forall|j2: int|
                    0 <= j2 < j ==> row@[j2] == row_entry(
                        ncs[k as int],
                        base as int,
                        n as int,
                        j2,
                    ),
            decreases cols - j,
        {
            let e: Rat = if j < n {
                c.coefficients[j]
            } else {
                match c.relation {
                    Relation::LessEq => {
                        if j == base {
                            Rat::one()
                        } else {
                            Rat::zero()
                        }
                    },
                    Relation::GreaterEq => {
                        if j == base {
                            Rat::from_int(-1)
                        } else if j == base + 1 {
                            Rat::one()
                        } else {
                            Rat::zero()
                        }
                    },
                    Relation::Equal => {
                        if j == base {
                            Rat::one()
                        } else {
                            Rat::zero()
                        }
                    },
                }
            };
            row.push(e);
            j += 1;
        }
        assert(row@ =~= spec_matrix(ncs, n as int)[k as int]);
        r.push(row);
        k += 1;
    }
    r
}

/// Step 5: the Big-M fold into the objective row; `None` exactly when a
/// checked operation leaves the representable range.
#[verifier::loop_isolation(false)]
fn build_objective(
    p: &Problem,
    ncons: &Vec<Constraint>,
    vars: &Vec<Variable>,
    cols: usize,
    m: Rat,
) -> (r: Option<Vec<Rat>>)
    requires
        p@.wf(),
        m.wf(),
        ncons@.len() == norm_cons(p@).len(),
        forall|k: int| 0 <= k < ncons@.len() ==> (#[trigger] ncons@[k])@ == norm_cons(p@)[k],
        vars@ == spec_vars(norm_cons(p@), p@.objective.len() as int),
        vars@.len() == cols,
        cols == total_cols(norm_cons(p@), p@.objective.len() as int),
        p@.objective.len() <= cols,
    ensures
        r matches Some(z) ==> {
            &&& z@.len() == cols
            &&& forall|j: int| 0 <= j < cols ==> spec_obj_entry(p@, m, j) == Some(z@[j])
            &&& rats_wf(z@)
        },
        r is None ==> exists|j: int|
            0 <= j < p@.objective.len() && (#[trigger] spec_obj_entry(p@, m, j)) is None,
{
    let ghost ncs = norm_cons(p@);
    let ghost n_int = p@.objective.len() as int;
    let n = p.objective.len();
    let n_cons = ncons.len();
    let eff = effective_objective(p);
    let mut z: Vec<Rat> = Vec::new();
    let mut j: usize = 0;
    while j < cols
        invariant
            j <= cols,
            z@.len() == j,
            n == eff@.len(),
            n <= cols,
            eff@ == eff_objective(p@),
            rats_wf(eff@),
            m.wf(),
            vars@ == spec_vars(ncs, n_int),
            vars@.len() == cols,
            forall|j2: int|
                n <= j2 < j ==> spec_obj_entry(p@, m, j2) == Some(z@[j2]),
            forall|j2: int| 0 <= j2 < j && j2 < n ==> z@[j2] == eff_objective(p@)[j2],
            forall|j2: int| 0 <= j2 < j ==> (#[trigger] z@[j2]).wf(),
        decreases cols - j,
    {
        if j < n {
            z.push(eff[j]);
        } else {
            let is_excess = match vars[j].kind {
                VarKind::Excess => true,
                _ => false,
            };
            if is_excess {
                z.push(m.neg());
            } else {
                z.push(Rat::zero());
            }
        }
        j += 1;
    }
    // Fold the Big-M penalty of each `>=` / `=` row into the decision columns.
    let mut k: usize = 0;
    while k < n_cons
        invariant
            k <= n_cons,
            n_cons == ncs.len(),
            n == p@.objective.len(),
            n <= cols,
            m.wf(),
            z@.len() == cols,
            forall|k2: int| 0 <= k2 < ncs.len() ==> (#[trigger] ncons@[k2])@ == ncs[k2],
            forall|j2: int|
                0 <= j2 < n ==> bigm_col(ncs, j2, k as int, eff_objective(p@)[j2], m) == Some(
                    z@[j2],
                ),
            forall|j2: int| n <= j2 < cols ==> spec_obj_entry(p@, m, j2) == Some(z@[j2]),
            forall|j2: int| 0 <= j2 < cols ==> (#[trigger] z@[j2]).wf(),
        decreases n_cons - k,
    {
        let c = &ncons[k];
        let pen = match c.relation {
            Relation::GreaterEq => true,
            Relation::Equal => true,
            Relation::LessEq => false,
        };
        if pen {
            let mut j2: usize = 0;
            while j2 < n
                invariant
                    j2 <= n,
                    k < n_cons,
                    n_cons == ncs.len(),
                    n == p@.objective.len(),
                    n <= cols,
                    m.wf(),
                    z@.len() == cols,
                    c@ == ncs[k as int],
                    penalized(ncs[k as int].relation),
                    c@.coefficients.len() == n,
                    forall|j3: int|
                        0 <= j3 < j2 ==> bigm_col(ncs, j3, k + 1, eff_objective(p@)[j3], m)
                            == Some(z@[j3]),
                    forall|j3: int|
                        j2 <= j3 < n ==> bigm_col(ncs, j3, k as int, eff_objective(p@)[j3], m)
                            == Some(z@[j3]),
                    forall|j3: int| n <= j3 < cols ==> spec_obj_entry(p@, m, j3) == Some(z@[j3]),
                    forall|j3: int| 0 <= j3 < cols ==> (#[trigger] z@[j3]).wf(),
                decreases n - j2,
            {
                let t = match c.coefficients[j2].mul(m) {
                    Option::Some(t) => t,
                    Option::None => {
                        proof {
                            lemma_bigm_col_none(
                                ncs,
                                j2 as int,
                                k + 1,
                                ncs.len() as int,
                                eff_objective(p@)[j2 as int],
                                m,
                            );
                            assert(spec_obj_entry(p@, m, j2 as int) is None);
                        }
                        return None;
                    },
                };
                let v = match z[j2].add(t) {
                    Option::Some(v) => v,
                    Option::None => {
                        proof {
                            lemma_bigm_col_none(
                                ncs,
                                j2 as int,
                                k + 1,
                                ncs.len() as int,
                                eff_objective(p@)[j2 as int],
                                m,
                            );
                            assert(spec_obj_entry(p@, m, j2 as int) is None);
                        }
                        return None;
                    },
                };
                z.set(j2, v);
                j2 += 1;
            }
        }
        proof {
            assert(forall|j3: int|
                0 <= j3 < n ==> bigm_col(ncs, j3, k + 1, eff_objective(p@)[j3], m) == Some(
                    z@[j3],
                ));
        }
        k += 1;
    }
    Some(z)
}

/// Step 5 (continued): the Big-M fold into the objective accumulator.
#[verifier::loop_isolation(false)]
fn build_acc(ncons: &Vec<Constraint>, m: Rat, Ghost(ncs): Ghost<Seq<ConModel>>) -> (r: Option<
    Rat,
>)
    requires
        m.wf(),
        ncs.len() == ncons@.len(),
        forall|k: int| 0 <= k < ncs.len() ==> (#[trigger] ncons@[k])@ == ncs[k],
        forall|k: int| 0 <= k < ncs.len() ==> (#[trigger] ncs[k]).rhs.wf(),
    ensures
        r == bigm_acc(ncs, ncs.len() as int, m),
        r matches Some(a) ==> a.wf(),
{
    let n_cons = ncons.len();
    let mut acc = Rat::zero();
    let mut k: usize = 0;
    while k < n_cons
        invariant
            k <= n_cons,
            m.wf(),
            acc.wf(),
            bigm_acc(ncs, k as int, m) == Some(acc),
        decreases n_cons - k,
    {
        let c = &ncons[k];
        let pen = match c.relation {
            Relation::GreaterEq => true,
            Relation::Equal => true,
            Relation::LessEq => false,
        };
        if pen {
            let t = match c.rhs.mul(m) {
                Option::Some(t) => t,
                Option::None => {
                    proof {
                        lemma_bigm_acc_none(ncs, k + 1, ncs.len() as int, m);
                    }
                    return None;
                },
            };
            acc = match acc.add(t) {
                Option::Some(v) => v,
                Option::None => {
                    proof {
                        lemma_bigm_acc_none(ncs, k + 1, ncs.len() as int, m);
                    }
                    return None;
                },
            };
        }
        k += 1;
    }
    Some(acc)
}

/// Standardization: build the canonical tableau of `p` with penalty `big_m`.
///
/// Produces exactly the mirrored tableau `spec_tableau(p@, big_m)`, or
/// `None` exactly when the Big-M fold leaves the representable range
/// (`std_ok`). The construction itself (layout, matrix, sign normalization)
/// cannot fail.
pub fn standardize(p: &Problem, big_m: Rat) -> (r: Option<Tableau>)
    requires
        p@.wf(),
        big_m.wf(),
        p@.objective.len() + 2 * p@.constraints.len() <= usize::MAX,
    ensures
        r is Some <==> std_ok(p@, big_m),
        r matches Some(tab) ==> tab@ == spec_tableau(p@, big_m) && tab.wf(),
{
    let ghost ncs = norm_cons(p@);
    let ghost n_int = p@.objective.len() as int;
    let n = p.objective.len();
    let ncons = normalize_constraints(p);
    let (vars, basis, bases, cols) = build_layout(&ncons, n, Ghost(ncs));
    proof {
        lemma_aux_vars_len(ncs, n_int, ncs.len() as int);
        lemma_aux_base_bounds(ncs, n_int, ncs.len() as int);
    }
    let matrix = build_matrix(&ncons, n, &bases, cols, Ghost(ncs));
    let mut rhs: Vec<Rat> = Vec::new();
    let mut k: usize = 0;
    while k < ncons.len()
        invariant
            k <= ncons@.len(),
            ncs.len() == ncons@.len(),
            forall|k2: int| 0 <= k2 < ncs.len() ==> (#[trigger] ncons@[k2])@ == ncs[k2],
            rhs@.len() == k,
            forall|k2: int| 0 <= k2 < k ==> rhs@[k2] == spec_rhs(ncs)[k2],
        decreases ncons@.len() - k,
    {
        rhs.push(ncons[k].rhs);
        k += 1;
    }
    assert(rhs@ =~= spec_rhs(ncs));
    let z = match build_objective(p, &ncons, &vars, cols, big_m) {
        Option::Some(z) => z,
        Option::None => {
            return None;
        },
    };
    let acc = match build_acc(&ncons, big_m, Ghost(ncs)) {
        Option::Some(a) => a,
        Option::None => {
            return None;
        },
    };
    let tab = Tableau { matrix, rhs, obj: z, acc, basis, vars, n_decision: n };
    proof {
        assert(std_ok(p@, big_m));
        let spec_t = spec_tableau(p@, big_m);
        assert(tab@.matrix =~~= spec_t.matrix);
        assert(tab@.obj =~= spec_t.obj);
        assert(tab@ =~~= spec_t);
        // Structural well-formedness of the built tableau.
        assert forall|i: int, j: int|
            0 <= i < tab@.rows() && 0 <= j < tab@.cols() implies (
        #[trigger] tab@.matrix[i][j]).wf() by {
            assert(tab@.matrix[i][j] == row_entry(ncs[i], aux_base(ncs, n_int, i), n_int, j));
            assert(ncs[i].wf(n_int));
        }
        assert(rats_wf(tab@.rhs)) by {
            assert(forall|i: int|
                0 <= i < ncs.len() ==> (#[trigger] ncs[i]).wf(n_int));
        }
        assert(tab@.wf());
    }
    Some(tab)
}

} // verus!
