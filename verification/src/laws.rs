//! Laws of the solver, proved against the mirrored specification.
//!
//! `solve_with` returns exactly `spec_solve` (its contract), so everything
//! proved of `spec_solve` here holds of the executable solver.

use vstd::prelude::*;
use crate::rat::{
    Rat,
    rat_zero,
    rat_one,
    spec_neg,
    spec_add,
    spec_mul,
    spec_div,
    spec_sub,
    eq_val,
    is_neg_val,
    le_val,
    is_pos_val,
    lemma_norm_zero,
    lemma_spec_mul_val,
    lemma_spec_div_val,
    lemma_spec_sub_val,
    lemma_spec_add_val,
};
use crate::model::{Relation, Direction, VarKind, Variable, ConModel, ProbModel, SolveState, rats_wf};
use crate::standardize::{
    TabModel,
    norm_con,
    norm_cons,
    aux_vars_pre,
    con_aux_vars,
    aux_base,
    spec_basis,
    spec_obj_entry,
    spec_tableau,
    spec_rhs,
    row_entry,
    bigm_col,
    bigm_acc,
    penalized,
    std_ok,
    lemma_aux_vars_len,
    lemma_aux_base_bounds,
    eff_objective,
    con_basis_var,
};
use crate::engine::{
    RunEnd,
    elim_entry,
    pivot_entry,
    pivot_rhs_entry,
    pivot_obj_entry,
    pivot_acc,
    qualifies,
    spec_extract,
    decision_value,
    lemma_find_basis_row_props,
    lemma_min_ratio_scan_min,
    spec_run,
    spec_finish,
    spec_pivot,
    spec_min_ratio,
    first_pos_col,
    bad_artificial,
    pivot_ok,
    lemma_first_pos_props,
    lemma_min_ratio_scan_props,
};
use crate::solver::{spec_solve, spec_satisfies, con_holds, dot_acc};

verus! {

/// When every (normalized) constraint is `<=`, the auxiliary catalog holds
/// Slack variables only.
proof fn lemma_aux_vars_all_slack(ncons: Seq<ConModel>, n: int, k: int)
    requires
        0 <= k <= ncons.len(),
        forall|k2: int|
            0 <= k2 < ncons.len() ==> (#[trigger] ncons[k2]).relation == Relation::LessEq,
    ensures
        forall|j: int|
            0 <= j < aux_vars_pre(ncons, n, k).len() ==> (#[trigger] aux_vars_pre(ncons, n, k)[j]).kind
                == VarKind::Slack,
    decreases k,
{
    if k > 0 {
        lemma_aux_vars_all_slack(ncons, n, k - 1);
        assert(con_aux_vars(ncons[k - 1].relation, aux_base(ncons, n, k - 1)) == seq![
            Variable { kind: VarKind::Slack, id: aux_base(ncons, n, k - 1) as usize },
        ]);
    }
}

/// A tableau without Artificial variables (in the basis or the catalog)
/// can never end `Unfeasible`: pivots only move catalog variables into the
/// basis.
proof fn lemma_run_never_unfeasible(t: TabModel, fuel: nat)
    requires
        t.basis.len() == t.rows(),
        t.vars.len() == t.cols(),
        forall|i: int| 0 <= i < t.basis.len() ==> (#[trigger] t.basis[i]).kind != VarKind::Artificial,
        forall|j: int| 0 <= j < t.vars.len() ==> (#[trigger] t.vars[j]).kind != VarKind::Artificial,
    ensures
        spec_run(t, fuel) matches Some(end) ==> end != RunEnd::Unfeasible,
    decreases fuel,
{
    if fuel > 0 {
        match first_pos_col(t.obj, 0) {
            Option::None => {
                assert(!bad_artificial(t));
            },
            Option::Some(x) => {
                lemma_first_pos_props(t.obj, 0);
                match spec_min_ratio(t, x) {
                    Option::None => {},
                    Option::Some(Option::None) => {},
                    Option::Some(Option::Some(yr)) => {
                        lemma_min_ratio_scan_props(t, x, 0, Option::None);
                        if pivot_ok(t, x, yr.0) {
                            let t2 = spec_pivot(t, x, yr.0);
                            assert(t2.basis == t.basis.update(yr.0, t.vars[x]));
                            assert(forall|i: int|
                                0 <= i < t2.basis.len() ==> (#[trigger] t2.basis[i]).kind
                                    != VarKind::Artificial);
                            lemma_run_never_unfeasible(t2, (fuel - 1) as nat);
                        }
                    },
                }
            },
        }
    }
}

/// For a problem whose constraints are all `<=` with non-negative
/// right-hand sides, the initial all-Slack basis is already a feasible
/// starting point and no Artificial variable exists at all, so the solver
/// can never report `Unfeasible`.
pub proof fn lemma_all_leq_never_unfeasible(p: ProbModel, m: Rat, fuel: nat)
    requires
        forall|k: int|
            0 <= k < p.constraints.len() ==> (#[trigger] p.constraints[k]).relation
                == Relation::LessEq && !is_neg_val(p.constraints[k].rhs),
    ensures
        spec_solve(p, m, fuel) matches Some(s) ==> s.state != SolveState::Unfeasible,
{
    if std_ok(p, m) {
        let ncs = norm_cons(p);
        let n = p.objective.len() as int;
        assert(forall|k: int|
            0 <= k < ncs.len() ==> (#[trigger] ncs[k]).relation == Relation::LessEq);
        let t = spec_tableau(p, m);
        assert(forall|i: int|
            0 <= i < t.basis.len() ==> (#[trigger] t.basis[i]).kind != VarKind::Artificial)
            by {
            assert(forall|i: int|
                0 <= i < ncs.len() ==> (#[trigger] spec_basis(ncs, n)[i]) == con_basis_var(
                    ncs[i].relation,
                    aux_base(ncs, n, i),
                ));
        }
        lemma_aux_vars_all_slack(ncs, n, ncs.len() as int);
        lemma_aux_vars_len(ncs, n, ncs.len() as int);
        assert(forall|j: int|
            0 <= j < t.vars.len() ==> (#[trigger] t.vars[j]).kind != VarKind::Artificial);
        lemma_run_never_unfeasible(t, fuel);
        match spec_run(t, fuel) {
            Option::None => {},
            Option::Some(end) => {
                assert(spec_finish(p.direction, end).state != SolveState::Unfeasible);
            },
        }
    }
}

proof fn lemma_mul_by_zero(c: Rat)
    requires
        c.wf(),
    ensures
        spec_mul(c, rat_zero()) == Some(rat_zero()),
{
    assert(c.num * 0 == 0);
    assert(c.den * 1 == c.den);
    lemma_norm_zero(c.den as int);
}

proof fn lemma_zero_plus_zero()
    ensures
        spec_add(rat_zero(), rat_zero()) == Some(rat_zero()),
{
    lemma_norm_zero(1);
}

/// The dot product of any well-formed coefficients with the all-zero
/// assignment is zero.
proof fn lemma_dot_zeros(coeffs: Seq<Rat>, values: Seq<Rat>, k: int)
    requires
        rats_wf(coeffs),
        k <= coeffs.len(),
        coeffs.len() <= values.len(),
        forall|i: int| 0 <= i < values.len() ==> values[i] == rat_zero(),
    ensures
        dot_acc(coeffs, values, k, rat_zero()) == Some(rat_zero()),
    decreases k,
{
    if k > 0 {
        lemma_dot_zeros(coeffs, values, k - 1);
        lemma_mul_by_zero(coeffs[k - 1]);
        lemma_zero_plus_zero();
    }
}

/// For an all-`<=` problem with non-negative right-hand sides, the all-zero
/// assignment — the basic solution of the initial all-Slack basis, with
/// every decision variable at 0 — already satisfies every constraint.
pub proof fn lemma_all_leq_zero_assignment_feasible(p: ProbModel, values: Seq<Rat>, k: int)
    requires
        p.wf(),
        values.len() == p.objective.len(),
        forall|i: int| 0 <= i < values.len() ==> values[i] == rat_zero(),
        forall|k2: int|
            0 <= k2 < p.constraints.len() ==> (#[trigger] p.constraints[k2]).relation
                == Relation::LessEq && !is_neg_val(p.constraints[k2].rhs),
        0 <= k <= p.constraints.len(),
    ensures
        spec_satisfies(p, values, k) == Some(true),
    decreases k,
{
    if k > 0 {
        lemma_all_leq_zero_assignment_feasible(p, values, k - 1);
        let c = p.constraints[k - 1];
        lemma_dot_zeros(c.coefficients, values, c.coefficients.len() as int);
        assert(!is_neg_val(c.rhs));
        assert(0 * c.rhs.den <= c.rhs.num * 1) by (nonlinear_arith)
            requires
                0 <= c.rhs.num,
        ;
        assert(le_val(rat_zero(), c.rhs));
        assert(con_holds(c, values) == Some(true));
    }
}

/// `x == y` follows from `x * k == y * k` for `k != 0`.
proof fn lemma_cancel_factor(x: int, y: int, k: int)
    by (nonlinear_arith)
    requires
        x * k == y * k,
        k != 0,
    ensures
        x == y,
{
}

/// A nonzero rational divided by itself has value 1.
proof fn lemma_div_self_is_one(a: Rat)
    requires
        a.wf(),
        a.num != 0,
    ensures
        spec_div(a, a) matches Some(c) ==> eq_val(c, rat_one()),
{
    lemma_spec_div_val(a, a);
    if spec_div(a, a) is Some {
        let c = spec_div(a, a).unwrap();
        assert(c.num == c.den) by (nonlinear_arith)
            requires
                c.num * (a.den * a.num) == (a.num * a.den) * c.den,
                a.den >= 1,
                a.num != 0,
        ;
    }
}

/// Multiplying by `p` and dividing by `p` gives back the same value.
proof fn lemma_mul_div_cancel(a: Rat, p: Rat)
    requires
        a.wf(),
        p.wf(),
        p.num != 0,
    ensures
        spec_mul(a, p) matches Some(t1) ==> (spec_div(t1, p) matches Some(t2) ==> eq_val(t2, a)),
{
    lemma_spec_mul_val(a, p);
    if spec_mul(a, p) is Some {
        let t1 = spec_mul(a, p).unwrap();
        lemma_spec_div_val(t1, p);
        if spec_div(t1, p) is Some {
            let t2 = spec_div(t1, p).unwrap();
            let k = t1.den as int * p.num as int;
            assert(t2.num * a.den * k == t1.num * p.den * t2.den * a.den) by (nonlinear_arith)
                requires
                    k == t1.den as int * p.num as int,
                    t2.num * (t1.den * p.num) == (t1.num * p.den) * t2.den,
            ;
            assert(t1.num * p.den * t2.den * a.den == a.num * p.num * t1.den * t2.den)
                by (nonlinear_arith)
                requires
                    t1.num * (a.den * p.den) == (a.num * p.num) * t1.den,
            ;
            assert(a.num * p.num * t1.den * t2.den == a.num * t2.den * k) by (nonlinear_arith)
                requires
                    k == t1.den as int * p.num as int,
            ;
            assert(k != 0) by (nonlinear_arith)
                requires
                    k == t1.den as int * p.num as int,
                    t1.den >= 1,
                    p.num != 0,
            ;
            lemma_cancel_factor(t2.num * a.den, a.num * t2.den, k);
        }
    }
}

/// Subtracting a rational of equal value gives exactly zero.
proof fn lemma_sub_equal_is_zero(v: Rat, w: Rat)
    requires
        v.wf(),
        w.wf(),
        eq_val(v, w),
    ensures
        spec_sub(v, w) == Some(rat_zero()),
{
    assert(v.num * w.den - w.num * v.den == 0);
    assert(v.den * w.den >= 1) by (nonlinear_arith)
        requires
            v.den >= 1,
            w.den >= 1,
    ;
    lemma_norm_zero(v.den as int * w.den as int);
}

/// After a pivot on row `y`, column `x`, the entering column is a unit
/// column: value 1 in the pivot row and exactly 0 in every other row — the
/// defining property of the new basis variable's column.
pub proof fn lemma_pivot_unit_column(t: TabModel, x: int, y: int)
    requires
        t.wf(),
        0 <= x < t.cols(),
        0 <= y < t.rows(),
        t.matrix[y][x].num != 0,
        pivot_ok(t, x, y),
    ensures
        eq_val(spec_pivot(t, x, y).matrix[y][x], rat_one()),
        forall|i: int|
            0 <= i < t.rows() && i != y ==> (#[trigger] spec_pivot(t, x, y).matrix[i][x]).num
                == 0,
{
    let piv = t.matrix[y][x];
    let t2 = spec_pivot(t, x, y);
    lemma_div_self_is_one(piv);
    assert(pivot_entry(t, x, y, y, x) is Some);
    assert(t2.matrix[y][x] == pivot_entry(t, x, y, y, x).unwrap());
    assert forall|i: int| 0 <= i < t.rows() && i != y implies (#[trigger] t2.matrix[i][x]).num
        == 0 by {
        let v = t.matrix[i][x];
        assert(pivot_entry(t, x, y, i, x) is Some);
        assert(t2.matrix[i][x] == pivot_entry(t, x, y, i, x).unwrap());
        assert(pivot_entry(t, x, y, i, x) == elim_entry(v, v, piv, piv));
        lemma_mul_div_cancel(v, piv);
        lemma_spec_mul_val(v, piv);
        match spec_mul(v, piv) {
            Option::None => {},
            Option::Some(m1) => {
                lemma_spec_div_val(m1, piv);
                match spec_div(m1, piv) {
                    Option::None => {},
                    Option::Some(d1) => {
                        lemma_sub_equal_is_zero(v, d1);
                    },
                }
            },
        }
    }
}

/// `x <= y` follows from `x * k <= y * k` for `k > 0`.
proof fn lemma_cancel_factor_le(x: int, y: int, k: int)
    by (nonlinear_arith)
    requires
        x * k <= y * k,
        k > 0,
    ensures
        x <= y,
{
}

/// A non-negative value divided by a positive one stays non-negative.
proof fn lemma_div_nonneg(a: Rat, b: Rat)
    requires
        a.wf(),
        b.wf(),
        !is_neg_val(a),
        is_pos_val(b),
    ensures
        spec_div(a, b) matches Some(c) ==> !is_neg_val(c),
{
    lemma_spec_div_val(a, b);
    if spec_div(a, b) is Some {
        let c = spec_div(a, b).unwrap();
        assert(c.num >= 0) by (nonlinear_arith)
            requires
                c.num * (a.den * b.num) == (a.num * b.den) * c.den,
                a.den >= 1,
                b.num > 0,
                a.num >= 0,
                b.den >= 1,
                c.den >= 1,
        ;
    }
}

/// A non-positive value divided by a positive one stays non-positive.
proof fn lemma_div_nonpos(a: Rat, b: Rat)
    requires
        a.wf(),
        b.wf(),
        !is_pos_val(a),
        is_pos_val(b),
    ensures
        spec_div(a, b) matches Some(c) ==> !is_pos_val(c),
{
    lemma_spec_div_val(a, b);
    if spec_div(a, b) is Some {
        let c = spec_div(a, b).unwrap();
        assert(c.num <= 0) by (nonlinear_arith)
            requires
                c.num * (a.den * b.num) == (a.num * b.den) * c.den,
                a.den >= 1,
                b.num > 0,
                a.num <= 0,
                b.den >= 1,
                c.den >= 1,
        ;
    }
}

/// A non-positive value times a non-negative one is non-positive.
proof fn lemma_mul_nonpos_nonneg(a: Rat, b: Rat)
    requires
        a.wf(),
        b.wf(),
        !is_pos_val(a),
        !is_neg_val(b),
    ensures
        spec_mul(a, b) matches Some(c) ==> !is_pos_val(c),
{
    lemma_spec_mul_val(a, b);
    if spec_mul(a, b) is Some {
        let c = spec_mul(a, b).unwrap();
        assert(c.num <= 0) by (nonlinear_arith)
            requires
                c.num * (a.den * b.den) == (a.num * b.num) * c.den,
                a.den >= 1,
                b.den >= 1,
                a.num <= 0,
                b.num >= 0,
                c.den >= 1,
        ;
    }
}

/// Subtracting a non-positive value from a non-negative one stays
/// non-negative.
proof fn lemma_sub_nonpos_nonneg(a: Rat, b: Rat)
    requires
        a.wf(),
        b.wf(),
        !is_neg_val(a),
        !is_pos_val(b),
    ensures
        spec_sub(a, b) matches Some(c) ==> !is_neg_val(c),
{
    lemma_spec_sub_val(a, b);
    if spec_sub(a, b) is Some {
        let c = spec_sub(a, b).unwrap();
        assert(c.num >= 0) by (nonlinear_arith)
            requires
                c.num * (a.den * b.den) == (a.num * b.den - b.num * a.den) * c.den,
                a.den >= 1,
                b.den >= 1,
                a.num >= 0,
                b.num <= 0,
                c.den >= 1,
        ;
    }
}

/// The minimum-ratio argument for one row: when row `y`'s ratio `q = r / p`
/// is at most row `i`'s ratio `qi = ri / f` (both rows qualifying), the
/// eliminated right-hand side `ri - (f * r) / p` stays non-negative.
/// The minimum-ratio argument for one row: when row `y`'s ratio `q = r / p`
/// is at most row `i`'s ratio `qi = ri / f` (both rows qualifying), the
/// eliminated right-hand side `ri - (f * r) / p` stays non-negative.
proof fn lemma_elim_rhs_nonneg(ri: Rat, f: Rat, r: Rat, p: Rat, q: Rat, qi: Rat)
    requires
        ri.wf(),
        f.wf(),
        r.wf(),
        p.wf(),
        is_pos_val(f),
        is_pos_val(p),
        !is_neg_val(r),
        !is_neg_val(ri),
        spec_div(r, p) == Some(q),
        spec_div(ri, f) == Some(qi),
        le_val(q, qi),
    ensures
        spec_mul(f, r) matches Some(t1) ==> (spec_div(t1, p) matches Some(t2) ==> (spec_sub(
            ri,
            t2,
        ) matches Some(c) ==> !is_neg_val(c))),
{
    lemma_spec_div_val(r, p);
    lemma_spec_div_val(ri, f);
    lemma_spec_mul_val(f, r);
    if spec_mul(f, r) is Some {
        let t1 = spec_mul(f, r).unwrap();
        lemma_spec_div_val(t1, p);
        if spec_div(t1, p) is Some {
            let t2 = spec_div(t1, p).unwrap();
            // (A) `t2 = (f * r) / p` with the intermediate `t1` cancelled:
            // multiply the quotient equation by `f.den * r.den`, rewrite by
            // the product equation, and cancel `t1.den`.
            assert((t2.num * (t1.den * p.num)) * (f.den * r.den) == (t2.num * (p.num * f.den
                * r.den)) * t1.den) by (nonlinear_arith);
            assert(((t1.num * p.den) * t2.den) * (f.den * r.den) == (t1.num * (f.den * r.den)) * (
            p.den * t2.den)) by (nonlinear_arith);
            assert(((f.num * r.num) * t1.den) * (p.den * t2.den) == (t2.den * (p.den * f.num
                * r.num)) * t1.den) by (nonlinear_arith);
            lemma_cancel_factor(
                t2.num * (p.num * f.den * r.den),
                t2.den * (p.den * f.num * r.num),
                t1.den as int,
            );
            // (B) so `t2 = f * q` in value: multiply by `r.den * p.num`,
            // rewrite by (A) and the ratio equation, cancel.
            assert((t2.num * (f.den * q.den)) * (r.den * p.num) == q.den * (t2.num * (p.num * f.den
                * r.den))) by (nonlinear_arith);
            assert(q.den * (t2.den * (p.den * f.num * r.num)) == (f.num * t2.den) * ((r.num
                * p.den) * q.den)) by (nonlinear_arith);
            assert((f.num * t2.den) * (q.num * (r.den * p.num)) == ((f.num * q.num) * t2.den) * (
            r.den * p.num)) by (nonlinear_arith);
            assert(r.den * p.num > 0) by (nonlinear_arith)
                requires
                    r.den >= 1,
                    p.num > 0,
            ;
            lemma_cancel_factor(
                t2.num * (f.den * q.den),
                (f.num * q.num) * t2.den,
                r.den as int * p.num as int,
            );
            // (C) `f * q <= ri` in value: multiply the ratio comparison by
            // `ri.den * f.num`, rewrite by row `i`'s ratio equation, cancel
            // `qi.den`.
            assert(ri.den * f.num > 0) by (nonlinear_arith)
                requires
                    ri.den >= 1,
                    f.num > 0,
            ;
            assert((q.num * qi.den) * (ri.den * f.num) <= (qi.num * q.den) * (ri.den * f.num))
                by (nonlinear_arith)
                requires
                    q.num * qi.den <= qi.num * q.den,
                    ri.den * f.num > 0,
            ;
            assert((q.num * qi.den) * (ri.den * f.num) == (f.num * q.num * ri.den) * qi.den)
                by (nonlinear_arith);
            assert((qi.num * q.den) * (ri.den * f.num) == q.den * (qi.num * (ri.den * f.num)))
                by (nonlinear_arith);
            assert(q.den * ((ri.num * f.den) * qi.den) == (q.den * ri.num * f.den) * qi.den)
                by (nonlinear_arith);
            lemma_cancel_factor_le(
                f.num as int * q.num as int * ri.den as int,
                q.den as int * ri.num as int * f.den as int,
                qi.den as int,
            );
            // (D) so `t2 <= ri` in value: multiply by `f.den * q.den`,
            // rewrite by (B) and (C), cancel.
            assert((t2.num * ri.den) * (f.den * q.den) == ri.den * (t2.num * (f.den * q.den)))
                by (nonlinear_arith);
            assert(ri.den * ((f.num * q.num) * t2.den) == (f.num * q.num * ri.den) * t2.den)
                by (nonlinear_arith);
            assert((f.num * q.num * ri.den) * t2.den <= (q.den * ri.num * f.den) * t2.den)
                by (nonlinear_arith)
                requires
                    f.num * q.num * ri.den <= q.den * ri.num * f.den,
                    t2.den >= 1,
            ;
            assert((q.den * ri.num * f.den) * t2.den == (ri.num * t2.den) * (f.den * q.den))
                by (nonlinear_arith);
            assert(f.den * q.den > 0) by (nonlinear_arith)
                requires
                    f.den >= 1,
                    q.den >= 1,
            ;
            lemma_cancel_factor_le(
                t2.num as int * ri.den as int,
                ri.num as int * t2.den as int,
                f.den as int * q.den as int,
            );
            // `ri - t2` is then non-negative.
            lemma_spec_sub_val(ri, t2);
            if spec_sub(ri, t2) is Some {
                let c = spec_sub(ri, t2).unwrap();
                assert(c.num >= 0) by (nonlinear_arith)
                    requires
                        c.num * (ri.den * t2.den) == (ri.num * t2.den - t2.num * ri.den) * c.den,
                        t2.num * ri.den <= ri.num * t2.den,
                        ri.den >= 1,
                        t2.den >= 1,
                        c.den >= 1,
                ;
            }
        }
    }
}

/// All right-hand sides of a tableau are non-negative.
pub open spec fn rhs_nonneg(t: TabModel) -> bool {
    forall|i: int| 0 <= i < t.rhs.len() ==> !is_neg_val(#[trigger] t.rhs[i])
}

/// A pivot on the minimum-ratio row keeps every right-hand side
/// non-negative: the pivot row is divided by a positive entry, and the
/// minimum-ratio choice makes every elimination subtract no more than the
/// row had.
proof fn lemma_pivot_rhs_nonneg(t: TabModel, x: int, y: int, q: Rat)
    requires
        t.wf(),
        0 <= x < t.cols(),
        0 <= y < t.rows(),
        qualifies(t, x, y),
        pivot_ok(t, x, y),
        rhs_nonneg(t),
        spec_div(t.rhs[y], t.matrix[y][x]) == Some(q),
        forall|i: int|
            0 <= i < t.rows() && qualifies(t, x, i) ==> ((#[trigger] spec_div(
                t.rhs[i],
                t.matrix[i][x],
            )) matches Some(ri2) && le_val(q, ri2)),
    ensures
        rhs_nonneg(spec_pivot(t, x, y)),
{
    let t2 = spec_pivot(t, x, y);
    let piv = t.matrix[y][x];
    assert forall|i: int| 0 <= i < t2.rhs.len() implies !is_neg_val(#[trigger] t2.rhs[i]) by {
        assert(pivot_rhs_entry(t, x, y, i) is Some);
        assert(t2.rhs[i] == pivot_rhs_entry(t, x, y, i).unwrap());
        if i == y {
            lemma_div_nonneg(t.rhs[y], piv);
        } else {
            let f = t.matrix[i][x];
            let r = t.rhs[y];
            if f.num <= 0 {
                lemma_mul_nonpos_nonneg(f, r);
                match spec_mul(f, r) {
                    Option::None => {},
                    Option::Some(t1) => {
                        lemma_spec_mul_val(f, r);
                        lemma_div_nonpos(t1, piv);
                        match spec_div(t1, piv) {
                            Option::None => {},
                            Option::Some(d1) => {
                                lemma_spec_div_val(t1, piv);
                                lemma_sub_nonpos_nonneg(t.rhs[i], d1);
                            },
                        }
                    },
                }
            } else {
                assert(qualifies(t, x, i));
                let qi = spec_div(t.rhs[i], f).unwrap();
                lemma_elim_rhs_nonneg(t.rhs[i], f, r, piv, q, qi);
                match spec_mul(f, r) {
                    Option::None => {},
                    Option::Some(t1) => {
                        lemma_spec_mul_val(f, r);
                        match spec_div(t1, piv) {
                            Option::None => {},
                            Option::Some(d1) => {
                                lemma_spec_div_val(t1, piv);
                            },
                        }
                    },
                }
            }
        }
    }
}

/// A pivot preserves structural well-formedness: every fresh entry comes
/// out of a reduction.
proof fn lemma_pivot_wf(t: TabModel, x: int, y: int)
    requires
        t.wf(),
        0 <= x < t.cols(),
        0 <= y < t.rows(),
        t.matrix[y][x].num != 0,
        pivot_ok(t, x, y),
    ensures
        spec_pivot(t, x, y).wf(),
{
    let t2 = spec_pivot(t, x, y);
    let piv = t.matrix[y][x];
    assert forall|i: int, j: int|
        0 <= i < t2.rows() && 0 <= j < t2.cols() implies (#[trigger] t2.matrix[i][j]).wf() by {
        assert(pivot_entry(t, x, y, i, j) is Some);
        if i == y {
            lemma_spec_div_val(t.matrix[y][j], piv);
        } else {
            lemma_spec_mul_val(t.matrix[i][x], t.matrix[y][j]);
            match spec_mul(t.matrix[i][x], t.matrix[y][j]) {
                Option::None => {},
                Option::Some(t1) => {
                    lemma_spec_div_val(t1, piv);
                    match spec_div(t1, piv) {
                        Option::None => {},
                        Option::Some(d1) => {
                            lemma_spec_sub_val(t.matrix[i][j], d1);
                        },
                    }
                },
            }
        }
    }
    assert forall|i: int| 0 <= i < t2.rhs.len() implies (#[trigger] t2.rhs[i]).wf() by {
        assert(pivot_rhs_entry(t, x, y, i) is Some);
        if i == y {
            lemma_spec_div_val(t.rhs[y], piv);
        } else {
            lemma_spec_mul_val(t.matrix[i][x], t.rhs[y]);
            match spec_mul(t.matrix[i][x], t.rhs[y]) {
                Option::None => {},
                Option::Some(t1) => {
                    lemma_spec_div_val(t1, piv);
                    match spec_div(t1, piv) {
                        Option::None => {},
                        Option::Some(d1) => {
                            lemma_spec_sub_val(t.rhs[i], d1);
                        },
                    }
                },
            }
        }
    }
    assert forall|j: int| 0 <= j < t2.obj.len() implies (#[trigger] t2.obj[j]).wf() by {
        assert(pivot_obj_entry(t, x, y, j) is Some);
        lemma_spec_mul_val(t.obj[x], t.matrix[y][j]);
        match spec_mul(t.obj[x], t.matrix[y][j]) {
            Option::None => {},
            Option::Some(t1) => {
                lemma_spec_div_val(t1, piv);
                match spec_div(t1, piv) {
                    Option::None => {},
                    Option::Some(d1) => {
                        lemma_spec_sub_val(t.obj[j], d1);
                    },
                }
            },
        }
    }
    assert(t2.acc.wf()) by {
        assert(pivot_acc(t, x, y) is Some);
        lemma_spec_mul_val(t.obj[x], t.rhs[y]);
        match spec_mul(t.obj[x], t.rhs[y]) {
            Option::None => {},
            Option::Some(t1) => {
                lemma_spec_div_val(t1, piv);
                match spec_div(t1, piv) {
                    Option::None => {},
                    Option::Some(d1) => {
                        lemma_spec_sub_val(t.acc, d1);
                    },
                }
            },
        }
    }
}

/// From a well-formed tableau with non-negative right-hand sides, every
/// tableau the pivot loop reaches keeps them non-negative, so a `Feasible`
/// outcome reports only non-negative decision-variable values.
pub proof fn lemma_feasible_values_nonneg(t: TabModel, fuel: nat)
    requires
        t.wf(),
        rhs_nonneg(t),
    ensures
        spec_run(t, fuel) matches Some(end) ==> (end matches RunEnd::Feasible(acc, values)
            ==> forall|id: int| 0 <= id < values.len() ==> !is_neg_val(#[trigger] values[id])),
    decreases fuel,
{
    if fuel > 0 {
        match first_pos_col(t.obj, 0) {
            Option::None => {
                if !bad_artificial(t) {
                    let values = spec_extract(t);
                    assert forall|id: int| 0 <= id < values.len() implies !is_neg_val(
                        #[trigger] values[id],
                    ) by {
                        lemma_find_basis_row_props(t.basis, id, 0);
                        assert(values[id] == decision_value(t, id));
                    }
                }
            },
            Option::Some(x) => {
                lemma_first_pos_props(t.obj, 0);
                match spec_min_ratio(t, x) {
                    Option::None => {},
                    Option::Some(Option::None) => {},
                    Option::Some(Option::Some(yr)) => {
                        lemma_min_ratio_scan_min(t, x, 0, Option::None);
                        if pivot_ok(t, x, yr.0) {
                            lemma_pivot_rhs_nonneg(t, x, yr.0, yr.1);
                            lemma_pivot_wf(t, x, yr.0);
                            lemma_feasible_values_nonneg(
                                spec_pivot(t, x, yr.0),
                                (fuel - 1) as nat,
                            );
                        }
                    },
                }
            },
        }
    }
}

/// Sign normalization keeps a constraint well-formed.
proof fn lemma_norm_con_wf(c: ConModel, n: int)
    requires
        c.wf(n),
    ensures
        norm_con(c).wf(n),
{
}

/// A Big-M column fold that stays in range yields a well-formed rational.
proof fn lemma_bigm_col_wf(ncons: Seq<ConModel>, n: int, j: int, k: int, init: Rat, m: Rat)
    requires
        init.wf(),
        m.wf(),
        0 <= j < n,
        0 <= k <= ncons.len(),
        forall|k2: int| 0 <= k2 < ncons.len() ==> (#[trigger] ncons[k2]).wf(n),
    ensures
        bigm_col(ncons, j, k, init, m) matches Some(v) ==> v.wf(),
    decreases k,
{
    if k > 0 {
        lemma_bigm_col_wf(ncons, n, j, k - 1, init, m);
        match bigm_col(ncons, j, k - 1, init, m) {
            Option::None => {},
            Option::Some(v) => {
                if penalized(ncons[k - 1].relation) {
                    lemma_spec_mul_val(ncons[k - 1].coefficients[j], m);
                    match spec_mul(ncons[k - 1].coefficients[j], m) {
                        Option::None => {},
                        Option::Some(t) => {
                            lemma_spec_add_val(v, t);
                        },
                    }
                }
            },
        }
    }
}

/// A Big-M accumulator fold that stays in range yields a well-formed
/// rational.
proof fn lemma_bigm_acc_wf(ncons: Seq<ConModel>, n: int, k: int, m: Rat)
    requires
        m.wf(),
        0 <= k <= ncons.len(),
        forall|k2: int| 0 <= k2 < ncons.len() ==> (#[trigger] ncons[k2]).wf(n),
    ensures
        bigm_acc(ncons, k, m) matches Some(v) ==> v.wf(),
    decreases k,
{
    if k > 0 {
        lemma_bigm_acc_wf(ncons, n, k - 1, m);
        match bigm_acc(ncons, k - 1, m) {
            Option::None => {},
            Option::Some(v) => {
                if penalized(ncons[k - 1].relation) {
                    lemma_spec_mul_val(ncons[k - 1].rhs, m);
                    match spec_mul(ncons[k - 1].rhs, m) {
                        Option::None => {},
                        Option::Some(t) => {
                            lemma_spec_add_val(v, t);
                        },
                    }
                }
            },
        }
    }
}

/// A standardized tableau that stayed in range is well-formed.
pub proof fn lemma_spec_tableau_wf(p: ProbModel, m: Rat)
    requires
        p.wf(),
        m.wf(),
        std_ok(p, m),
    ensures
        spec_tableau(p, m).wf(),
{
    let ncs = norm_cons(p);
    let n = p.objective.len() as int;
    let t = spec_tableau(p, m);
    assert forall|k2: int| 0 <= k2 < ncs.len() implies (#[trigger] ncs[k2]).wf(n) by {
        lemma_norm_con_wf(p.constraints[k2], n);
    }
    lemma_aux_vars_len(ncs, n, ncs.len() as int);
    lemma_aux_base_bounds(ncs, n, ncs.len() as int);
    assert forall|i: int, j: int|
        0 <= i < t.rows() && 0 <= j < t.cols() implies (#[trigger] t.matrix[i][j]).wf() by {
        assert(t.matrix[i][j] == row_entry(ncs[i], aux_base(ncs, n, i), n, j));
    }
    assert forall|j: int| 0 <= j < t.obj.len() implies (#[trigger] t.obj[j]).wf() by {
        assert(spec_obj_entry(p, m, j) is Some);
        if j < n {
            lemma_bigm_col_wf(ncs, n, j, ncs.len() as int, eff_objective(p)[j], m);
        }
    }
    assert(t.acc.wf()) by {
        lemma_bigm_acc_wf(ncs, n, ncs.len() as int, m);
    }
    lemma_spec_rhs_wf(p);
}

/// Right-hand sides of a standardized tableau are well-formed (they are the
/// sign-normalized constraint right-hand sides).
proof fn lemma_spec_rhs_wf(p: ProbModel)
    requires
        p.wf(),
    ensures
        rats_wf(spec_rhs(norm_cons(p))),
{
    let rhs = spec_rhs(norm_cons(p));
    assert forall|i: int| 0 <= i < rhs.len() implies (#[trigger] rhs[i]).wf() by {
        lemma_norm_con_wf(p.constraints[i], p.objective.len() as int);
    }
}

/// A solve that ends `Feasible` reports only non-negative decision-variable
/// values: the standardized tableau starts with non-negative right-hand
/// sides and every minimum-ratio pivot keeps them so.
pub proof fn lemma_solve_feasible_values_nonneg(p: ProbModel, m: Rat, fuel: nat)
    requires
        p.wf(),
        m.wf(),
    ensures
        spec_solve(p, m, fuel) matches Some(s) ==> (s.state == SolveState::Feasible
            ==> forall|i: int| 0 <= i < s.values.len() ==> !is_neg_val(#[trigger] s.values[i])),
{
    if std_ok(p, m) {
        lemma_spec_tableau_wf(p, m);
        lemma_spec_tableau_rhs_nonneg(p, m);
        lemma_feasible_values_nonneg(spec_tableau(p, m), fuel);
    }
}

/// Every right-hand side of a standardized tableau is non-negative: sign
/// normalization flips any constraint with a negative one.
pub proof fn lemma_spec_tableau_rhs_nonneg(p: ProbModel, m: Rat)
    requires
        p.wf(),
    ensures
        rhs_nonneg(spec_tableau(p, m)),
{
    let t = spec_tableau(p, m);
    assert forall|i: int| 0 <= i < t.rhs.len() implies !is_neg_val(#[trigger] t.rhs[i]) by {
        assert(t.rhs[i] == norm_con(p.constraints[i]).rhs);
    }
}

/// A sequence of rationals, negated entrywise.
pub open spec fn neg_seq(s: Seq<Rat>) -> Seq<Rat> {
    Seq::new(s.len(), |i: int| spec_neg(s[i]))
}

/// Sign invariance: minimizing an objective and maximizing its entrywise
/// negation over the same constraints standardize to the same tableau, so
/// the two solves end in the same state with the same decision values, and
/// the maximization reports exactly the negated objective value (or both
/// leave the representable range together).
pub proof fn lemma_sign_invariance(
    objective: Seq<Rat>,
    constraints: Seq<ConModel>,
    m: Rat,
    fuel: nat,
)
    ensures
        ({
            let pmin = ProbModel { direction: Direction::Minimize, objective, constraints };
            let pmax = ProbModel {
                direction: Direction::Maximize,
                objective: neg_seq(objective),
                constraints,
            };
            match (spec_solve(pmin, m, fuel), spec_solve(pmax, m, fuel)) {
                (Option::Some(a), Option::Some(b)) => a.state == b.state && a.values == b.values
                    && b.objective == spec_neg(a.objective),
                (Option::None, Option::None) => true,
                _ => false,
            }
        }),
{
    let pmin = ProbModel { direction: Direction::Minimize, objective, constraints };
    let pmax = ProbModel {
        direction: Direction::Maximize,
        objective: neg_seq(objective),
        constraints,
    };
    assert(eff_objective(pmin) =~= eff_objective(pmax));
    assert(norm_cons(pmin) =~= norm_cons(pmax));
    assert(pmin.objective.len() == pmax.objective.len());
    assert forall|j: int|
        #![trigger spec_obj_entry(pmin, m, j)]
        #![trigger spec_obj_entry(pmax, m, j)]
        true implies spec_obj_entry(pmin, m, j) == spec_obj_entry(pmax, m, j) by {
        assert(norm_cons(pmin) == norm_cons(pmax));
        assert(eff_objective(pmin) == eff_objective(pmax));
    }
    assert(std_ok(pmin, m) == std_ok(pmax, m));
    if std_ok(pmin, m) {
        assert(spec_tableau(pmin, m).obj =~= spec_tableau(pmax, m).obj);
        assert(spec_tableau(pmin, m) =~~= spec_tableau(pmax, m));
        let t = spec_tableau(pmin, m);
        match spec_run(t, fuel) {
            Option::None => {},
            Option::Some(end) => {
                let a = spec_finish(Direction::Minimize, end);
                let b = spec_finish(Direction::Maximize, end);
                match end {
                    RunEnd::Feasible(acc, values) => {
                        assert(b.objective == spec_neg(a.objective));
                    },
                    _ => {
                        assert(a.objective == rat_zero() && b.objective == rat_zero());
                        assert(spec_neg(rat_zero()) == rat_zero());
                    },
                }
            },
        }
    }
}

} // verus!
