use simplex_lp::model::{Constraint, Direction, Problem, Relation, Solution, SolveState};
use simplex_lp::rat::Rat;
use simplex_lp::solver::satisfies;

fn ri(n: i64) -> Rat {
    Rat::from_int(n)
}

fn rq(num: i64, den: i64) -> Rat {
    Rat::new(num, den).unwrap()
}

fn con(relation: Relation, coefficients: Vec<Rat>, rhs: Rat) -> Constraint {
    Constraint { relation, coefficients, rhs }
}

fn feasible(objective: Rat, values: Vec<Rat>) -> Solution {
    Solution { state: SolveState::Feasible, objective, values }
}

#[test]
fn maxi_full_inf_positive_b_solution_exists_1() {
    let c1 = con(Relation::LessEq, vec![ri(2), ri(1)], ri(8));
    let c2 = con(Relation::LessEq, vec![ri(1), ri(2)], ri(7));
    let c3 = con(Relation::LessEq, vec![ri(0), ri(1)], ri(3));
    let problem = Problem {
        direction: Direction::Maximize,
        objective: vec![ri(4), ri(5)],
        constraints: vec![c1, c2, c3],
    };
    let solution = problem.solve().unwrap();
    let target = feasible(ri(22), vec![ri(3), ri(2)]);
    assert!(solution.same_outcome(&target));
}

#[test]
fn maxi_full_inf_positive_b_solution_exists_2() {
    let c1 = con(Relation::LessEq, vec![ri(2), ri(3), ri(0)], ri(8));
    let c2 = con(Relation::LessEq, vec![ri(0), ri(2), ri(5)], ri(10));
    let c3 = con(Relation::LessEq, vec![ri(3), ri(2), ri(4)], ri(15));
    let problem = Problem {
        direction: Direction::Maximize,
        objective: vec![ri(3), ri(5), ri(4)],
        constraints: vec![c1, c2, c3],
    };
    let solution = problem.solve().unwrap();
    let target = feasible(rq(765, 41), vec![rq(89, 41), rq(50, 41), rq(62, 41)]);
    assert!(solution.same_outcome(&target));
}

#[test]
fn mini_mixed_infsup_positive_b_solution_exists() {
    let c1 = con(Relation::LessEq, vec![ri(10), ri(11)], ri(10700));
    let c2 = con(Relation::GreaterEq, vec![ri(1), ri(1)], ri(1000));
    let c3 = con(Relation::LessEq, vec![ri(1), ri(0)], ri(700));
    let problem = Problem {
        direction: Direction::Minimize,
        objective: vec![ri(56), ri(42)],
        constraints: vec![c1, c2, c3],
    };
    let solution = problem.solve().unwrap();
    let target = feasible(ri(46200), vec![ri(300), ri(700)]);
    assert!(solution.same_outcome(&target));
}

#[test]
fn mini_full_sup_positive_b_solution_exists_degeneracy() {
    let c1 = con(Relation::GreaterEq, vec![ri(2), ri(4)], ri(4));
    let c2 = con(Relation::GreaterEq, vec![ri(1), ri(7)], ri(7));
    let problem = Problem {
        direction: Direction::Minimize,
        objective: vec![ri(1), ri(1)],
        constraints: vec![c1, c2],
    };
    let solution = problem.solve().unwrap();
    let target = feasible(ri(1), vec![ri(0), ri(1)]);
    assert!(solution.same_outcome(&target));
}

#[test]
fn maxi_full_inf_positive_b_solution_exists_degeneracy_tie_basis() {
    let c1 = con(Relation::LessEq, vec![ri(1), ri(4)], ri(8));
    let c2 = con(Relation::LessEq, vec![ri(1), ri(2)], ri(4));
    let problem = Problem {
        direction: Direction::Maximize,
        objective: vec![ri(3), ri(9)],
        constraints: vec![c1, c2],
    };
    let solution = problem.solve().unwrap();
    let target = feasible(ri(18), vec![ri(0), ri(2)]);
    assert!(solution.same_outcome(&target));
}

#[test]
fn maxi_mixed_infsup_positive_b_solution_exists_degeneracy_tie_artifical() {
    let c1 = con(Relation::LessEq, vec![ri(1), ri(2), ri(0)], ri(70));
    let c2 = con(Relation::LessEq, vec![ri(2), ri(3), ri(-1)], ri(100));
    let c3 = con(Relation::GreaterEq, vec![ri(1), ri(0), ri(0)], ri(20));
    let c4 = con(Relation::GreaterEq, vec![ri(0), ri(1), ri(0)], ri(25));
    let problem = Problem {
        direction: Direction::Maximize,
        objective: vec![ri(750), ri(900), ri(-450)],
        constraints: vec![c1, c2, c3, c4],
    };
    let solution = problem.solve().unwrap();
    let target = feasible(ri(30750), vec![ri(20), ri(25), ri(15)]);
    assert!(solution.same_outcome(&target));
}

#[test]
fn maxi_mixed_infsup_positive_b_unbouded() {
    let c1 = con(Relation::LessEq, vec![ri(1), ri(-2)], ri(6));
    let c2 = con(Relation::LessEq, vec![ri(1), ri(0)], ri(10));
    let c3 = con(Relation::GreaterEq, vec![ri(0), ri(1)], ri(1));
    let problem = Problem {
        direction: Direction::Maximize,
        objective: vec![ri(3), ri(5)],
        constraints: vec![c1, c2, c3],
    };
    let solution = problem.solve().unwrap();
    assert_eq!(solution.state, SolveState::Unbounded);
}

#[test]
fn maxi_mixed_infsup_positive_b_infeasible() {
    let c1 = con(Relation::LessEq, vec![ri(1), ri(1)], ri(5));
    let c2 = con(Relation::GreaterEq, vec![ri(0), ri(1)], ri(8));
    let problem = Problem {
        direction: Direction::Maximize,
        objective: vec![ri(6), ri(4)],
        constraints: vec![c1, c2],
    };
    let solution = problem.solve().unwrap();
    assert_eq!(solution.state, SolveState::Unfeasible);
}

#[test]
fn maxi_full_inf_positive_b_infeasible() {
    let c1 = con(Relation::LessEq, vec![ri(1), ri(1)], ri(3));
    let c2 = con(Relation::LessEq, vec![ri(-1), ri(3)], ri(-4));
    let problem = Problem {
        direction: Direction::Maximize,
        objective: vec![ri(1), ri(-1)],
        constraints: vec![c1, c2],
    };
    let solution = problem.solve().unwrap();
    assert_eq!(solution.state, SolveState::Unfeasible);
}

#[test]
fn maxi_sum_infeasible_small_bound() {
    let c1 = con(Relation::LessEq, vec![ri(1), ri(1)], ri(5));
    let c2 = con(Relation::GreaterEq, vec![ri(0), ri(1)], ri(8));
    let problem = Problem {
        direction: Direction::Maximize,
        objective: vec![ri(1), ri(1)],
        constraints: vec![c1, c2],
    };
    let solution = problem.solve().unwrap();
    assert_eq!(solution.state, SolveState::Unfeasible);
}

#[test]
fn equality_constraint_pins_variable() {
    let c1 = con(Relation::Equal, vec![ri(1)], ri(5));
    let problem = Problem {
        direction: Direction::Maximize,
        objective: vec![ri(1)],
        constraints: vec![c1],
    };
    let solution = problem.solve().unwrap();
    let target = feasible(ri(5), vec![ri(5)]);
    assert!(solution.same_outcome(&target));
}

#[test]
fn no_constraints_zero_objective_is_feasible() {
    let problem = Problem {
        direction: Direction::Maximize,
        objective: vec![ri(-1)],
        constraints: vec![],
    };
    let solution = problem.solve().unwrap();
    let target = feasible(ri(0), vec![ri(0)]);
    assert!(solution.same_outcome(&target));
}

#[test]
fn no_binding_constraint_is_unbounded() {
    let problem = Problem {
        direction: Direction::Maximize,
        objective: vec![ri(1)],
        constraints: vec![],
    };
    let solution = problem.solve().unwrap();
    assert_eq!(solution.state, SolveState::Unbounded);
}

#[test]
fn iteration_cap_is_reached() {
    // 16 variables, each needing its own pivot: more than the cap of 15.
    let n = 16usize;
    let mut constraints = Vec::new();
    for i in 0..n {
        let mut coeffs = vec![ri(0); n];
        coeffs[i] = ri(1);
        constraints.push(con(Relation::LessEq, coeffs, ri(1)));
    }
    let problem = Problem {
        direction: Direction::Maximize,
        objective: vec![ri(1); n],
        constraints,
    };
    let solution = problem.solve().unwrap();
    assert_eq!(solution.state, SolveState::MaxIterationReached);
}

#[test]
fn all_leq_nonnegative_b_reaches_feasible_not_unfeasible() {
    let c1 = con(Relation::LessEq, vec![ri(1), ri(0)], ri(4));
    let c2 = con(Relation::LessEq, vec![ri(0), ri(1)], ri(6));
    let problem = Problem {
        direction: Direction::Maximize,
        objective: vec![ri(2), ri(3)],
        constraints: vec![c1, c2],
    };
    let solution = problem.solve().unwrap();
    assert_ne!(solution.state, SolveState::Unfeasible);
    let target = feasible(ri(26), vec![ri(4), ri(6)]);
    assert!(solution.same_outcome(&target));
}

#[test]
fn feasible_solution_round_trips_through_constraints() {
    let c1 = con(Relation::LessEq, vec![ri(10), ri(11)], ri(10700));
    let c2 = con(Relation::GreaterEq, vec![ri(1), ri(1)], ri(1000));
    let c3 = con(Relation::LessEq, vec![ri(1), ri(0)], ri(700));
    let problem = Problem {
        direction: Direction::Minimize,
        objective: vec![ri(56), ri(42)],
        constraints: vec![c1, c2, c3],
    };
    let solution = problem.solve().unwrap();
    assert_eq!(solution.state, SolveState::Feasible);
    assert_eq!(satisfies(&problem, &solution.values), Some(true));
}

#[test]
fn round_trip_holds_for_degenerate_problem() {
    let c1 = con(Relation::GreaterEq, vec![ri(2), ri(4)], ri(4));
    let c2 = con(Relation::GreaterEq, vec![ri(1), ri(7)], ri(7));
    let problem = Problem {
        direction: Direction::Minimize,
        objective: vec![ri(1), ri(1)],
        constraints: vec![c1, c2],
    };
    let solution = problem.solve().unwrap();
    assert_eq!(solution.state, SolveState::Feasible);
    assert_eq!(satisfies(&problem, &solution.values), Some(true));
}

#[test]
fn minimize_f_equals_negated_maximize_neg_f() {
    let cons = || {
        vec![
            con(Relation::LessEq, vec![ri(10), ri(11)], ri(10700)),
            con(Relation::GreaterEq, vec![ri(1), ri(1)], ri(1000)),
            con(Relation::LessEq, vec![ri(1), ri(0)], ri(700)),
        ]
    };
    let pmin = Problem {
        direction: Direction::Minimize,
        objective: vec![ri(56), ri(42)],
        constraints: cons(),
    };
    let pmax = Problem {
        direction: Direction::Maximize,
        objective: vec![ri(-56), ri(-42)],
        constraints: cons(),
    };
    let smin = pmin.solve().unwrap();
    let smax = pmax.solve().unwrap();
    assert_eq!(smin.state, smax.state);
    assert_eq!(smin.state, SolveState::Feasible);
    assert_eq!(smin.values.len(), smax.values.len());
    for (a, b) in smin.values.iter().zip(smax.values.iter()) {
        assert!(a.eq_value(*b));
    }
    assert!(smax.objective.eq_value(smin.objective.neg()));
    assert!(smin.objective.eq_value(ri(46200)));
}

#[test]
fn negative_b_equality_is_sign_normalized() {
    // -x0 = -5 is multiplied by -1 into x0 = 5; the relation is unaffected.
    let c1 = con(Relation::Equal, vec![ri(-1)], ri(-5));
    let problem = Problem {
        direction: Direction::Minimize,
        objective: vec![ri(1)],
        constraints: vec![c1],
    };
    let solution = problem.solve().unwrap();
    let target = feasible(ri(5), vec![ri(5)]);
    assert!(solution.same_outcome(&target));
    assert_eq!(satisfies(&problem, &solution.values), Some(true));
}

#[test]
fn solve_reports_none_when_arithmetic_overflows() {
    // The Big-M fold multiplies this coefficient by 1e9, which leaves i64.
    let c1 = con(Relation::GreaterEq, vec![ri(i64::MAX)], ri(1));
    let problem = Problem {
        direction: Direction::Maximize,
        objective: vec![ri(1)],
        constraints: vec![c1],
    };
    assert!(problem.solve().is_none());
}

#[test]
fn solutions_compare_by_value_not_representation() {
    let a = Solution {
        state: SolveState::Feasible,
        objective: Rat { num: 1, den: 2 },
        values: vec![Rat { num: 2, den: 4 }],
    };
    let b = Solution {
        state: SolveState::Feasible,
        objective: Rat { num: 3, den: 6 },
        values: vec![Rat { num: 1, den: 2 }],
    };
    assert!(a.same_outcome(&b));
    let c = Solution {
        state: SolveState::Feasible,
        objective: Rat { num: 1, den: 2 },
        values: vec![Rat { num: 1, den: 3 }],
    };
    assert!(!a.same_outcome(&c));
    let d = Solution { state: SolveState::Unbounded, objective: ri(0), values: vec![] };
    assert!(!a.same_outcome(&d));
}
