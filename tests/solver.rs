use rustasata::literal::Literal;
use rustasata::parser::{parse, Dimacs};
use rustasata::solver::{Solver, SolverResult};

fn run_test(text: &str) -> SolverResult {
    let dimacs = parse(text).unwrap();
    Solver::from_dimacs(&dimacs).solve()
}

/// Solves the formula and checks that a `Sat` answer comes with a model.
fn solve_checked(clauses: Vec<Vec<i64>>) -> SolverResult {
    let dimacs = Dimacs { clauses: clauses.clone() };
    let mut solver = Solver::from_dimacs(&dimacs);
    let result = solver.solve();
    if result == SolverResult::Sat {
        for clause in clauses.iter() {
            assert!(clause
                .iter()
                .any(|&x| solver.value(x.unsigned_abs() as usize) == Some(x > 0)));
        }
    }
    result
}

#[test]
fn backtrack() -> Result<(), ()> {
    let dimacs = Dimacs {
        clauses: vec![
            vec![-1, -2],
            vec![-1, 3],
            vec![-10, -20],
            vec![-10, 30],
            vec![-100, -200],
            vec![-100, 300],
        ],
    };
    let mut solver = Solver::from_dimacs(&dimacs);

    solver.store_decision(Literal(1))?;
    solver.store_consequence(Literal(-2), 0)?;
    solver.store_consequence(Literal(3), 1)?;
    solver.store_decision(Literal(10))?;
    solver.store_consequence(Literal(-20), 2)?;
    solver.store_consequence(Literal(30), 3)?;
    solver.store_decision(Literal(100))?;
    solver.store_consequence(Literal(-200), 4)?;
    solver.store_consequence(Literal(300), 5)?;

    assert_eq!(
        vec![
            Literal(1),
            Literal(-2),
            Literal(3),
            Literal(10),
            Literal(-20),
            Literal(30),
            Literal(100),
            Literal(-200),
            Literal(300),
        ],
        *solver.trail()
    );
    assert_eq!(vec![0, 3, 6], *solver.trail_lim());
    assert_eq!(Some(1), solver.level(1));
    assert_eq!(Some(2), solver.level(10));
    assert_eq!(Some(3), solver.level(100));

    solver.backtrack(1);

    assert_eq!(vec![Literal(1), Literal(-2), Literal(3)], *solver.trail());
    assert_eq!(vec![0], *solver.trail_lim());
    Ok(())
}

#[test]
fn tests_test_empty_formula() {
    let result = run_test("");
    assert_eq!(result, SolverResult::Sat);
}

#[test]
fn tests_test_contradiction() {
    let result = run_test("-1\n1");
    assert_eq!(result, SolverResult::Unsat);
}

#[test]
fn tests_test_double_positive() {
    let result = run_test("1\n1");
    assert_eq!(result, SolverResult::Sat);
}

#[test]
fn tests_test_double_negative() {
    let result = run_test("-1\n-1");
    assert_eq!(result, SolverResult::Sat);
}

#[test]
fn tests_test_one_clause_duplicate_literals() {
    let result = run_test("-1 -1 1 1");
    assert_eq!(result, SolverResult::Sat);
}

#[test]
fn tests_test_bcp_1() {
    let result = run_test("1\n-1 -2\n2");
    assert_eq!(result, SolverResult::Unsat);
}

#[test]
fn tests_test_bcp_2() {
    let result = run_test("1\n2\n-1 -2");
    assert_eq!(result, SolverResult::Unsat);
}

#[test]
fn tests_test_bcp_3() {
    let result = run_test("-1 -2\n1\n2");
    assert_eq!(result, SolverResult::Unsat);
}

#[test]
fn tests_test_bcp_4() {
    let result = run_test("-1\n1 2\n-2");
    assert_eq!(result, SolverResult::Unsat);
}

#[test]
fn tests_test_bcp_5() {
    let result = run_test("-1\n-2\n1 2");
    assert_eq!(result, SolverResult::Unsat);
}

#[test]
fn tests_test_bcp_6() {
    let result = run_test("-1 2\n-2\n1 2");
    assert_eq!(result, SolverResult::Unsat);
}

#[test]
fn tests_test_bcp_7() {
    let result = run_test("-1 2 3\n-2\n1 2");
    assert_eq!(result, SolverResult::Sat);
}

#[test]
fn tests_test_tiny_sat_instance_1() {
    let result = run_test(
        "
        1 2 -3
        -1 -2
    ",
    );
    assert_eq!(result, SolverResult::Sat);
}

#[test]
fn tests_test_tiny_sat_instance_2() {
    let result = run_test(
        "
        1 2 -3
        -1 -2
        -1 2 -3
    ",
    );
    assert_eq!(result, SolverResult::Sat);
}

#[test]
fn tests_test_tiny_sat_instance_3() {
    let result = run_test(
        "
        1 2 3
        -2 -3 4
        5 -3 -1
        -4 -5
    ",
    );
    assert_eq!(result, SolverResult::Sat);
}

#[test]
fn tests_test_tiny_sat_instance_4() {
    let result = run_test(
        "
        -1 2 -4
        -2 3 -4
    ",
    );
    assert_eq!(result, SolverResult::Sat);
}

#[test]
fn empty_clause_is_unsat() {
    assert_eq!(SolverResult::Unsat, solve_checked(vec![vec![1, 2], vec![], vec![3]]));
}

#[test]
fn tautology_is_sat() {
    assert_eq!(SolverResult::Sat, solve_checked(vec![vec![4, -4]]));
    assert_eq!(SolverResult::Sat, solve_checked(vec![vec![1, -1], vec![-1], vec![2, -1]]));
}

#[test]
fn sat_answers_come_with_a_model() {
    assert_eq!(
        SolverResult::Sat,
        solve_checked(vec![vec![1, 2, 3], vec![-2, -3, 4], vec![5, -3, -1], vec![-4, -5]])
    );
    assert_eq!(SolverResult::Sat, solve_checked(vec![vec![-1, 2, -4], vec![-2, 3, -4]]));
}

#[test]
fn solving_twice_gives_the_same_result() {
    let text = "1 2 -3\n-1 -2\n-1 2 -3\n";
    assert_eq!(run_test(text), run_test(text));
    let text = "1\n-1 -2\n2\n";
    assert_eq!(run_test(text), run_test(text));
}

#[test]
fn unsat_stays_unsat_with_another_clause() {
    assert_eq!(SolverResult::Unsat, solve_checked(vec![vec![1], vec![-1, -2], vec![2]]));
    assert_eq!(
        SolverResult::Unsat,
        solve_checked(vec![vec![1], vec![-1, -2], vec![2], vec![3, 4]])
    );
    assert_eq!(SolverResult::Unsat, solve_checked(vec![vec![1], vec![-1, -2], vec![2], vec![-1]]));
}

/// All eight clauses over three variables: every assignment falsifies one,
/// so the solver has to learn and backjump.
#[test]
fn all_clauses_over_three_variables_are_unsat() {
    let mut clauses = Vec::new();
    for bits in 0..8 {
        let clause: Vec<i64> = (0..3)
            .map(|i| if bits & (1 << i) != 0 { i as i64 + 1 } else { -(i as i64 + 1) })
            .collect();
        clauses.push(clause);
    }
    assert_eq!(SolverResult::Unsat, solve_checked(clauses.clone()));
    clauses.pop();
    assert_eq!(SolverResult::Sat, solve_checked(clauses));
}

/// Pigeonhole: three pigeons do not fit in two holes.
#[test]
fn pigeonhole_three_in_two_is_unsat() {
    let p = |i: i64, j: i64| 2 * i + j + 1;
    let mut clauses = Vec::new();
    for i in 0..3 {
        clauses.push(vec![p(i, 0), p(i, 1)]);
    }
    for j in 0..2 {
        for a in 0..3 {
            for b in (a + 1)..3 {
                clauses.push(vec![-p(a, j), -p(b, j)]);
            }
        }
    }
    assert_eq!(SolverResult::Unsat, solve_checked(clauses));
}

#[test]
fn chain_of_implications_is_sat() {
    let mut clauses = Vec::new();
    for i in 1..40 {
        clauses.push(vec![-i, i + 1]);
    }
    clauses.push(vec![1, 20]);
    clauses.push(vec![-40, -15, 3]);
    assert_eq!(SolverResult::Sat, solve_checked(clauses));
}

#[test]
fn backtrack_undoes_a_level() {
    let dimacs = Dimacs { clauses: vec![vec![-1, 2], vec![-3, -4], vec![5, 6]] };
    let mut solver = Solver::from_dimacs(&dimacs);
    solver.store_decision(Literal(1)).unwrap();
    solver.store_consequence(Literal(2), 0).unwrap();
    let trail = solver.trail().clone();
    let limits = solver.trail_lim().clone();
    solver.store_decision(Literal(3)).unwrap();
    solver.store_consequence(Literal(-4), 1).unwrap();
    assert_eq!(Some(2), solver.level(4));
    solver.backtrack(1);
    assert_eq!(trail, *solver.trail());
    assert_eq!(limits, *solver.trail_lim());
    assert_eq!(None, solver.value(3));
    assert_eq!(None, solver.level(4));
    assert_eq!(Some(true), solver.value(2));
}

#[test]
fn store_rejects_what_the_formula_does_not_allow() {
    let dimacs = Dimacs { clauses: vec![vec![-1, 2]] };
    let mut solver = Solver::from_dimacs(&dimacs);
    assert_eq!(Err(()), solver.store_decision(Literal(9)));
    assert_eq!(Err(()), solver.store_decision(Literal(0)));
    assert_eq!(Err(()), solver.store_consequence(Literal(2), 0));
    solver.store_decision(Literal(1)).unwrap();
    assert_eq!(Err(()), solver.store_decision(Literal(-1)));
    assert_eq!(Ok(()), solver.store_consequence(Literal(2), 0));
    assert_eq!(Some(true), solver.value(2));
}

fn brute_force(clauses: &[Vec<i64>], n: u32) -> bool {
    (0u32..(1 << n)).any(|bits| {
        clauses
            .iter()
            .all(|c| c.iter().any(|&x| ((bits >> (x.unsigned_abs() - 1)) & 1 == 1) == (x > 0)))
    })
}

/// Random 3-SAT instances around the threshold, against exhaustive search.
#[test]
fn random_three_sat_agrees_with_exhaustive_search() {
    let mut seed: u64 = 0x2545_f491_4f6c_dd1d;
    let mut next = || {
        seed = seed.wrapping_mul(6364136223846793005).wrapping_add(1442695040888963407);
        (seed >> 33) as i64
    };
    let n = 14;
    let mut sat = 0;
    let mut unsat = 0;
    for _ in 0..40 {
        let m = 55 + next() % 10;
        let mut clauses = Vec::new();
        for _ in 0..m {
            let clause: Vec<i64> = (0..3)
                .map(|_| {
                    let v = 1 + next() % n as i64;
                    if next() % 2 == 0 { v } else { -v }
                })
                .collect();
            clauses.push(clause);
        }
        let expected = brute_force(&clauses, n);
        let result = solve_checked(clauses);
        assert_eq!(expected, result == SolverResult::Sat);
        if expected {
            sat += 1;
        } else {
            unsat += 1;
        }
    }
    assert!(sat > 0 && unsat > 0);
}

#[test]
fn from_dimacs_assigns_unit_clauses_at_level_zero() {
    let dimacs = Dimacs { clauses: vec![vec![3, 3], vec![-1, 2], vec![-4]] };
    let solver = Solver::from_dimacs(&dimacs);
    assert_eq!(Some(true), solver.value(3));
    assert_eq!(Some(false), solver.value(4));
    assert_eq!(None, solver.value(1));
    assert_eq!(Some(0), solver.level(3));
    assert_eq!(vec![Literal(3), Literal(-4)], *solver.trail());
    assert!(solver.trail_lim().is_empty());
}
