use uasat::boolean::{BoolAlg, BoolSat};
use uasat::solver::Solver;

#[test]
fn solve_simple() {
    let mut alg = Solver::new();
    let x = alg.bool_add_variable();
    let y = alg.bool_add_variable();
    let nx = alg.bool_not(x);
    let z = alg.bool_or(x, y);
    alg.bool_add_clause(&[z]);
    alg.bool_add_clause(&[nx]);
    assert!(alg.bool_find_model(&[]));
    assert!(!alg.bool_get_value(x));
    assert!(alg.bool_get_value(y));
    assert!(alg.bool_get_value(z));
}

#[test]
fn solve_unsat() {
    let mut alg = Solver::new();
    let x = alg.bool_add_variable();
    let nx = alg.bool_not(x);
    alg.bool_add_clause(&[x]);
    alg.bool_add_clause(&[nx]);
    assert!(!alg.bool_find_model(&[]));
}

#[test]
fn solve_with_assumptions() {
    let mut alg = Solver::new();
    let x = alg.bool_add_variable();
    let y = alg.bool_xor(x, x);
    // y is always false; assuming x leaves the problem satisfiable
    assert!(alg.bool_find_model(&[x]));
    assert!(alg.bool_get_value(x));
    assert!(!alg.bool_get_value(y));
    // assuming y itself is unsatisfiable
    assert!(!alg.bool_find_model(&[y]));
}

#[test]
fn gates_under_model() {
    let mut alg = Solver::new();
    let t = alg.bool_lift(true);
    let f = alg.bool_lift(false);
    let a = alg.bool_and(t, f);
    let o = alg.bool_or(t, f);
    let m = alg.bool_maj(t, t, f);
    let s = alg.bool_sum3(t, t, f);
    assert!(alg.bool_find_model(&[]));
    assert!(alg.bool_get_value(t));
    assert!(!alg.bool_get_value(f));
    assert!(!alg.bool_get_value(a));
    assert!(alg.bool_get_value(o));
    assert!(alg.bool_get_value(m));
    assert!(!alg.bool_get_value(s));
}
