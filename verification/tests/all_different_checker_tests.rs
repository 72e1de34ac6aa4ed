use implementation::checking::comparison::Comparison;
use implementation::checking::inference::{InferenceChecker, Variable};
use implementation::checking::variable_state::VariableState;
use implementation::conflict_resolving::{Atomic, IntAtomic};
use implementation::propagators::all_different::AllDifferentChecker;

fn atomic(name: &str, comparison: Comparison, value: i32) -> Atomic {
    Atomic::IntAtomic(IntAtomic {
        name: name.to_string(),
        comparison,
        value,
    })
}

fn var(name: &str) -> Variable {
    Variable::Identifier(name.to_string())
}

fn checker(names: &[&str]) -> AllDifferentChecker {
    AllDifferentChecker {
        variables: names.iter().map(|name| var(name)).collect(),
    }
}

/// Prepares the state of the inference and runs the checker on it.
fn run(checker: &AllDifferentChecker, premises: Vec<Atomic>, consequent: Option<Atomic>) -> bool {
    let state = VariableState::prepare_for_conflict_check(&premises, consequent.as_ref())
        .expect("Premises were inconsistent");
    checker.check(state, &premises, consequent.as_ref())
}

/// A row of a sudoku: nine cells that all take different values.
fn sudoku_row() -> AllDifferentChecker {
    checker(&["r1", "r2", "r3", "r4", "r5", "r6", "r7", "r8", "r9"])
}

#[test]
fn all_different_checker_test_0() {
    // A fixed cell removes its value from another cell of the row.
    let premises = vec![atomic("r1", Comparison::Equal, 5)];
    let consequent = Some(atomic("r2", Comparison::NotEqual, 5));
    assert!(run(&sudoku_row(), premises, consequent), "Failed to check inference");
}

#[test]
fn all_different_checker_test_1() {
    // Three cells share two values: a conflict.
    let premises = vec![
        atomic("r1", Comparison::GreaterEqual, 1),
        atomic("r1", Comparison::LessEqual, 2),
        atomic("r2", Comparison::GreaterEqual, 1),
        atomic("r2", Comparison::LessEqual, 2),
        atomic("r3", Comparison::GreaterEqual, 1),
        atomic("r3", Comparison::LessEqual, 2),
    ];
    assert!(run(&sudoku_row(), premises, None), "Failed to check inference");
}

#[test]
fn all_different_checker_test_2() {
    // A given of the puzzle is a constant of the constraint.
    let row = AllDifferentChecker {
        variables: vec![var("a"), Variable::Constant(7), var("b")],
    };
    let premises = vec![atomic("b", Comparison::Equal, 4)];
    let consequent = Some(atomic("a", Comparison::NotEqual, 7));
    assert!(run(&row, premises, consequent), "Failed to check inference");
}

#[test]
fn all_different_checker_test_3() {
    // Two cells hold {1, 2} between them, so a third cell is at least 3.
    let premises = vec![
        atomic("r1", Comparison::GreaterEqual, 1),
        atomic("r1", Comparison::LessEqual, 2),
        atomic("r2", Comparison::GreaterEqual, 1),
        atomic("r2", Comparison::LessEqual, 2),
        atomic("r3", Comparison::GreaterEqual, 1),
    ];
    let consequent = Some(atomic("r3", Comparison::GreaterEqual, 3));
    assert!(run(&sudoku_row(), premises, consequent), "Failed to check inference");
}

#[test]
fn all_different_checker_test_0_invalid() {
    // The consequent names a value that the fixed cell does not take.
    let premises = vec![atomic("r1", Comparison::Equal, 5)];
    let consequent = Some(atomic("r2", Comparison::NotEqual, 6));
    assert!(!run(&sudoku_row(), premises, consequent), "Checker did not reject the inference");
}

#[test]
fn all_different_checker_test_1_invalid() {
    // The third cell may also take the value 3.
    let premises = vec![
        atomic("r1", Comparison::GreaterEqual, 1),
        atomic("r1", Comparison::LessEqual, 2),
        atomic("r2", Comparison::GreaterEqual, 1),
        atomic("r2", Comparison::LessEqual, 2),
        atomic("r3", Comparison::GreaterEqual, 1),
        atomic("r3", Comparison::LessEqual, 3),
    ];
    assert!(!run(&sudoku_row(), premises, None), "Checker did not reject the inference");
}

#[test]
fn all_different_checker_test_2_invalid() {
    // The constant does not take the value that the consequent removes.
    let row = AllDifferentChecker {
        variables: vec![var("a"), Variable::Constant(7), var("b")],
    };
    let premises = vec![atomic("b", Comparison::Equal, 4)];
    let consequent = Some(atomic("a", Comparison::NotEqual, 6));
    assert!(!run(&row, premises, consequent), "Checker did not reject the inference");
}

#[test]
fn all_different_checker_test_3_invalid() {
    // The consequent claims too much: the third cell may be 3.
    let premises = vec![
        atomic("r1", Comparison::GreaterEqual, 1),
        atomic("r1", Comparison::LessEqual, 2),
        atomic("r2", Comparison::GreaterEqual, 1),
        atomic("r2", Comparison::LessEqual, 2),
        atomic("r3", Comparison::GreaterEqual, 1),
    ];
    let consequent = Some(atomic("r3", Comparison::GreaterEqual, 4));
    assert!(!run(&sudoku_row(), premises, consequent), "Checker did not reject the inference");
}

#[test]
fn all_different_holes_are_counted() {
    // Holes shrink the domains: {1, 3} twice and {1, 3} once more is a conflict.
    let premises = vec![
        atomic("r1", Comparison::GreaterEqual, 1),
        atomic("r1", Comparison::LessEqual, 3),
        atomic("r1", Comparison::NotEqual, 2),
        atomic("r2", Comparison::GreaterEqual, 1),
        atomic("r2", Comparison::LessEqual, 3),
        atomic("r2", Comparison::NotEqual, 2),
        atomic("r3", Comparison::GreaterEqual, 1),
        atomic("r3", Comparison::LessEqual, 3),
    ];
    let consequent = Some(atomic("r3", Comparison::Equal, 2));
    assert!(run(&sudoku_row(), premises, consequent));
}

#[test]
fn all_different_unbounded_variables_never_conflict() {
    let premises = vec![atomic("r1", Comparison::GreaterEqual, 1)];
    assert!(!run(&sudoku_row(), premises, None));
}

#[test]
fn all_different_two_equal_constants_conflict() {
    let c = AllDifferentChecker {
        variables: vec![Variable::Constant(3), Variable::Constant(3)],
    };
    assert!(run(&c, vec![], None));
}

#[test]
fn prepare_for_conflict_check_rejects_contradicting_premises() {
    let premises = vec![
        atomic("r1", Comparison::GreaterEqual, 5),
        atomic("r1", Comparison::LessEqual, 4),
    ];
    assert!(VariableState::prepare_for_conflict_check(&premises, None).is_none());
}

#[test]
fn prepare_for_conflict_check_negates_the_consequent() {
    let premises = vec![atomic("x", Comparison::GreaterEqual, 0)];
    let consequent = atomic("x", Comparison::GreaterEqual, 3);
    let state = VariableState::prepare_for_conflict_check(&premises, Some(&consequent))
        .expect("consistent");
    assert!(state.is_true(&"x".to_string(), Comparison::LessEqual, 2));
    assert!(!state.is_true(&"x".to_string(), Comparison::LessEqual, 1));
}
