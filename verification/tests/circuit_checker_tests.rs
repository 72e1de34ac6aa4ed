use implementation::checking::comparison::Comparison;
use implementation::checking::inference::{InferenceChecker, Variable};
use implementation::checking::variable_state::VariableState;
use implementation::conflict_resolving::{Atomic, IntAtomic};
use implementation::propagators::circuit::{CircuitChecker, CircuitExplanationType};

fn atomic(name: &str, comparison: Comparison, value: i32) -> Atomic {
    Atomic::IntAtomic(IntAtomic {
        name: name.to_string(),
        comparison,
        value,
    })
}

fn var(name: &str) -> Variable {
    Variable::Identifier(name.to_string())
}

/// The successor variables of a tour through five cities.
fn tour() -> CircuitChecker {
    CircuitChecker {
        successors: vec![var("x1"), var("x2"), var("x3"), var("x4"), var("x5")],
    }
}

fn run(checker: &CircuitChecker, premises: Vec<Atomic>, consequent: Option<Atomic>) -> bool {
    let state = VariableState::prepare_for_conflict_check(&premises, consequent.as_ref())
        .expect("Premises were inconsistent");
    checker.check(state, &premises, consequent.as_ref())
}

#[test]
fn circuit_checker_test_0() {
    // 1 -> 2, so 2 may not go back to 1.
    let premises = vec![atomic("x1", Comparison::Equal, 2)];
    let consequent = Some(atomic("x2", Comparison::NotEqual, 1));
    assert!(run(&tour(), premises, consequent), "Failed to check inference");
}

#[test]
fn circuit_checker_test_1() {
    // City 3 already has a predecessor.
    let premises = vec![atomic("x1", Comparison::Equal, 3)];
    let consequent = Some(atomic("x2", Comparison::NotEqual, 3));
    assert!(run(&tour(), premises, consequent), "Failed to check inference");
}

#[test]
fn circuit_checker_test_2() {
    // No city is its own successor.
    let consequent = Some(atomic("x3", Comparison::NotEqual, 3));
    assert!(run(&tour(), vec![], consequent), "Failed to check inference");
}

#[test]
fn circuit_checker_test_3() {
    // 1 -> 2 -> 3 may not close back to 1 before the other cities are visited.
    let premises = vec![
        atomic("x1", Comparison::Equal, 2),
        atomic("x2", Comparison::Equal, 3),
    ];
    let consequent = Some(atomic("x3", Comparison::NotEqual, 1));
    assert!(run(&tour(), premises, consequent), "Failed to check inference");
}

#[test]
fn circuit_checker_test_0_invalid() {
    let premises = vec![atomic("x1", Comparison::Equal, 2)];
    let consequent = Some(atomic("x2", Comparison::NotEqual, 3));
    assert!(!run(&tour(), premises, consequent), "Checker did not reject the inference");
}

#[test]
fn circuit_checker_test_1_invalid() {
    let premises = vec![atomic("x1", Comparison::Equal, 3)];
    let consequent = Some(atomic("x2", Comparison::NotEqual, 4));
    assert!(!run(&tour(), premises, consequent), "Checker did not reject the inference");
}

#[test]
fn circuit_checker_test_2_invalid() {
    let consequent = Some(atomic("x3", Comparison::NotEqual, 4));
    assert!(!run(&tour(), vec![], consequent), "Checker did not reject the inference");
}

#[test]
fn circuit_checker_test_3_invalid() {
    let premises = vec![
        atomic("x1", Comparison::Equal, 2),
        atomic("x2", Comparison::Equal, 3),
    ];
    let consequent = Some(atomic("x3", Comparison::NotEqual, 4));
    assert!(!run(&tour(), premises, consequent), "Checker did not reject the inference");
}

#[test]
fn circuit_hamiltonian_path_checker() {
    let x = var("x");
    let y = var("y");
    let z = var("z");

    let premises = vec![
        atomic("x", Comparison::Equal, 2),
        atomic("y", Comparison::Equal, 3),
        atomic("z", Comparison::Equal, 1),
    ];

    let variable_state = VariableState::prepare_for_conflict_check(&premises, None)
        .expect("no mutually exclusive atomics");

    let checker = CircuitChecker {
        successors: vec![x, y, z],
    };

    assert!(
        !checker.check(variable_state, &premises, None),
        "If there is a cycle concerning all variables, then there is no conflict, so the checker should not pas it"
    )
}

#[test]
fn circuit_successor_outside_the_nodes_conflicts() {
    let premises = vec![atomic("x4", Comparison::GreaterEqual, 6)];
    assert!(run(&tour(), premises, None));
}

#[test]
fn circuit_constant_successors_close_a_short_cycle() {
    let checker = CircuitChecker {
        successors: vec![Variable::Constant(2), Variable::Constant(1), var("c")],
    };
    assert!(run(&checker, vec![], None));
}

#[test]
fn circuit_explanation_type_defaults_to_direct() {
    assert_eq!(CircuitExplanationType::default(), CircuitExplanationType::Direct);
}
