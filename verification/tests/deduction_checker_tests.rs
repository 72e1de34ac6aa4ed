use implementation::checking::comparison::Comparison;
use implementation::conflict_analysis::{AllDecisionResolver, DeductionCheckerImpl};
use implementation::conflict_resolving::{Atomic, DeductionChecker, IntAtomic, SupportingInference};

fn atomic(name: &str, comparison: Comparison, value: i32) -> Atomic {
    Atomic::IntAtomic(IntAtomic {
        name: name.to_string(),
        comparison,
        value,
    })
}

fn inference(premises: Vec<Atomic>, consequent: Option<Atomic>) -> SupportingInference {
    SupportingInference {
        premises,
        consequent,
    }
}

#[test]
fn deduction_with_chain_of_propagations_is_accepted() {
    // [x >= 5] -> [y >= 5] -> [y <= 3] is a conflict.
    let premises = vec![atomic("x", Comparison::GreaterEqual, 5)];
    let inferences = vec![
        inference(
            vec![atomic("x", Comparison::GreaterEqual, 5)],
            Some(atomic("y", Comparison::GreaterEqual, 5)),
        ),
        inference(
            vec![atomic("y", Comparison::GreaterEqual, 4)],
            Some(atomic("y", Comparison::LessEqual, 3)),
        ),
    ];
    assert!(DeductionCheckerImpl.verify_deduction(premises, inferences));
}

#[test]
fn deduction_ending_in_explicit_conflict_is_accepted() {
    let premises = vec![
        atomic("x", Comparison::Equal, 1),
        atomic("y", Comparison::Equal, 1),
    ];
    let inferences = vec![inference(
        vec![
            atomic("x", Comparison::Equal, 1),
            atomic("y", Comparison::Equal, 1),
        ],
        None,
    )];
    assert!(DeductionCheckerImpl.verify_deduction(premises, inferences));
}

#[test]
fn deduction_without_conflict_is_rejected() {
    let premises = vec![atomic("x", Comparison::GreaterEqual, 5)];
    let inferences = vec![inference(
        vec![atomic("x", Comparison::GreaterEqual, 5)],
        Some(atomic("y", Comparison::GreaterEqual, 5)),
    )];
    assert!(!DeductionCheckerImpl.verify_deduction(premises, inferences));
}

#[test]
fn inference_with_unentailed_premise_is_skipped() {
    // The inference needs x >= 6 but only x >= 5 is known.
    let premises = vec![atomic("x", Comparison::GreaterEqual, 5)];
    let inferences = vec![inference(vec![atomic("x", Comparison::GreaterEqual, 6)], None)];
    assert!(!DeductionCheckerImpl.verify_deduction(premises, inferences));
}

#[test]
fn contradicting_premises_are_accepted_without_inferences() {
    let premises = vec![
        atomic("x", Comparison::Equal, 3),
        atomic("x", Comparison::NotEqual, 3),
    ];
    assert!(DeductionCheckerImpl::check(&premises, &vec![]));
}

#[test]
fn empty_deduction_is_rejected() {
    assert!(!DeductionCheckerImpl.verify_deduction(vec![], vec![]));
}

#[test]
fn boolean_constants_in_deductions() {
    // The constants are atomics over their own reserved variables.
    let premises = vec![Atomic::from(true), Atomic::from(false)];
    let inferences = vec![inference(vec![Atomic::True, Atomic::False], None)];
    assert!(DeductionCheckerImpl.verify_deduction(premises.clone(), inferences));
    let unrelated = vec![inference(vec![Atomic::True], Some(Atomic::False))];
    assert!(!DeductionCheckerImpl.verify_deduction(vec![Atomic::True], unrelated));
}

#[test]
fn all_decision_resolver_is_constructed() {
    let _resolver = AllDecisionResolver::new();
}

#[test]
fn atomic_set_value_replaces_value() {
    let mut a = atomic("x", Comparison::LessEqual, 3);
    a.set_value(7);
    assert_eq!(a, atomic("x", Comparison::LessEqual, 7));

    let mut t = Atomic::True;
    t.set_value(7);
    assert_eq!(t, Atomic::True);
}

#[test]
fn atomic_accessors_of_constants() {
    assert_eq!(Atomic::True.identifier(), "true");
    assert_eq!(Atomic::False.identifier(), "false");
    assert_eq!(Atomic::True.value(), 1);
    assert_eq!(Atomic::False.value(), 0);
    assert_eq!(Atomic::True.comparison(), Comparison::Equal);
}

#[test]
fn atomic_accessors_of_int_atomic() {
    let a = atomic("x", Comparison::GreaterEqual, 4);
    assert_eq!(a.identifier(), "x");
    assert_eq!(a.comparison(), Comparison::GreaterEqual);
    assert_eq!(a.value(), 4);
}

#[test]
fn atomic_negation() {
    assert_eq!(Atomic::True.negate(), Atomic::False);
    assert_eq!(Atomic::False.negate(), Atomic::True);
    assert_eq!(
        atomic("x", Comparison::GreaterEqual, 4).negate(),
        atomic("x", Comparison::LessEqual, 3)
    );
    assert_eq!(
        atomic("x", Comparison::LessEqual, 4).negate(),
        atomic("x", Comparison::GreaterEqual, 5)
    );
    assert_eq!(
        atomic("x", Comparison::Equal, 4).negate(),
        atomic("x", Comparison::NotEqual, 4)
    );
    assert_eq!(
        atomic("x", Comparison::NotEqual, 4).negate(),
        atomic("x", Comparison::Equal, 4)
    );
    let a = atomic("y", Comparison::LessEqual, -2);
    assert_eq!(a.negate().negate(), a);
}

#[test]
fn atomic_from_conversions() {
    assert_eq!(Atomic::from(false), Atomic::False);
    let int_atomic = IntAtomic {
        name: "z".to_string(),
        comparison: Comparison::NotEqual,
        value: 0,
    };
    assert_eq!(Atomic::from(int_atomic.clone()), Atomic::IntAtomic(int_atomic));
}
